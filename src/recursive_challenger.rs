use vstd::prelude::*;

use crate::circuit::{
    extends, lemma_extends_trans, lemma_fresh_values, lemma_values_at_extends, values_at, within,
    CircuitBuilder, Target,
};
use crate::field::take_prefix;
use crate::hash::{permute_spec, SPONGE_RATE, SPONGE_WIDTH};
use crate::sponge::{
    absorb, absorb_chunks, model_wf, challenge_step, challenges, initial_model, lemma_challenge_step_wf, lemma_rounds_len,
    observe_all, observe_step, overwrite, SpongeModel,
};

verus! {

/// The wires of a digest of four field elements.
#[derive(Clone, Copy, PartialEq, Eq, Debug)]
pub struct HashTarget {
    pub elements: [Target; 4],
}

/// The wires that absorbing `pending` inputs adds: one permutation gadget per chunk of
/// `SPONGE_RATE` inputs.
pub open spec fn absorb_wires(pending: nat) -> nat {
    (SPONGE_WIDTH * ((pending + SPONGE_RATE - 1) / (SPONGE_RATE as int))) as nat
}

/// The wires that one challenge adds: the absorption of the pending inputs, or one permutation
/// gadget when there is nothing pending and no buffered output, else none.
pub open spec fn challenge_wires(pending: nat, buffered: nat) -> nat {
    if pending > 0 {
        absorb_wires(pending)
    } else if buffered == 0 {
        SPONGE_WIDTH as nat
    } else {
        0
    }
}

/// The number of buffered outputs after one challenge: a fresh absorption or squeeze buffers
/// `SPONGE_RATE` outputs, and the challenge takes one.
pub open spec fn buffered_after(pending: nat, buffered: nat) -> nat {
    if pending > 0 || buffered == 0 {
        (SPONGE_RATE - 1) as nat
    } else {
        (buffered - 1) as nat
    }
}

/// The number of buffered outputs after `n` challenges; only the first may find inputs pending.
pub open spec fn buffered_after_n(pending: nat, buffered: nat, n: nat) -> nat
    decreases n,
{
    if n == 0 {
        buffered
    } else {
        buffered_after(if n == 1 { pending } else { 0 }, buffered_after_n(pending, buffered, (n - 1) as nat))
    }
}

/// The wires that `n` challenges in a row add.
pub open spec fn challenges_wires(pending: nat, buffered: nat, n: nat) -> nat
    decreases n,
{
    if n == 0 {
        0
    } else {
        challenges_wires(pending, buffered, (n - 1) as nat) + challenge_wires(
            if n == 1 { pending } else { 0 },
            buffered_after_n(pending, buffered, (n - 1) as nat),
        )
    }
}

/// The transcript of `Challenger` realised as circuit wiring: each permutation becomes a
/// permutation gadget of the builder, and each element a wire.
pub struct RecursiveChallenger {
    sponge_state: Vec<Target>,
    input_buffer: Vec<Target>,
    output_buffer: Vec<Target>,
}

impl RecursiveChallenger {
    /// The transcript state that the wires hold under the wire assignment `w`.
    pub closed spec fn valued(&self, w: Seq<int>) -> SpongeModel {
        SpongeModel {
            state: values_at(self.sponge_state@, w),
            inputs: values_at(self.input_buffer@, w),
            outputs: values_at(self.output_buffer@, w),
        }
    }

    /// The sponge state has the permutation's width and every wire is among the first `n`.
    pub closed spec fn wf(&self, n: int) -> bool {
        &&& self.sponge_state.len() == SPONGE_WIDTH
        &&& within(self.sponge_state@, n)
        &&& within(self.input_buffer@, n)
        &&& within(self.output_buffer@, n)
    }

    /// The number of outputs buffered and not yet handed out.
    pub closed spec fn buffered(&self) -> nat {
        self.output_buffer@.len()
    }

    /// The number of observed elements not yet absorbed.
    pub closed spec fn pending(&self) -> nat {
        self.input_buffer@.len()
    }

    /// Under any wire assignment, a well-formed circuit transcript holds a state of the
    /// sponge's width.
    pub proof fn lemma_wf(&self, n: int, w: Seq<int>)
        requires
            self.wf(n),
        ensures
            model_wf(self.valued(w)),
    {
    }

    /// The evaluated transcript has as many pending inputs and buffered outputs as there are
    /// pending and buffered wires.
    pub proof fn lemma_valued_counts(&self, w: Seq<int>)
        ensures
            self.valued(w).inputs.len() == self.pending(),
            self.valued(w).outputs.len() == self.buffered(),
    {
    }

    pub proof fn lemma_valued_extends(&self, w1: Seq<int>, w2: Seq<int>)
        requires
            self.wf(w1.len() as int),
            extends(w2, w1),
        ensures
            self.valued(w2) == self.valued(w1),
            self.wf(w2.len() as int),
    {
        lemma_values_at_extends(self.sponge_state@, w1, w2);
        lemma_values_at_extends(self.input_buffer@, w1, w2);
        lemma_values_at_extends(self.output_buffer@, w1, w2);
    }

    pub fn new(builder: &mut CircuitBuilder) -> (r: RecursiveChallenger)
        requires
            old(builder).wf(),
            old(builder).wires().len() < usize::MAX,
        ensures
            final(builder).wf(),
            extends(final(builder).wires(), old(builder).wires()),
            final(builder).wires().len() == old(builder).wires().len() + 1,
            final(builder).wires() == old(builder).wires().push(0),
            r.wf(final(builder).wires().len() as int),
            r.valued(final(builder).wires()) == initial_model(),
            r.pending() == 0,
    {
        let zero = builder.zero();
        let mut state: Vec<Target> = Vec::new();
        let mut i: usize = 0;
        while i < SPONGE_WIDTH
            invariant
                i <= SPONGE_WIDTH,
                state.len() == i,
                forall|j: int| 0 <= j < i ==> #[trigger] state@[j] == zero,
            decreases SPONGE_WIDTH - i,
        {
            state.push(zero);
            i = i + 1;
        }
        let r = RecursiveChallenger { sponge_state: state, input_buffer: Vec::new(), output_buffer: Vec::new() };
        let ghost w = builder.wires();
        assert(r.valued(w).state =~= initial_model().state);
        assert(r.valued(w).inputs =~= seq![]);
        assert(r.valued(w).outputs =~= seq![]);
        r
    }

    pub fn observe_element(&mut self, target: Target)
        ensures
            forall|w: Seq<int>|
                #[trigger] final(self).valued(w) == observe_step(old(self).valued(w), w[target.index as int]),
            forall|n: int| old(self).wf(n) && target.index < n ==> #[trigger] final(self).wf(n),
            final(self).pending() == old(self).pending() + 1,
    {
        // Any buffered outputs are now invalid, since they wouldn't reflect this input.
        self.output_buffer.clear();
        self.input_buffer.push(target);
        assert forall|w: Seq<int>| #[trigger]
            self.valued(w) == observe_step(old(self).valued(w), w[target.index as int]) by {
            assert(values_at(self.input_buffer@, w) =~= values_at(old(self).input_buffer@, w).push(
                w[target.index as int],
            ));
            assert(values_at(self.output_buffer@, w) =~= seq![]);
        }
    }

    pub fn observe_elements(&mut self, targets: &[Target])
        ensures
            forall|w: Seq<int>|
                #[trigger] final(self).valued(w) == observe_all(old(self).valued(w), values_at(targets@, w)),
            forall|n: int| old(self).wf(n) && within(targets@, n) ==> #[trigger] final(self).wf(n),
            final(self).pending() == old(self).pending() + targets.len(),
    {
        let mut i: usize = 0;
        while i < targets.len()
            invariant
                i <= targets.len(),
                forall|w: Seq<int>|
                    #[trigger] self.valued(w) == observe_all(
                        old(self).valued(w),
                        values_at(targets@.take(i as int), w),
                    ),
                forall|n: int| old(self).wf(n) && within(targets@, n) ==> #[trigger] self.wf(n),
                self.pending() == old(self).pending() + i,
            decreases targets.len() - i,
        {
            let ghost prev = *self;
            self.observe_element(targets[i]);
            assert forall|w: Seq<int>| #[trigger]
                self.valued(w) == observe_all(old(self).valued(w), values_at(targets@.take(i as int + 1), w)) by {
                let xs = values_at(targets@.take(i as int + 1), w);
                assert(xs.drop_last() =~= values_at(targets@.take(i as int), w));
                assert(prev.valued(w) == observe_all(old(self).valued(w), values_at(targets@.take(i as int), w)));
            }
            assert forall|n: int| old(self).wf(n) && within(targets@, n) implies #[trigger] self.wf(n) by {
                assert(prev.wf(n));
                assert(targets@[i as int].index < n);
            }
            i = i + 1;
        }
        assert(targets@.take(targets.len() as int) =~= targets@);
    }

    pub fn observe_hash(&mut self, hash: &HashTarget)
        ensures
            forall|w: Seq<int>|
                #[trigger] final(self).valued(w) == observe_all(old(self).valued(w), values_at(hash.elements@, w)),
            forall|n: int| old(self).wf(n) && within(hash.elements@, n) ==> #[trigger] final(self).wf(n),
            final(self).pending() == old(self).pending() + 4,
    {
        self.observe_elements(hash.elements.as_slice())
    }

    /// Absorb any buffered inputs. After calling this, the input buffer will be empty.
    fn absorb_buffered_inputs(&mut self, builder: &mut CircuitBuilder)
        requires
            old(builder).wf(),
            old(self).wf(old(builder).wires().len() as int),
            old(builder).wires().len() + SPONGE_WIDTH * old(self).pending() <= usize::MAX,
        ensures
            final(builder).wf(),
            extends(final(builder).wires(), old(builder).wires()),
            final(builder).wires().len() == old(builder).wires().len() + absorb_wires(old(self).pending()),
            old(self).pending() == 0 ==> *final(builder) == *old(builder) && *final(self) == *old(self),
            old(self).pending() > 0 ==> final(self).buffered() == SPONGE_RATE,
            final(self).wf(final(builder).wires().len() as int),
            final(self).valued(final(builder).wires()) == absorb(old(self).valued(old(builder).wires())),
            final(self).pending() == 0,
    {
        let ghost w0 = builder.wires();
        if self.input_buffer.len() == 0 {
            assert(extends(w0, w0));
            assert(absorb_wires(0) == 0);
            return;
        }
        let n = self.input_buffer.len();
        let ghost ins = values_at(self.input_buffer@, w0);
        let mut start: usize = 0;
        assert(ins.skip(0) =~= ins);
        assert(extends(w0, w0));
        while start < n
            invariant
                start <= n,
                n == self.input_buffer.len(),
                builder.wf(),
                extends(builder.wires(), w0),
                builder.wires().len() == w0.len() + SPONGE_WIDTH * ((start + 7) / 8),
                start % 8 == 0 || start == n,
                w0.len() + SPONGE_WIDTH * n <= usize::MAX,
                self.input_buffer@ == old(self).input_buffer@,
                self.output_buffer@ == old(self).output_buffer@,
                old(self).wf(w0.len() as int),
                self.sponge_state.len() == SPONGE_WIDTH,
                within(self.sponge_state@, builder.wires().len() as int),
                ins == values_at(self.input_buffer@, w0),
                absorb_chunks(values_at(self.sponge_state@, builder.wires()), ins.skip(start as int))
                    == absorb_chunks(values_at(old(self).sponge_state@, w0), ins),
            decreases n - start,
        {
            let len: usize = if n - start < SPONGE_RATE { n - start } else { SPONGE_RATE };
            let ghost w = builder.wires();
            assert(start % 8 == 0);
            assert((start + 7) / 8 == start / 8);
            assert((start + len + 7) / 8 == start / 8 + 1);
            assert(start / 8 + 1 <= n);
            let ghost before = values_at(self.sponge_state@, w);
            proof {
                lemma_values_at_extends(self.input_buffer@, w0, w);
            }
            let mut k: usize = 0;
            // Overwrite the first `len` elements with the inputs, rather than adding them in.
            while k < len
                invariant
                    k <= len,
                    len <= SPONGE_RATE,
                    start + len <= n,
                    n == self.input_buffer.len(),
                    self.input_buffer@ == old(self).input_buffer@,
                    self.output_buffer@ == old(self).output_buffer@,
                    old(self).wf(w0.len() as int),
                    w == builder.wires(),
                    extends(w, w0),
                    self.sponge_state.len() == SPONGE_WIDTH,
                    within(self.sponge_state@, w.len() as int),
                    before.len() == SPONGE_WIDTH,
                    ins == values_at(self.input_buffer@, w),
                    values_at(self.sponge_state@, w) == overwrite(before, ins.subrange(start as int, start + k)),
                decreases len - k,
            {
                let ghost prev = self.sponge_state@;
                let t = self.input_buffer[start + k];
                assert(t == self.input_buffer@[start + k]);
                assert(w[t.index as int] == ins[start + k]);
                self.sponge_state.set(k, t);
                assert(values_at(self.sponge_state@, w) =~= values_at(prev, w).update(k as int, w[t.index as int]));
                assert(values_at(self.sponge_state@, w) =~= overwrite(before, ins.subrange(start as int, start + k + 1)));
                k = k + 1;
            }
            let ghost rest = ins.skip(start as int);
            assert(rest.take(len as int) =~= ins.subrange(start as int, start + len));
            assert(rest.skip(len as int) =~= ins.skip(start + len));
            let out = builder.permute(&self.sponge_state);
            proof {
                let xs = permute_spec(values_at(self.sponge_state@, w));
                lemma_rounds_len(values_at(self.sponge_state@, w), 101);
                lemma_fresh_values(out@, w, xs);
                lemma_extends_trans(builder.wires(), w, w0);
            }
            self.sponge_state = out;
            start = start + len;
        }
        assert(ins.skip(n as int) =~= seq![]);
        assert(absorb_wires(n as nat) == SPONGE_WIDTH * ((n + 7) / 8));
        self.output_buffer = take_prefix(&self.sponge_state, SPONGE_RATE);
        self.input_buffer.clear();
        assert(values_at(self.input_buffer@, builder.wires()) =~= seq![]);
        assert(values_at(self.output_buffer@, builder.wires()) =~= values_at(
            self.sponge_state@,
            builder.wires(),
        ).take(SPONGE_RATE as int));
    }

    pub fn get_challenge(&mut self, builder: &mut CircuitBuilder) -> (r: Target)
        requires
            old(builder).wf(),
            old(self).wf(old(builder).wires().len() as int),
            old(builder).wires().len() + SPONGE_WIDTH * (old(self).pending() + 1) <= usize::MAX,
        ensures
            final(builder).wf(),
            extends(final(builder).wires(), old(builder).wires()),
            final(builder).wires().len() == old(builder).wires().len() + challenge_wires(
                old(self).pending(),
                old(self).buffered(),
            ),
            final(builder).wires().len() <= old(builder).wires().len() + SPONGE_WIDTH * (old(self).pending() + 1),
            old(self).pending() == 0 && old(self).buffered() > 0 ==> *final(builder) == *old(builder),
            final(self).buffered() == buffered_after(old(self).pending(), old(self).buffered()),
            final(self).wf(final(builder).wires().len() as int),
            final(self).pending() == 0,
            r.index < final(builder).wires().len(),
            (final(self).valued(final(builder).wires()), final(builder).wires()[r.index as int])
                == challenge_step(old(self).valued(old(builder).wires())),
    {
        let ghost w0 = builder.wires();
        proof {
            lemma_challenge_step_wf(old(self).valued(w0));
        }
        assert((old(self).pending() + 7) / 8 <= old(self).pending());
        self.absorb_buffered_inputs(builder);
        let ghost w1 = builder.wires();
        if self.output_buffer.len() == 0 {
            // Evaluate the permutation to produce `SPONGE_RATE` new outputs.
            let out = builder.permute(&self.sponge_state);
            proof {
                let xs = permute_spec(values_at(self.sponge_state@, w1));
                lemma_rounds_len(values_at(self.sponge_state@, w1), 101);
                lemma_fresh_values(out@, w1, xs);
                lemma_extends_trans(builder.wires(), w1, w0);
                lemma_values_at_extends(self.input_buffer@, w1, builder.wires());
            }
            self.sponge_state = out;
            self.output_buffer = take_prefix(&self.sponge_state, SPONGE_RATE);
            assert(values_at(self.output_buffer@, builder.wires()) =~= values_at(
                self.sponge_state@,
                builder.wires(),
            ).take(SPONGE_RATE as int));
        }
        let ghost w2 = builder.wires();
        let ghost full = self.output_buffer@;
        assert(values_at(full, w2).len() > 0);
        let r = self.output_buffer.pop().unwrap();
        assert(values_at(self.output_buffer@, w2) =~= values_at(full, w2).drop_last());
        r
    }

    pub fn get_2_challenges(&mut self, builder: &mut CircuitBuilder) -> (r: (Target, Target))
        requires
            old(builder).wf(),
            old(self).wf(old(builder).wires().len() as int),
            old(builder).wires().len() + SPONGE_WIDTH * (old(self).pending() + 2) <= usize::MAX,
        ensures
            final(builder).wf(),
            extends(final(builder).wires(), old(builder).wires()),
            final(builder).wires().len() <= old(builder).wires().len() + SPONGE_WIDTH * (old(self).pending() + 2),
            final(self).pending() == 0,
            final(builder).wires().len() == old(builder).wires().len() + challenges_wires(
                old(self).pending(),
                old(self).buffered(),
                2,
            ),
            final(self).buffered() == buffered_after_n(old(self).pending(), old(self).buffered(), 2),
            final(self).wf(final(builder).wires().len() as int),
            r.0.index < final(builder).wires().len(),
            r.1.index < final(builder).wires().len(),
            challenges(old(self).valued(old(builder).wires()), 2) == (
                final(self).valued(final(builder).wires()),
                seq![final(builder).wires()[r.0.index as int], final(builder).wires()[r.1.index as int]],
            ),
    {
        let ghost w0 = builder.wires();
        let a = self.get_challenge(builder);
        let ghost w1 = builder.wires();
        let b = self.get_challenge(builder);
        proof {
            lemma_extends_trans(builder.wires(), w1, w0);
            reveal_with_fuel(challenges, 3);
            reveal_with_fuel(challenges_wires, 3);
            reveal_with_fuel(buffered_after_n, 3);
        }
        (a, b)
    }

    pub fn get_3_challenges(&mut self, builder: &mut CircuitBuilder) -> (r: (Target, Target, Target))
        requires
            old(builder).wf(),
            old(self).wf(old(builder).wires().len() as int),
            old(builder).wires().len() + SPONGE_WIDTH * (old(self).pending() + 3) <= usize::MAX,
        ensures
            final(builder).wf(),
            extends(final(builder).wires(), old(builder).wires()),
            final(builder).wires().len() <= old(builder).wires().len() + SPONGE_WIDTH * (old(self).pending() + 3),
            final(self).pending() == 0,
            final(builder).wires().len() == old(builder).wires().len() + challenges_wires(
                old(self).pending(),
                old(self).buffered(),
                3,
            ),
            final(self).buffered() == buffered_after_n(old(self).pending(), old(self).buffered(), 3),
            final(self).wf(final(builder).wires().len() as int),
            r.0.index < final(builder).wires().len(),
            r.1.index < final(builder).wires().len(),
            r.2.index < final(builder).wires().len(),
            challenges(old(self).valued(old(builder).wires()), 3) == (
                final(self).valued(final(builder).wires()),
                seq![
                    final(builder).wires()[r.0.index as int],
                    final(builder).wires()[r.1.index as int],
                    final(builder).wires()[r.2.index as int],
                ],
            ),
    {
        let ghost w0 = builder.wires();
        let a = self.get_challenge(builder);
        let ghost w1 = builder.wires();
        let b = self.get_challenge(builder);
        let ghost w2 = builder.wires();
        let c = self.get_challenge(builder);
        proof {
            lemma_extends_trans(builder.wires(), w2, w1);
            lemma_extends_trans(builder.wires(), w1, w0);
            reveal_with_fuel(challenges, 4);
            reveal_with_fuel(challenges_wires, 4);
            reveal_with_fuel(buffered_after_n, 4);
        }
        (a, b, c)
    }

    pub fn get_n_challenges(&mut self, builder: &mut CircuitBuilder, n: usize) -> (r: Vec<Target>)
        requires
            old(builder).wf(),
            old(self).wf(old(builder).wires().len() as int),
            old(builder).wires().len() + SPONGE_WIDTH * (old(self).pending() + n) <= usize::MAX,
        ensures
            final(builder).wf(),
            extends(final(builder).wires(), old(builder).wires()),
            final(builder).wires().len() <= old(builder).wires().len() + SPONGE_WIDTH * (old(self).pending() + n),
            n > 0 ==> final(self).pending() == 0,
            final(builder).wires().len() == old(builder).wires().len() + challenges_wires(
                old(self).pending(),
                old(self).buffered(),
                n as nat,
            ),
            final(self).buffered() == buffered_after_n(old(self).pending(), old(self).buffered(), n as nat),
            n == 0 ==> *final(self) == *old(self) && *final(builder) == *old(builder),
            r.len() == n,
            final(self).wf(final(builder).wires().len() as int),
            within(r@, final(builder).wires().len() as int),
            challenges(old(self).valued(old(builder).wires()), n as nat) == (
                final(self).valued(final(builder).wires()),
                values_at(r@, final(builder).wires()),
            ),
    {
        let ghost w0 = builder.wires();
        let mut r: Vec<Target> = Vec::new();
        let mut i: usize = 0;
        assert(extends(w0, w0));
        assert(values_at(r@, w0) =~= seq![]);
        while i < n
            invariant
                i <= n,
                builder.wf(),
                extends(builder.wires(), w0),
                self.wf(builder.wires().len() as int),
                within(r@, builder.wires().len() as int),
                w0 == old(builder).wires(),
                builder.wires().len() == w0.len() + challenges_wires(
                    old(self).pending(),
                    old(self).buffered(),
                    i as nat,
                ),
                self.buffered() == buffered_after_n(old(self).pending(), old(self).buffered(), i as nat),
                i == 0 ==> *self == *old(self) && *builder == *old(builder),
                r.len() == i,
                builder.wires().len() <= w0.len() + SPONGE_WIDTH * (old(self).pending() + i),
                i > 0 ==> self.pending() == 0,
                builder.wires().len() + SPONGE_WIDTH * (self.pending() + n - i) <= usize::MAX,
                challenges(old(self).valued(w0), i as nat) == (self.valued(builder.wires()), values_at(r@, builder.wires())),
            decreases n - i,
        {
            let ghost w = builder.wires();
            let ghost p = self.pending();
            assert(p == if i == 0 { old(self).pending() } else { 0 });
            let t = self.get_challenge(builder);
            assert(builder.wires().len() <= w.len() + SPONGE_WIDTH * (p + 1));
            proof {
                let q = old(self).pending() as int;
                let ii = i as int;
                assert(SPONGE_WIDTH * (q + ii + 1) == SPONGE_WIDTH * (q + ii) + SPONGE_WIDTH * 1) by (nonlinear_arith);
                assert(SPONGE_WIDTH * (p + 1) == SPONGE_WIDTH * p + SPONGE_WIDTH * 1) by (nonlinear_arith);
                assert(SPONGE_WIDTH * (q + 0) == SPONGE_WIDTH * q);
                assert(builder.wires().len() <= w0.len() + SPONGE_WIDTH * (q + ii + 1));
            }
            let ghost prev = r@;
            r.push(t);
            proof {
                lemma_values_at_extends(prev, w, builder.wires());
                assert(values_at(r@, builder.wires()) =~= values_at(prev, builder.wires()).push(
                    builder.wires()[t.index as int],
                ));
                lemma_extends_trans(builder.wires(), w, w0);
            }
            i = i + 1;
        }
        r
    }
}

} // verus!
