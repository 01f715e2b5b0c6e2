use vstd::prelude::*;

use crate::field::{take_prefix, vals, FieldElement};
use crate::hash::{permute, SPONGE_RATE, SPONGE_WIDTH};
use crate::sponge::{
    absorb, absorb_chunks, model_wf, challenge_step, challenges, initial_model, lemma_challenge_step_wf,
    lemma_challenges_split, observe_all, observe_step, overwrite, SpongeModel,
};

verus! {

/// A digest of four field elements.
#[derive(Clone, Copy, PartialEq, Eq, Debug)]
pub struct Hash {
    pub elements: [FieldElement; 4],
}

/// Degree of the extension field over the base field.
pub const EXTENSION_DEGREE: usize = 2;

/// An element of the degree-two extension field, by its coefficients over the base field.
#[derive(Clone, Copy, PartialEq, Eq, Debug)]
pub struct ExtensionElement {
    pub coeffs: [FieldElement; 2],
}

/// Observes prover messages, and generates challenges by hashing the transcript.
///
/// This is a duplex sponge in overwrite mode that may absorb any number of inputs and squeeze
/// any number of outputs per permutation: it behaves as a duplex sponge whose inputs are
/// sometimes zero and whose outputs are sometimes ignored.
#[derive(Clone)]
pub struct Challenger {
    sponge_state: Vec<FieldElement>,
    input_buffer: Vec<FieldElement>,
    output_buffer: Vec<FieldElement>,
}

impl View for Challenger {
    type V = SpongeModel;

    closed spec fn view(&self) -> SpongeModel {
        SpongeModel {
            state: vals(self.sponge_state@),
            inputs: vals(self.input_buffer@),
            outputs: vals(self.output_buffer@),
        }
    }
}

impl Challenger {
    /// The sponge state has the permutation's width.
    pub closed spec fn wf(&self) -> bool {
        self.sponge_state.len() == SPONGE_WIDTH
    }

    /// A well-formed transcript's state has the sponge's width.
    pub proof fn lemma_wf(&self)
        requires
            self.wf(),
        ensures
            model_wf(self@),
    {
    }

    pub fn new() -> (r: Challenger)
        ensures
            r.wf(),
            r@ == initial_model(),
    {
        let mut state: Vec<FieldElement> = Vec::new();
        let mut i: usize = 0;
        while i < SPONGE_WIDTH
            invariant
                i <= SPONGE_WIDTH,
                state.len() == i,
                forall|j: int| 0 <= j < i ==> #[trigger] state@[j].val() == 0,
            decreases SPONGE_WIDTH - i,
        {
            state.push(FieldElement::zero());
            i = i + 1;
        }
        let r = Challenger { sponge_state: state, input_buffer: Vec::new(), output_buffer: Vec::new() };
        assert(r@.state =~= initial_model().state);
        assert(r@.inputs =~= seq![]);
        assert(r@.outputs =~= seq![]);
        r
    }

    pub fn observe_element(&mut self, element: FieldElement)
        requires
            old(self).wf(),
        ensures
            final(self).wf(),
            final(self)@ == observe_step(old(self)@, element.val()),
    {
        // Any buffered outputs are now invalid, since they wouldn't reflect this input.
        self.output_buffer.clear();
        self.input_buffer.push(element);
        assert(vals(self.input_buffer@) =~= vals(old(self).input_buffer@).push(element.val()));
        assert(vals(self.output_buffer@) =~= seq![]);
    }

    pub fn observe_elements(&mut self, elements: &[FieldElement])
        requires
            old(self).wf(),
        ensures
            final(self).wf(),
            final(self)@ == observe_all(old(self)@, vals(elements@)),
    {
        let mut i: usize = 0;
        while i < elements.len()
            invariant
                i <= elements.len(),
                self.wf(),
                self@ == observe_all(old(self)@, vals(elements@.take(i as int))),
            decreases elements.len() - i,
        {
            self.observe_element(elements[i]);
            assert(vals(elements@.take(i as int + 1)).drop_last() =~= vals(elements@.take(i as int)));
            i = i + 1;
        }
        assert(elements@.take(elements.len() as int) =~= elements@);
    }

    pub fn observe_extension_element(&mut self, element: &ExtensionElement)
        requires
            old(self).wf(),
        ensures
            final(self).wf(),
            final(self)@ == observe_step(
                observe_step(old(self)@, element.coeffs[0].val()),
                element.coeffs[1].val(),
            ),
    {
        self.observe_element(element.coeffs[0]);
        self.observe_element(element.coeffs[1]);
    }

    pub fn observe_extension_elements(&mut self, elements: &[ExtensionElement])
        requires
            old(self).wf(),
        ensures
            final(self).wf(),
            final(self)@ == observe_all(old(self)@, ext_coeff_vals(elements@)),
    {
        let mut i: usize = 0;
        while i < elements.len()
            invariant
                i <= elements.len(),
                self.wf(),
                self@ == observe_all(old(self)@, ext_coeff_vals(elements@.take(i as int))),
            decreases elements.len() - i,
        {
            let ghost before = self@;
            self.observe_extension_element(&elements[i]);
            let ghost xs = ext_coeff_vals(elements@.take(i as int + 1));
            assert(elements@.take(i as int + 1).drop_last() =~= elements@.take(i as int));
            assert(xs.drop_last().drop_last() =~= ext_coeff_vals(elements@.take(i as int)));
            assert(xs.drop_last().last() == elements@[i as int].coeffs[0].val());
            assert(xs.last() == elements@[i as int].coeffs[1].val());
            assert(observe_all(old(self)@, xs) == observe_step(
                observe_all(old(self)@, xs.drop_last()),
                xs.last(),
            ));
            assert(observe_all(old(self)@, xs.drop_last()) == observe_step(
                observe_all(old(self)@, xs.drop_last().drop_last()),
                xs.drop_last().last(),
            ));
            i = i + 1;
        }
        assert(elements@.take(elements.len() as int) =~= elements@);
    }

    pub fn observe_hash(&mut self, hash: &Hash)
        requires
            old(self).wf(),
        ensures
            final(self).wf(),
            final(self)@ == observe_all(old(self)@, vals(hash.elements@)),
    {
        self.observe_elements(hash.elements.as_slice())
    }

    /// Absorb any buffered inputs. After calling this, the input buffer will be empty.
    fn absorb_buffered_inputs(&mut self)
        requires
            old(self).wf(),
        ensures
            final(self).wf(),
            final(self)@ == absorb(old(self)@),
    {
        if self.input_buffer.len() == 0 {
            return;
        }
        let n = self.input_buffer.len();
        let ghost ins = vals(self.input_buffer@);
        let mut start: usize = 0;
        assert(ins.skip(0) =~= ins);
        while start < n
            invariant
                start <= n,
                n == self.input_buffer.len(),
                self.wf(),
                self.input_buffer@ == old(self).input_buffer@,
                ins == vals(self.input_buffer@),
                absorb_chunks(vals(self.sponge_state@), ins.skip(start as int))
                    == absorb_chunks(vals(old(self).sponge_state@), ins),
            decreases n - start,
        {
            let len: usize = if n - start < SPONGE_RATE { n - start } else { SPONGE_RATE };
            let ghost before = vals(self.sponge_state@);
            let mut k: usize = 0;
            // Overwrite the first `len` elements with the inputs, rather than adding them in.
            while k < len
                invariant
                    k <= len,
                    len <= SPONGE_RATE,
                    start + len <= n,
                    n == self.input_buffer.len(),
                    self.wf(),
                    self.input_buffer@ == old(self).input_buffer@,
                    before.len() == SPONGE_WIDTH,
                    ins == vals(self.input_buffer@),
                    vals(self.sponge_state@) == overwrite(before, ins.subrange(start as int, start + k)),
                decreases len - k,
            {
                let ghost prev = vals(self.sponge_state@);
                let x = self.input_buffer[start + k];
                assert(x.val() == ins[start + k]);
                self.sponge_state.set(k, x);
                assert(vals(self.sponge_state@) =~= prev.update(k as int, x.val()));
                assert(vals(self.sponge_state@) =~= overwrite(before, ins.subrange(start as int, start + k + 1)));
                k = k + 1;
            }
            let ghost rest = ins.skip(start as int);
            assert(rest.take(len as int) =~= ins.subrange(start as int, start + len));
            assert(rest.skip(len as int) =~= ins.skip(start + len));
            self.sponge_state = permute(&self.sponge_state);
            start = start + len;
        }
        assert(ins.skip(n as int) =~= seq![]);
        self.output_buffer = take_prefix(&self.sponge_state, SPONGE_RATE);
        self.input_buffer.clear();
        assert(vals(self.input_buffer@) =~= seq![]);
        assert(vals(self.output_buffer@) =~= vals(self.sponge_state@).take(SPONGE_RATE as int));
    }

    pub fn get_challenge(&mut self) -> (r: FieldElement)
        requires
            old(self).wf(),
        ensures
            final(self).wf(),
            (final(self)@, r.val()) == challenge_step(old(self)@),
    {
        proof {
            lemma_challenge_step_wf(old(self)@);
        }
        self.absorb_buffered_inputs();
        if self.output_buffer.len() == 0 {
            // Evaluate the permutation to produce `SPONGE_RATE` new outputs.
            self.sponge_state = permute(&self.sponge_state);
            self.output_buffer = take_prefix(&self.sponge_state, SPONGE_RATE);
            assert(vals(self.output_buffer@) =~= vals(self.sponge_state@).take(SPONGE_RATE as int));
        }
        let ghost full = self.output_buffer@;
        let r = self.output_buffer.pop().unwrap();
        assert(vals(self.output_buffer@) =~= vals(full).drop_last());
        r
    }

    pub fn get_2_challenges(&mut self) -> (r: (FieldElement, FieldElement))
        requires
            old(self).wf(),
        ensures
            final(self).wf(),
            challenges(old(self)@, 2) == (final(self)@, seq![r.0.val(), r.1.val()]),
    {
        let a = self.get_challenge();
        let b = self.get_challenge();
        proof {
            reveal_with_fuel(challenges, 3);
        }
        (a, b)
    }

    pub fn get_3_challenges(&mut self) -> (r: (FieldElement, FieldElement, FieldElement))
        requires
            old(self).wf(),
        ensures
            final(self).wf(),
            challenges(old(self)@, 3) == (final(self)@, seq![r.0.val(), r.1.val(), r.2.val()]),
    {
        let a = self.get_challenge();
        let b = self.get_challenge();
        let c = self.get_challenge();
        proof {
            reveal_with_fuel(challenges, 4);
        }
        (a, b, c)
    }

    pub fn get_n_challenges(&mut self, n: usize) -> (r: Vec<FieldElement>)
        requires
            old(self).wf(),
        ensures
            final(self).wf(),
            challenges(old(self)@, n as nat) == (final(self)@, vals(r@)),
    {
        let mut r: Vec<FieldElement> = Vec::new();
        let mut i: usize = 0;
        while i < n
            invariant
                i <= n,
                self.wf(),
                challenges(old(self)@, i as nat) == (self@, vals(r@)),
            decreases n - i,
        {
            let x = self.get_challenge();
            let ghost prev = r@;
            r.push(x);
            assert(vals(r@) =~= vals(prev).push(x.val()));
            i = i + 1;
        }
        r
    }

    pub fn get_hash(&mut self) -> (r: Hash)
        requires
            old(self).wf(),
        ensures
            final(self).wf(),
            challenges(old(self)@, 4) == (final(self)@, vals(r.elements@)),
    {
        let a = self.get_challenge();
        let b = self.get_challenge();
        let c = self.get_challenge();
        let d = self.get_challenge();
        let r = Hash { elements: [a, b, c, d] };
        proof {
            reveal_with_fuel(challenges, 5);
            assert(vals(r.elements@) =~= seq![a.val(), b.val(), c.val(), d.val()]);
        }
        r
    }

    pub fn get_extension_challenge(&mut self) -> (r: ExtensionElement)
        requires
            old(self).wf(),
        ensures
            final(self).wf(),
            challenges(old(self)@, 2) == (final(self)@, vals(r.coeffs@)),
    {
        let (a, b) = self.get_2_challenges();
        let r = ExtensionElement { coeffs: [a, b] };
        assert(vals(r.coeffs@) =~= seq![a.val(), b.val()]);
        r
    }

    pub fn get_n_extension_challenges(&mut self, n: usize) -> (r: Vec<ExtensionElement>)
        requires
            old(self).wf(),
        ensures
            final(self).wf(),
            challenges(old(self)@, 2 * n as nat) == (final(self)@, ext_coeff_vals(r@)),
    {
        let mut r: Vec<ExtensionElement> = Vec::new();
        let mut i: usize = 0;
        while i < n
            invariant
                i <= n,
                self.wf(),
                challenges(old(self)@, 2 * i as nat) == (self@, ext_coeff_vals(r@)),
            decreases n - i,
        {
            let ghost before = self@;
            let x = self.get_extension_challenge();
            let ghost prev = r@;
            r.push(x);
            proof {
                lemma_challenges_split(old(self)@, 2 * i as nat, 2);
                assert(r@.drop_last() =~= prev);
                assert(ext_coeff_vals(r@) =~= ext_coeff_vals(prev) + vals(x.coeffs@));
                assert(2 * i as nat + 2 == 2 * (i + 1) as nat);
            }
            i = i + 1;
        }
        r
    }
}

impl Default for Challenger {
    fn default() -> (r: Challenger)
        ensures
            r.wf(),
            r@ == initial_model(),
    {
        Challenger::new()
    }
}

/// The base-field coefficients of a sequence of extension elements, in order.
pub open spec fn ext_coeff_vals(es: Seq<ExtensionElement>) -> Seq<int>
    decreases es.len(),
{
    if es.len() == 0 {
        seq![]
    } else {
        ext_coeff_vals(es.drop_last()) + seq![es.last().coeffs[0].val(), es.last().coeffs[1].val()]
    }
}

} // verus!
