use vstd::prelude::*;

use crate::field::{vals, FieldElement};
use crate::hash::{permute, permute_spec, SPONGE_WIDTH};
use crate::sponge::lemma_rounds_len;

verus! {

/// A wire of a circuit, by its position in the circuit's wire list.
#[derive(Clone, Copy, PartialEq, Eq, Structural, Debug)]
pub struct Target {
    pub index: usize,
}

/// One step of circuit construction; each step defines the next wires.
pub enum Operation {
    /// One wire holding a constant.
    Constant(FieldElement),
    /// `SPONGE_WIDTH` wires holding the permutation of the given wires.
    Permute(Vec<Target>),
}

/// The values of the wires `ts` under the wire assignment `w`.
pub open spec fn values_at(ts: Seq<Target>, w: Seq<int>) -> Seq<int> {
    ts.map_values(|t: Target| w[t.index as int])
}

/// Every wire of `ts` is among the first `n`.
pub open spec fn within(ts: Seq<Target>, n: int) -> bool {
    forall|i: int| 0 <= i < ts.len() ==> (#[trigger] ts[i]).index < n
}

/// `w2` keeps every value of `w1` and may define more wires.
pub open spec fn extends(w2: Seq<int>, w1: Seq<int>) -> bool {
    w1.len() <= w2.len() && forall|i: int| 0 <= i < w1.len() ==> #[trigger] w2[i] == w1[i]
}

/// The value of every wire defined by the operations `ops`, in order.
pub open spec fn wire_values(ops: Seq<Operation>) -> Seq<int>
    decreases ops.len(),
{
    if ops.len() == 0 {
        seq![]
    } else {
        let w = wire_values(ops.drop_last());
        match ops.last() {
            Operation::Constant(c) => w.push(c.val()),
            Operation::Permute(ins) => w + permute_spec(values_at(ins@, w)),
        }
    }
}

/// Wires that keep their values keep the values read through them.
pub proof fn lemma_values_at_extends(ts: Seq<Target>, w1: Seq<int>, w2: Seq<int>)
    requires
        within(ts, w1.len() as int),
        extends(w2, w1),
    ensures
        values_at(ts, w2) == values_at(ts, w1),
{
    assert(values_at(ts, w2) =~= values_at(ts, w1));
}

pub proof fn lemma_extends_trans(w3: Seq<int>, w2: Seq<int>, w1: Seq<int>)
    requires
        extends(w3, w2),
        extends(w2, w1),
    ensures
        extends(w3, w1),
{
    assert forall|i: int| 0 <= i < w1.len() implies #[trigger] w3[i] == w1[i] by {
        assert(w3[i] == w2[i]);
    }
}

/// Wires appended after `w` read the appended values, and defining them keeps `w`.
pub proof fn lemma_fresh_values(ts: Seq<Target>, w: Seq<int>, xs: Seq<int>)
    requires
        ts.len() == xs.len(),
        forall|i: int| 0 <= i < ts.len() ==> (#[trigger] ts[i]).index == w.len() + i,
    ensures
        values_at(ts, w + xs) == xs,
        within(ts, (w + xs).len() as int),
        extends(w + xs, w),
{
    assert(values_at(ts, w + xs) =~= xs);
}

/// Builds a circuit out of constants and permutation gadgets.
pub struct CircuitBuilder {
    ops: Vec<Operation>,
    num_wires: usize,
}

/// The wire assignment that evaluating a circuit produces.
pub struct Witness {
    values: Vec<FieldElement>,
}

impl CircuitBuilder {
    /// The values that the wires defined so far take when the circuit is evaluated.
    pub closed spec fn wires(&self) -> Seq<int> {
        wire_values(self.ops@)
    }

    /// Each permutation reads `SPONGE_WIDTH` wires defined before it, and the wire count is
    /// kept.
    pub closed spec fn wf(&self) -> bool {
        &&& self.num_wires == wire_values(self.ops@).len()
        &&& forall|k: int|
            0 <= k < self.ops.len() ==> match #[trigger] self.ops@[k] {
                Operation::Constant(_) => true,
                Operation::Permute(ins) => ins.len() == SPONGE_WIDTH && within(
                    ins@,
                    wire_values(self.ops@.take(k)).len() as int,
                ),
            }
    }

    pub fn new() -> (r: CircuitBuilder)
        ensures
            r.wf(),
            r.wires() == Seq::<int>::empty(),
    {
        CircuitBuilder { ops: Vec::new(), num_wires: 0 }
    }

    pub fn num_wires(&self) -> (r: usize)
        requires
            self.wf(),
        ensures
            r == self.wires().len(),
    {
        self.num_wires
    }

    /// A new wire holding `c`.
    pub fn constant(&mut self, c: FieldElement) -> (r: Target)
        requires
            old(self).wf(),
            old(self).wires().len() < usize::MAX,
        ensures
            final(self).wf(),
            final(self).wires() == old(self).wires().push(c.val()),
            r.index == old(self).wires().len(),
    {
        let r = Target { index: self.num_wires };
        let ghost old_ops = self.ops@;
        self.ops.push(Operation::Constant(c));
        assert(self.ops@.drop_last() =~= old_ops);
        assert forall|k: int| 0 <= k < old_ops.len() implies self.ops@.take(k) =~= old_ops.take(k) by {}
        self.num_wires = self.num_wires + 1;
        r
    }

    /// A new wire holding zero.
    pub fn zero(&mut self) -> (r: Target)
        requires
            old(self).wf(),
            old(self).wires().len() < usize::MAX,
        ensures
            final(self).wf(),
            final(self).wires() == old(self).wires().push(0),
            r.index == old(self).wires().len(),
    {
        self.constant(FieldElement::zero())
    }

    /// New wires holding `cs`, one each, in order.
    pub fn constants(&mut self, cs: &[FieldElement]) -> (r: Vec<Target>)
        requires
            old(self).wf(),
            old(self).wires().len() + cs.len() <= usize::MAX,
        ensures
            final(self).wf(),
            final(self).wires() == old(self).wires() + vals(cs@),
            r.len() == cs.len(),
            forall|i: int| 0 <= i < r.len() ==> (#[trigger] r@[i]).index == old(self).wires().len() + i,
    {
        let mut r: Vec<Target> = Vec::new();
        let mut i: usize = 0;
        while i < cs.len()
            invariant
                i <= cs.len(),
                self.wf(),
                old(self).wires().len() + cs.len() <= usize::MAX,
                self.wires() == old(self).wires() + vals(cs@.take(i as int)),
                r.len() == i,
                forall|j: int| 0 <= j < i ==> (#[trigger] r@[j]).index == old(self).wires().len() + j,
            decreases cs.len() - i,
        {
            let t = self.constant(cs[i]);
            r.push(t);
            assert(vals(cs@.take(i as int + 1)) =~= vals(cs@.take(i as int)).push(cs@[i as int].val()));
            i = i + 1;
        }
        assert(cs@.take(cs.len() as int) =~= cs@);
        r
    }

    /// `SPONGE_WIDTH` new wires holding the permutation of the wires `ins`.
    pub fn permute(&mut self, ins: &Vec<Target>) -> (r: Vec<Target>)
        requires
            old(self).wf(),
            ins.len() == SPONGE_WIDTH,
            within(ins@, old(self).wires().len() as int),
            old(self).wires().len() + SPONGE_WIDTH <= usize::MAX,
        ensures
            final(self).wf(),
            final(self).wires() == old(self).wires() + permute_spec(values_at(ins@, old(self).wires())),
            r.len() == SPONGE_WIDTH,
            forall|i: int| 0 <= i < r.len() ==> (#[trigger] r@[i]).index == old(self).wires().len() + i,
    {
        let mut copy: Vec<Target> = Vec::new();
        let mut r: Vec<Target> = Vec::new();
        let mut i: usize = 0;
        while i < SPONGE_WIDTH
            invariant
                i <= SPONGE_WIDTH,
                ins.len() == SPONGE_WIDTH,
                copy@ == ins@.take(i as int),
                r.len() == i,
                self.num_wires + SPONGE_WIDTH <= usize::MAX,
                forall|j: int| 0 <= j < i ==> (#[trigger] r@[j]).index == self.num_wires + j,
            decreases SPONGE_WIDTH - i,
        {
            copy.push(ins[i]);
            assert(ins@.take(i as int).push(ins@[i as int]) =~= ins@.take(i as int + 1));
            r.push(Target { index: self.num_wires + i });
            i = i + 1;
        }
        assert(copy@ =~= ins@);
        let ghost old_ops = self.ops@;
        self.ops.push(Operation::Permute(copy));
        assert(self.ops@.drop_last() =~= old_ops);
        assert(self.ops@.take(old_ops.len() as int) =~= old_ops);
        assert forall|k: int| 0 <= k < old_ops.len() implies self.ops@.take(k) =~= old_ops.take(k) by {}
        proof {
            lemma_rounds_len(values_at(ins@, wire_values(old_ops)), 101);
        }
        self.num_wires = self.num_wires + SPONGE_WIDTH;
        r
    }

    /// Evaluates every wire of the circuit.
    pub fn generate_witness(&self) -> (r: Witness)
        requires
            self.wf(),
        ensures
            r@ == self.wires(),
    {
        let mut values: Vec<FieldElement> = Vec::new();
        let mut k: usize = 0;
        while k < self.ops.len()
            invariant
                self.wf(),
                k <= self.ops.len(),
                vals(values@) == wire_values(self.ops@.take(k as int)),
            decreases self.ops.len() - k,
        {
            let ghost before = values@;
            assert(self.ops@.take(k as int + 1).drop_last() =~= self.ops@.take(k as int));
            match &self.ops[k] {
                Operation::Constant(c) => {
                    values.push(*c);
                    assert(vals(values@) =~= vals(before).push(c.val()));
                },
                Operation::Permute(ins) => {
                    let mut st: Vec<FieldElement> = Vec::new();
                    let mut i: usize = 0;
                    while i < ins.len()
                        invariant
                            i <= ins.len(),
                            ins.len() == SPONGE_WIDTH,
                            within(ins@, values.len() as int),
                            values@ == before,
                            vals(st@) == values_at(ins@.take(i as int), vals(values@)),
                        decreases ins.len() - i,
                    {
                        let t = ins[i];
                        assert(ins@[i as int] == t);
                        let ghost prev = st@;
                        st.push(values[t.index]);
                        assert(vals(st@) =~= vals(prev).push(vals(values@)[t.index as int]));
                        assert(ins@.take(i as int + 1) =~= ins@.take(i as int).push(t));
                        assert(values_at(ins@.take(i as int + 1), vals(values@)) =~= values_at(
                            ins@.take(i as int),
                            vals(values@),
                        ).push(vals(values@)[t.index as int]));
                        i = i + 1;
                    }
                    assert(ins@.take(ins.len() as int) =~= ins@);
                    let out = permute(&st);
                    let mut j: usize = 0;
                    while j < out.len()
                        invariant
                            j <= out.len(),
                            vals(values@) == vals(before) + vals(out@.take(j as int)),
                        decreases out.len() - j,
                    {
                        let ghost prev = values@;
                        values.push(out[j]);
                        assert(vals(values@) =~= vals(prev).push(out@[j as int].val()));
                        assert(vals(out@.take(j as int + 1)) =~= vals(out@.take(j as int)).push(out@[j as int].val()));
                        j = j + 1;
                    }
                    assert(out@.take(out.len() as int) =~= out@);
                },
            }
            k = k + 1;
        }
        assert(self.ops@.take(self.ops.len() as int) =~= self.ops@);
        Witness { values }
    }
}

impl View for Witness {
    type V = Seq<int>;

    closed spec fn view(&self) -> Seq<int> {
        vals(self.values@)
    }
}

impl Witness {
    pub fn get_target(&self, t: Target) -> (r: FieldElement)
        requires
            t.index < self@.len(),
        ensures
            r.val() == self@[t.index as int],
    {
        self.values[t.index]
    }

    pub fn get_targets(&self, ts: &[Target]) -> (r: Vec<FieldElement>)
        requires
            within(ts@, self@.len() as int),
        ensures
            vals(r@) == values_at(ts@, self@),
    {
        let mut r: Vec<FieldElement> = Vec::new();
        let mut i: usize = 0;
        while i < ts.len()
            invariant
                i <= ts.len(),
                within(ts@, self@.len() as int),
                vals(r@) == values_at(ts@.take(i as int), self@),
            decreases ts.len() - i,
        {
            let ghost prev = r@;
            let x = self.get_target(ts[i]);
            r.push(x);
            assert(vals(r@) =~= vals(prev).push(x.val()));
            assert(values_at(ts@.take(i as int + 1), self@) =~= values_at(ts@.take(i as int), self@).push(
                self@[ts@[i as int].index as int],
            ));
            i = i + 1;
        }
        assert(ts@.take(ts.len() as int) =~= ts@);
        r
    }
}

} // verus!
