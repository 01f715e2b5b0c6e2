use vstd::prelude::*;

use crate::field::{cube_spec, take_prefix, vals, FieldElement, ORDER};

verus! {

/// Number of field elements in the sponge state.
pub const SPONGE_WIDTH: usize = 12;

/// Number of state elements that absorb inputs and yield outputs.
pub const SPONGE_RATE: usize = 8;

/// Number of rounds of the permutation.
pub const NUM_ROUNDS: usize = 101;

/// Multiplier from which the round constants are derived.
pub const ROUND_CONSTANT_MULTIPLIER: u64 = 0x9E37_79B9_7F4A_7C15;

/// The constant added in round `r`: `(r + 1) * ROUND_CONSTANT_MULTIPLIER` in the field.
pub open spec fn round_constant_spec(r: int) -> int {
    ((r + 1) % ORDER as int) * (ROUND_CONSTANT_MULTIPLIER as int % ORDER as int) % ORDER as int
}

/// One round of the unbalanced Feistel permutation: the cube of the active element plus the
/// round constant is added to every other element.
pub open spec fn round_spec(s: Seq<int>, r: int) -> Seq<int> {
    let active = r % SPONGE_WIDTH as int;
    let f = cube_spec((s[active] + round_constant_spec(r)) % ORDER as int);
    Seq::new(s.len(), |i: int| if i == active { s[i] } else { (s[i] + f) % ORDER as int })
}

/// The first `n` rounds applied to `s`.
pub open spec fn rounds_spec(s: Seq<int>, n: nat) -> Seq<int>
    decreases n,
{
    if n == 0 {
        s
    } else {
        round_spec(rounds_spec(s, (n - 1) as nat), n - 1)
    }
}

/// The permutation of the sponge state.
///
/// This is a stand-in with made-up round constants, not a vetted cryptographic permutation:
/// the transcript and the accumulator need only some fixed public permutation, and a vetted
/// one can take its place without changing any other contract.
pub open spec fn permute_spec(s: Seq<int>) -> Seq<int> {
    rounds_spec(s, NUM_ROUNDS as nat)
}

fn round_constant(r: usize) -> (c: FieldElement)
    requires
        r < NUM_ROUNDS,
    ensures
        c.val() == round_constant_spec(r as int),
{
    let k = FieldElement::from_u64(r as u64 + 1);
    k.mul(FieldElement::from_u64(ROUND_CONSTANT_MULTIPLIER))
}

/// Applies the permutation to a state of `SPONGE_WIDTH` elements (see `permute_spec`: a
/// stand-in, not a vetted primitive).
pub fn permute(state: &Vec<FieldElement>) -> (r: Vec<FieldElement>)
    requires
        state.len() == SPONGE_WIDTH,
    ensures
        r.len() == SPONGE_WIDTH,
        vals(r@) == permute_spec(vals(state@)),
{
    let mut s = take_prefix(state, SPONGE_WIDTH);
    assert(s@ =~= state@);
    let mut r: usize = 0;
    while r < NUM_ROUNDS
        invariant
            r <= NUM_ROUNDS,
            s.len() == SPONGE_WIDTH,
            vals(s@) == rounds_spec(vals(state@), r as nat),
        decreases NUM_ROUNDS - r,
    {
        let ghost before = vals(s@);
        let active: usize = r % SPONGE_WIDTH;
        let f = s[active].add(round_constant(r)).cube();
        let mut i: usize = 0;
        while i < SPONGE_WIDTH
            invariant
                i <= SPONGE_WIDTH,
                active < SPONGE_WIDTH,
                s.len() == SPONGE_WIDTH,
                before.len() == SPONGE_WIDTH,
                f.val() == cube_spec((before[active as int] + round_constant_spec(r as int)) % ORDER as int),
                forall|j: int|
                    0 <= j < SPONGE_WIDTH ==> #[trigger] vals(s@)[j] == if j < i && j != active {
                        (before[j] + f.val()) % ORDER as int
                    } else {
                        before[j]
                    },
            decreases SPONGE_WIDTH - i,
        {
            if i != active {
                let ghost prev = s@;
                assert(vals(prev)[i as int] == before[i as int]);
                assert(prev[i as int].val() == vals(prev)[i as int]);
                let v = s[i].add(f);
                s.set(i, v);
                assert(vals(s@) =~= vals(prev).update(i as int, v.val()));
            }
            i = i + 1;
        }
        assert(vals(s@) =~= round_spec(before, r as int));
        r = r + 1;
    }
    s
}

} // verus!
