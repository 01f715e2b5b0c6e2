use vstd::prelude::*;

use crate::hash::{permute_spec, rounds_spec, SPONGE_RATE, SPONGE_WIDTH};

verus! {

/// The abstract state of a Fiat-Shamir transcript: the permutation state, the inputs observed
/// since the last absorption, and the outputs not yet handed out.
pub struct SpongeModel {
    pub state: Seq<int>,
    pub inputs: Seq<int>,
    pub outputs: Seq<int>,
}

/// The state of a fresh transcript.
pub open spec fn initial_model() -> SpongeModel {
    SpongeModel { state: Seq::new(SPONGE_WIDTH as nat, |i: int| 0), inputs: seq![], outputs: seq![] }
}

/// Observing one element drops the buffered outputs and queues the element.
pub open spec fn observe_step(m: SpongeModel, x: int) -> SpongeModel {
    SpongeModel { state: m.state, inputs: m.inputs.push(x), outputs: seq![] }
}

/// Observing each element of `xs`, in order.
pub open spec fn observe_all(m: SpongeModel, xs: Seq<int>) -> SpongeModel
    decreases xs.len(),
{
    if xs.len() == 0 {
        m
    } else {
        observe_step(observe_all(m, xs.drop_last()), xs.last())
    }
}

/// Overwrite mode: the first `chunk.len()` elements of the state are replaced by the chunk.
pub open spec fn overwrite(state: Seq<int>, chunk: Seq<int>) -> Seq<int> {
    Seq::new(state.len(), |i: int| if i < chunk.len() { chunk[i] } else { state[i] })
}

/// Absorbs `inputs` in chunks of `SPONGE_RATE`, permuting after each chunk.
pub open spec fn absorb_chunks(state: Seq<int>, inputs: Seq<int>) -> Seq<int>
    decreases inputs.len(),
{
    if inputs.len() == 0 {
        state
    } else {
        let n: int = if inputs.len() < SPONGE_RATE { inputs.len() as int } else { SPONGE_RATE as int };
        absorb_chunks(permute_spec(overwrite(state, inputs.take(n))), inputs.skip(n))
    }
}

/// Absorbs the pending inputs, if any; the new outputs are the rate part of the state.
pub open spec fn absorb(m: SpongeModel) -> SpongeModel {
    if m.inputs.len() == 0 {
        m
    } else {
        let s = absorb_chunks(m.state, m.inputs);
        SpongeModel { state: s, inputs: seq![], outputs: s.take(SPONGE_RATE as int) }
    }
}

/// Refills an empty output buffer with one more permutation.
pub open spec fn squeeze(m: SpongeModel) -> SpongeModel {
    if m.outputs.len() == 0 {
        let s = permute_spec(m.state);
        SpongeModel { state: s, inputs: m.inputs, outputs: s.take(SPONGE_RATE as int) }
    } else {
        m
    }
}

/// One challenge: absorb, squeeze if needed, and hand out the last buffered output.
pub open spec fn challenge_step(m: SpongeModel) -> (SpongeModel, int) {
    let m2 = squeeze(absorb(m));
    (SpongeModel { state: m2.state, inputs: m2.inputs, outputs: m2.outputs.drop_last() }, m2.outputs.last())
}

/// `n` challenges in a row: the final state and the challenges in the order they were drawn.
pub open spec fn challenges(m: SpongeModel, n: nat) -> (SpongeModel, Seq<int>)
    decreases n,
{
    if n == 0 {
        (m, seq![])
    } else {
        let (m1, xs) = challenges(m, (n - 1) as nat);
        let (m2, x) = challenge_step(m1);
        (m2, xs.push(x))
    }
}

/// The transcript's state has the sponge's width.
pub open spec fn model_wf(m: SpongeModel) -> bool {
    m.state.len() == SPONGE_WIDTH
}

/// One call made on a transcript.
pub enum TranscriptCall {
    Observe(int),
    Challenge,
}

/// The state after `calls` and the challenges they drew, in order.
pub open spec fn replay(m: SpongeModel, calls: Seq<TranscriptCall>) -> (SpongeModel, Seq<int>)
    decreases calls.len(),
{
    if calls.len() == 0 {
        (m, seq![])
    } else {
        let (m1, xs) = replay(m, calls.drop_last());
        match calls.last() {
            TranscriptCall::Observe(x) => (observe_step(m1, x), xs),
            TranscriptCall::Challenge => {
                let (m2, c) = challenge_step(m1);
                (m2, xs.push(c))
            },
        }
    }
}

/// Determinism: two transcripts in the same state that receive the same calls end in the same
/// state and draw the same challenges.
pub proof fn lemma_replay_deterministic(m1: SpongeModel, m2: SpongeModel, calls: Seq<TranscriptCall>)
    requires
        m1 == m2,
    ensures
        replay(m1, calls) == replay(m2, calls),
{
}

/// Replaying calls in two parts is replaying them at once: the challenges drawn depend only on
/// the calls made, not on how they are grouped.
pub proof fn lemma_replay_append(m: SpongeModel, a: Seq<TranscriptCall>, b: Seq<TranscriptCall>)
    ensures
        replay(replay(m, a).0, b).0 == replay(m, a + b).0,
        replay(m, a).1 + replay(replay(m, a).0, b).1 == replay(m, a + b).1,
    decreases b.len(),
{
    if b.len() == 0 {
        assert(a + b =~= a);
        assert(replay(m, a).1 + seq![] =~= replay(m, a).1);
    } else {
        lemma_replay_append(m, a, b.drop_last());
        assert((a + b).drop_last() =~= a + b.drop_last());
        let (m1, xs) = replay(replay(m, a).0, b.drop_last());
        match b.last() {
            TranscriptCall::Observe(x) => {},
            TranscriptCall::Challenge => {
                let (m2, c) = challenge_step(m1);
                assert(replay(m, a).1 + xs.push(c) =~= (replay(m, a).1 + xs).push(c));
            },
        }
    }
}

/// Observing a list of elements in two parts is observing them at once.
pub proof fn lemma_observe_all_append(m: SpongeModel, xs: Seq<int>, ys: Seq<int>)
    ensures
        observe_all(observe_all(m, xs), ys) == observe_all(m, xs + ys),
    decreases ys.len(),
{
    if ys.len() == 0 {
        assert(xs + ys =~= xs);
    } else {
        lemma_observe_all_append(m, xs, ys.drop_last());
        assert((xs + ys).drop_last() =~= xs + ys.drop_last());
    }
}

pub proof fn lemma_rounds_len(s: Seq<int>, n: nat)
    ensures
        rounds_spec(s, n).len() == s.len(),
    decreases n,
{
    if n > 0 {
        lemma_rounds_len(s, (n - 1) as nat);
    }
}

pub proof fn lemma_absorb_chunks_len(s: Seq<int>, inputs: Seq<int>)
    ensures
        absorb_chunks(s, inputs).len() == s.len(),
    decreases inputs.len(),
{
    if inputs.len() > 0 {
        let n: int = if inputs.len() < SPONGE_RATE { inputs.len() as int } else { SPONGE_RATE as int };
        let t = overwrite(s, inputs.take(n));
        lemma_rounds_len(t, 101);
        lemma_absorb_chunks_len(permute_spec(t), inputs.skip(n));
    }
}

/// A challenge step keeps the state well formed and always has an output to hand out.
pub proof fn lemma_challenge_step_wf(m: SpongeModel)
    requires
        model_wf(m),
    ensures
        model_wf(challenge_step(m).0),
        squeeze(absorb(m)).outputs.len() > 0,
{
    lemma_absorb_chunks_len(m.state, m.inputs);
    lemma_rounds_len(absorb(m).state, 101);
}

pub proof fn lemma_challenges_wf(m: SpongeModel, n: nat)
    requires
        model_wf(m),
    ensures
        model_wf(challenges(m, n).0),
        challenges(m, n).1.len() == n,
    decreases n,
{
    if n > 0 {
        lemma_challenges_wf(m, (n - 1) as nat);
        lemma_challenge_step_wf(challenges(m, (n - 1) as nat).0);
    }
}

/// Drawing `a` challenges and then `b` more is drawing `a + b` challenges.
pub proof fn lemma_challenges_split(m: SpongeModel, a: nat, b: nat)
    ensures
        challenges(challenges(m, a).0, b).0 == challenges(m, a + b).0,
        challenges(m, a).1 + challenges(challenges(m, a).0, b).1 == challenges(m, a + b).1,
    decreases b,
{
    if b == 0 {
        assert(challenges(m, a).1 + seq![] =~= challenges(m, a).1);
    } else {
        lemma_challenges_split(m, a, (b - 1) as nat);
        let (m1, xs) = challenges(challenges(m, a).0, (b - 1) as nat);
        let (m2, x) = challenge_step(m1);
        assert(challenges(m, a).1 + xs.push(x) =~= (challenges(m, a).1 + xs).push(x));
        assert((a + b - 1) as nat == (a + (b - 1)) as nat);
    }
}

} // verus!
