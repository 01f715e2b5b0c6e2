use plonky_transcript::challenger::{Challenger, ExtensionElement};
use plonky_transcript::circuit::{CircuitBuilder, Target};
use plonky_transcript::field::{FieldElement, ORDER};
use plonky_transcript::hash::{permute, SPONGE_RATE, SPONGE_WIDTH};
use plonky_transcript::recursive_challenger::{HashTarget, RecursiveChallenger};

/// A small xorshift generator, so that the tests need no outside crate for randomness.
struct Rng(u64);

impl Rng {
    fn next_u64(&mut self) -> u64 {
        let mut x = self.0;
        x ^= x << 13;
        x ^= x >> 7;
        x ^= x << 17;
        self.0 = x;
        x
    }

    fn rand(&mut self) -> FieldElement {
        FieldElement::from_u64(self.next_u64())
    }

    fn rand_vec(&mut self, n: usize) -> Vec<FieldElement> {
        (0..n).map(|_| self.rand()).collect()
    }
}

fn fe(x: u64) -> FieldElement {
    FieldElement::from_u64(x)
}

#[test]
fn no_duplicate_challenges() {
    let mut rng = Rng(0x1234_5678_9abc_def1);
    let mut challenger = Challenger::new();
    let mut challenges = Vec::new();

    for i in 1..10 {
        challenges.extend(challenger.get_n_challenges(i));
        challenger.observe_element(rng.rand());
    }

    let dedup_challenges = {
        let mut dedup = challenges.clone();
        dedup.dedup();
        dedup
    };
    assert_eq!(dedup_challenges, challenges);
}

/// Tests for consistency between `Challenger` and `RecursiveChallenger`.
#[test]
fn test_consistency() {
    let mut rng = Rng(0xdead_beef_cafe_f00d);

    // These are mostly arbitrary, but we want to test some rounds with enough inputs/outputs to
    // trigger multiple absorptions/squeezes.
    let num_inputs_per_round = vec![2, 5, 3];
    let num_outputs_per_round = vec![1, 2, 4];

    let inputs_per_round: Vec<Vec<FieldElement>> =
        num_inputs_per_round.iter().map(|&n| rng.rand_vec(n)).collect();

    let mut challenger = Challenger::new();
    let mut outputs_per_round: Vec<Vec<FieldElement>> = Vec::new();
    for (r, inputs) in inputs_per_round.iter().enumerate() {
        challenger.observe_elements(inputs);
        outputs_per_round.push(challenger.get_n_challenges(num_outputs_per_round[r]));
    }

    let mut builder = CircuitBuilder::new();
    let mut recursive_challenger = RecursiveChallenger::new(&mut builder);
    let mut recursive_outputs_per_round: Vec<Vec<Target>> = Vec::new();
    for (r, inputs) in inputs_per_round.iter().enumerate() {
        let targets = builder.constants(inputs);
        recursive_challenger.observe_elements(&targets);
        recursive_outputs_per_round
            .push(recursive_challenger.get_n_challenges(&mut builder, num_outputs_per_round[r]));
    }
    let witness = builder.generate_witness();
    let recursive_output_values_per_round: Vec<Vec<FieldElement>> = recursive_outputs_per_round
        .iter()
        .map(|outputs| witness.get_targets(outputs))
        .collect();

    assert_eq!(outputs_per_round, recursive_output_values_per_round);
}

#[test]
fn field_arithmetic_reduces_modulo_order() {
    assert_eq!(fe(ORDER).to_canonical_u64(), 0);
    assert_eq!(fe(ORDER + 5).to_canonical_u64(), 5);
    let minus_one = fe(ORDER - 1);
    assert_eq!(minus_one.add(fe(2)).to_canonical_u64(), 1);
    assert_eq!(minus_one.mul(minus_one).to_canonical_u64(), 1);
    assert_eq!(fe(3).mul(fe(7)).to_canonical_u64(), 21);
    assert_eq!(fe(5).cube().to_canonical_u64(), 125);
    assert_eq!(minus_one.cube().to_canonical_u64(), ORDER - 1);
    assert_eq!(FieldElement::zero().to_canonical_u64(), 0);
}

#[test]
fn permutation_is_deterministic_and_mixes() {
    let zeros = vec![FieldElement::zero(); SPONGE_WIDTH];
    let a = permute(&zeros);
    let b = permute(&zeros);
    assert_eq!(a.len(), SPONGE_WIDTH);
    assert_eq!(a, b);
    assert_ne!(a, zeros);
    let mut one = zeros.clone();
    one[0] = fe(1);
    assert_ne!(permute(&one), a);
}

#[test]
fn fresh_challenge_is_last_rate_element_of_permuted_zero_state() {
    let zeros = vec![FieldElement::zero(); SPONGE_WIDTH];
    let state = permute(&zeros);
    let mut challenger = Challenger::new();
    let got = challenger.get_n_challenges(SPONGE_RATE);
    let expected: Vec<FieldElement> = state[0..SPONGE_RATE].iter().rev().copied().collect();
    assert_eq!(got, expected);
    // The next challenge needs a fresh permutation of the state.
    let next = permute(&state);
    assert_eq!(challenger.get_challenge(), next[SPONGE_RATE - 1]);
}

#[test]
fn absorption_overwrites_rate_elements() {
    let inputs = vec![fe(1), fe(2), fe(3)];
    let mut state = vec![FieldElement::zero(); SPONGE_WIDTH];
    state[0] = fe(1);
    state[1] = fe(2);
    state[2] = fe(3);
    let state = permute(&state);
    let mut challenger = Challenger::new();
    challenger.observe_elements(&inputs);
    assert_eq!(challenger.get_challenge(), state[SPONGE_RATE - 1]);
    assert_eq!(challenger.get_challenge(), state[SPONGE_RATE - 2]);
}

#[test]
fn long_input_is_absorbed_in_rate_sized_chunks() {
    let inputs: Vec<FieldElement> = (1..=10).map(fe).collect();
    let mut state = vec![FieldElement::zero(); SPONGE_WIDTH];
    for i in 0..SPONGE_RATE {
        state[i] = inputs[i];
    }
    let mut state = permute(&state);
    state[0] = inputs[8];
    state[1] = inputs[9];
    let state = permute(&state);
    let mut challenger = Challenger::new();
    challenger.observe_elements(&inputs);
    assert_eq!(challenger.get_challenge(), state[SPONGE_RATE - 1]);
}

#[test]
fn observing_discards_buffered_challenges() {
    let mut a = Challenger::new();
    let _ = a.get_challenge();
    a.observe_element(fe(9));
    // The seven outputs still buffered are dropped: the next challenge absorbs the input.
    let mut state = permute(&vec![FieldElement::zero(); SPONGE_WIDTH]);
    state[0] = fe(9);
    let state = permute(&state);
    assert_eq!(a.get_challenge(), state[SPONGE_RATE - 1]);
}

#[test]
fn same_calls_give_same_challenges() {
    let run = || {
        let mut c = Challenger::default();
        c.observe_elements(&[fe(4), fe(5)]);
        let mut out = c.get_n_challenges(3);
        c.observe_element(fe(6));
        out.extend(c.get_n_challenges(11));
        out
    };
    assert_eq!(run(), run());
}

#[test]
fn grouping_of_observations_does_not_matter() {
    let mut a = Challenger::new();
    a.observe_elements(&[fe(1), fe(2), fe(3)]);
    let mut b = Challenger::new();
    b.observe_element(fe(1));
    b.observe_elements(&[fe(2), fe(3)]);
    assert_eq!(a.get_n_challenges(5), b.get_n_challenges(5));
}

#[test]
fn batch_of_forty_five_challenges_is_pairwise_distinct() {
    let mut rng = Rng(42);
    let mut challenger = Challenger::new();
    let mut all = Vec::new();
    for i in 1..10 {
        challenger.observe_element(rng.rand());
        all.extend(challenger.get_n_challenges(i));
    }
    assert_eq!(all.len(), 45);
    for i in 0..all.len() {
        for j in (i + 1)..all.len() {
            assert_ne!(all[i], all[j]);
        }
    }
}

#[test]
fn helpers_agree_with_repeated_challenges() {
    let mut a = Challenger::new();
    a.observe_element(fe(77));
    let (x, y) = a.get_2_challenges();
    let (z, u, v) = a.get_3_challenges();
    let h = a.get_hash();
    let e = a.get_extension_challenge();
    let es = a.get_n_extension_challenges(2);

    let mut b = Challenger::new();
    b.observe_element(fe(77));
    let all = b.get_n_challenges(2 + 3 + 4 + 2 + 4);
    assert_eq!(vec![x, y, z, u, v], all[0..5].to_vec());
    assert_eq!(h.elements.to_vec(), all[5..9].to_vec());
    assert_eq!(e.coeffs.to_vec(), all[9..11].to_vec());
    assert_eq!(es[0].coeffs.to_vec(), all[11..13].to_vec());
    assert_eq!(es[1].coeffs.to_vec(), all[13..15].to_vec());
}

#[test]
fn extension_and_hash_observation_decompose_into_elements() {
    let e = ExtensionElement { coeffs: [fe(10), fe(11)] };
    let h = plonky_transcript::challenger::Hash { elements: [fe(1), fe(2), fe(3), fe(4)] };
    let mut a = Challenger::new();
    a.observe_extension_element(&e);
    a.observe_extension_elements(&[e, e]);
    a.observe_hash(&h);
    let mut b = Challenger::new();
    b.observe_elements(&[fe(10), fe(11), fe(10), fe(11), fe(10), fe(11), fe(1), fe(2), fe(3), fe(4)]);
    assert_eq!(a.get_n_challenges(9), b.get_n_challenges(9));
}

#[test]
fn circuit_transcript_matches_native_with_hash_and_helpers() {
    let h = plonky_transcript::challenger::Hash { elements: [fe(5), fe(6), fe(7), fe(8)] };
    let mut native = Challenger::new();
    native.observe_hash(&h);
    let (a, b) = native.get_2_challenges();
    native.observe_element(fe(99));
    let (c, d, e) = native.get_3_challenges();
    let rest = native.get_n_challenges(10);

    let mut builder = CircuitBuilder::new();
    let mut rc = RecursiveChallenger::new(&mut builder);
    let ts = builder.constants(&h.elements);
    let ht = HashTarget { elements: [ts[0], ts[1], ts[2], ts[3]] };
    rc.observe_hash(&ht);
    let (ta, tb) = rc.get_2_challenges(&mut builder);
    let t99 = builder.constant(fe(99));
    rc.observe_element(t99);
    let (tc, td, te) = rc.get_3_challenges(&mut builder);
    let trest = rc.get_n_challenges(&mut builder, 10);
    let w = builder.generate_witness();
    assert_eq!(w.get_targets(&[ta, tb, tc, td, te]), vec![a, b, c, d, e]);
    assert_eq!(w.get_targets(&trest), rest);
}

#[test]
fn builder_wires_hold_constants_and_permutations() {
    let mut builder = CircuitBuilder::new();
    let z = builder.zero();
    let k = builder.constant(fe(3));
    assert_eq!(z.index, 0);
    assert_eq!(k.index, 1);
    let ins = vec![k; SPONGE_WIDTH];
    let outs = builder.permute(&ins);
    assert_eq!(builder.num_wires(), 2 + SPONGE_WIDTH);
    let w = builder.generate_witness();
    assert_eq!(w.get_target(z), FieldElement::zero());
    assert_eq!(w.get_target(k), fe(3));
    assert_eq!(w.get_targets(&outs), permute(&vec![fe(3); SPONGE_WIDTH]));
}

#[test]
fn circuit_transcript_starts_from_one_zero_wire() {
    let mut builder = CircuitBuilder::new();
    let k = builder.constant(fe(5));
    let mut rc = RecursiveChallenger::new(&mut builder);
    assert_eq!(builder.num_wires(), 2);
    let w = builder.generate_witness();
    assert_eq!(w.get_target(Target { index: 1 }), FieldElement::zero());
    // A fresh circuit transcript squeezes the same first challenge as a fresh native one.
    rc.observe_element(k);
    let t = rc.get_challenge(&mut builder);
    assert_eq!(builder.num_wires(), 2 + SPONGE_WIDTH);
    let mut native = Challenger::new();
    native.observe_element(fe(5));
    assert_eq!(builder.generate_witness().get_target(t), native.get_challenge());
}

#[test]
fn cloned_transcript_continues_identically() {
    let mut a = Challenger::new();
    a.observe_elements(&[fe(1), fe(2)]);
    let _ = a.get_challenge();
    let mut b = a.clone();
    assert_eq!(a.get_n_challenges(10), b.get_n_challenges(10));
}

#[test]
fn buffered_outputs_add_no_wires() {
    let mut builder = CircuitBuilder::new();
    let mut rc = RecursiveChallenger::new(&mut builder);
    let _ = rc.get_challenge(&mut builder);
    let after_first = builder.num_wires();
    let _ = rc.get_n_challenges(&mut builder, SPONGE_RATE - 1);
    assert_eq!(builder.num_wires(), after_first);
    let _ = rc.get_2_challenges(&mut builder);
    assert_eq!(builder.num_wires(), after_first + SPONGE_WIDTH);
}
