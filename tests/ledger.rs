use plonky_transcript::accumulator::{compress, verify_merkle_proof, Accumulator, AccumulatorError};
use plonky_transcript::field::FieldElement;
use plonky_transcript::ledger::{
    fold_schedule, note_commitment, FoldStep, LedgerCoordinator, LedgerError, LedgerState,
    PublicInputs, SpendProof, Wallet,
};

type Digest = plonky_transcript::challenger::Hash;

fn fe(x: u64) -> FieldElement {
    FieldElement::from_u64(x)
}

fn digest(x: u64) -> Digest {
    plonky_transcript::challenger::Hash { elements: [fe(x), fe(x + 1), fe(x + 2), fe(x + 3)] }
}

fn key() -> Digest {
    digest(1000)
}

/// A ledger of the given height with one seeded note of balance 1000, a coordinator over it,
/// and the wallet holding that note.
fn setup(height: usize) -> (LedgerCoordinator, Wallet) {
    let token = fe(7);
    let mut state = LedgerState::new(height);
    let leaf = note_commitment(&key(), token, 1000);
    let index = state.seed_note(leaf).unwrap();
    assert_eq!(index, 0);
    let mirror = state.snapshot();
    (LedgerCoordinator::new(state), Wallet::new(mirror, key(), token, 1000, index))
}

#[test]
fn merkle_proofs_verify_against_current_root() {
    let mut acc = Accumulator::new(3);
    for k in 0..5u64 {
        assert_eq!(acc.insert(digest(10 * k)), Ok(k as usize));
    }
    assert_eq!(acc.next_free_index(), 5);
    let root = acc.root();
    for i in 0..5usize {
        let proof = acc.prove(i);
        assert_eq!(proof.leaf_index, i);
        assert_eq!(proof.siblings.len(), 3);
        assert!(verify_merkle_proof(&digest(10 * i as u64), &proof, &root));
        assert!(!verify_merkle_proof(&digest(999), &proof, &root));
    }
    let old_proof = acc.prove(0);
    acc.insert(digest(77)).unwrap();
    let new_root = acc.root();
    assert_ne!(new_root, root);
    assert!(!verify_merkle_proof(&digest(0), &old_proof, &new_root));
    assert!(verify_merkle_proof(&digest(0), &acc.prove(0), &new_root));
}

#[test]
fn root_of_two_leaves_is_their_compression() {
    let mut acc = Accumulator::new(1);
    acc.insert(digest(1)).unwrap();
    acc.insert(digest(5)).unwrap();
    assert_eq!(acc.root(), compress(&digest(1), &digest(5)));
    assert_ne!(compress(&digest(1), &digest(5)), compress(&digest(5), &digest(1)));
}

#[test]
fn full_accumulator_refuses_insertion() {
    let mut acc = Accumulator::new(1);
    assert_eq!(acc.capacity(), 2);
    acc.insert(digest(1)).unwrap();
    acc.insert(digest(2)).unwrap();
    let root = acc.root();
    assert_eq!(acc.insert(digest(3)), Err(AccumulatorError::CapacityExceeded));
    assert_eq!(acc.next_free_index(), 2);
    assert_eq!(acc.root(), root);
    assert!(acc.contains(&digest(2)));
    assert!(!acc.contains(&digest(3)));
}

#[test]
fn stale_root_is_rejected_without_mutation() {
    let (mut coordinator, wallet) = setup(10);
    let mut inputs = wallet.spend_public_inputs(12).unwrap();
    inputs.merkle_root_value = digest(4242);
    let proof = SpendProof { proof_bytes: vec![1, 2, 3], public_inputs: inputs };
    let r = coordinator.verify_and_update_state(proof, inputs, true);
    assert_eq!(r, Err(LedgerError::StaleRootMismatch));
    let state = coordinator.get_state();
    assert_eq!(state.notes.next_free_index(), 1);
    assert_eq!(state.nullifiers.next_free_index(), 0);
    assert_eq!(coordinator.num_proofs(), 0);
}

#[test]
fn rejected_proof_causes_no_mutation() {
    let (mut coordinator, wallet) = setup(10);
    let inputs = wallet.spend_public_inputs(12).unwrap();
    let proof = SpendProof { proof_bytes: vec![0], public_inputs: inputs };
    let r = coordinator.verify_and_update_state(proof, inputs, false);
    assert_eq!(r, Err(LedgerError::ProofVerificationFailure));
    assert_eq!(coordinator.get_state().notes.next_free_index(), 1);
    assert_eq!(coordinator.num_proofs(), 0);
}

#[test]
fn split_and_submit_tracks_balance() {
    let (mut coordinator, mut wallet) = setup(10);
    assert_eq!(wallet.split_and_submit(12, &mut coordinator, vec![1], true), Ok(1));
    assert_eq!(wallet.split_and_submit(13, &mut coordinator, vec![2], true), Ok(2));
    assert_eq!(wallet.balance, 975);
    assert_eq!(wallet.priv_index, 2);
    let state = coordinator.get_state();
    assert_eq!(state.notes.next_free_index(), 3);
    assert_eq!(state.nullifiers.next_free_index(), 2);
    assert_eq!(coordinator.num_proofs(), 2);
    assert_eq!(coordinator.proof_bytes(1), &vec![2u8]);
    assert_eq!(wallet.state.notes.root(), state.notes.root());
    let proof = wallet.membership_proof().unwrap();
    assert!(verify_merkle_proof(&wallet.current_commitment(), &proof, &state.notes.root()));
}

#[test]
fn insufficient_balance_fails_fast() {
    let (mut coordinator, mut wallet) = setup(10);
    let r = wallet.split_and_submit(1001, &mut coordinator, vec![1], true);
    assert_eq!(r, Err(LedgerError::InsufficientBalance));
    assert_eq!(wallet.balance, 1000);
    assert_eq!(coordinator.num_proofs(), 0);
    assert!(wallet.spend_public_inputs(1000).is_ok());
}

#[test]
fn stale_wallet_mirror_is_rejected() {
    let (mut coordinator, mut wallet) = setup(10);
    let stale = wallet.state.snapshot();
    wallet.split_and_submit(12, &mut coordinator, vec![1], true).unwrap();
    wallet.state = stale;
    let r = wallet.split_and_submit(13, &mut coordinator, vec![2], true);
    assert_eq!(r, Err(LedgerError::StaleRootMismatch));
    assert_eq!(wallet.balance, 988);
}

#[test]
fn reused_nullifier_is_rejected() {
    let (mut coordinator, wallet) = setup(10);
    let first = wallet.spend_public_inputs(12).unwrap();
    let p = SpendProof { proof_bytes: vec![1], public_inputs: first };
    assert_eq!(coordinator.verify_and_update_state(p, first, true), Ok(1));
    let again = PublicInputs {
        nullifier_value: first.nullifier_value,
        merkle_root_value: coordinator.get_state().notes.root(),
        new_leaf_value: digest(5),
    };
    let p = SpendProof { proof_bytes: vec![2], public_inputs: again };
    assert_eq!(coordinator.verify_and_update_state(p, again, true), Err(LedgerError::DuplicateNullifier));
    assert_eq!(coordinator.get_state().notes.next_free_index(), 2);
}

#[test]
fn full_ledger_reports_capacity() {
    let (mut coordinator, mut wallet) = setup(1);
    assert_eq!(wallet.split_and_submit(12, &mut coordinator, vec![1], true), Ok(1));
    let r = wallet.split_and_submit(13, &mut coordinator, vec![2], true);
    assert_eq!(r, Err(LedgerError::CapacityExceeded));
    assert_eq!(coordinator.num_proofs(), 1);
}

#[test]
fn nine_spends_are_logged_and_fold_in_a_balanced_tree() {
    let (mut coordinator, mut wallet) = setup(10);
    for (k, split) in [12u64, 13, 14, 15, 15, 15, 15, 15, 15].iter().enumerate() {
        assert_eq!(wallet.split_and_submit(*split, &mut coordinator, vec![k as u8], true), Ok(k + 1));
    }
    assert_eq!(wallet.balance, 1000 - 129);
    assert_eq!(coordinator.num_proofs(), 9);
    let steps = fold_schedule(0, coordinator.num_proofs() - 1);
    assert_eq!(steps.len(), 8);
    assert_eq!(*steps.last().unwrap(), FoldStep { left: 0, mid: 4, right: 8 });
    assert_eq!(
        steps,
        vec![
            FoldStep { left: 0, mid: 0, right: 1 },
            FoldStep { left: 0, mid: 1, right: 2 },
            FoldStep { left: 3, mid: 3, right: 4 },
            FoldStep { left: 0, mid: 2, right: 4 },
            FoldStep { left: 5, mid: 5, right: 6 },
            FoldStep { left: 7, mid: 7, right: 8 },
            FoldStep { left: 5, mid: 6, right: 8 },
            FoldStep { left: 0, mid: 4, right: 8 },
        ]
    );
    assert!(fold_schedule(3, 3).is_empty());
}

#[test]
fn root_pads_missing_leaves_with_empty_digests() {
    let zero = plonky_transcript::challenger::Hash { elements: [FieldElement::zero(); 4] };
    let mut acc = Accumulator::new(2);
    let empty_root = compress(&compress(&zero, &zero), &compress(&zero, &zero));
    assert_eq!(acc.root(), empty_root);
    acc.insert(digest(1)).unwrap();
    acc.insert(digest(2)).unwrap();
    acc.insert(digest(3)).unwrap();
    let expected = compress(&compress(&digest(1), &digest(2)), &compress(&digest(3), &zero));
    assert_eq!(acc.root(), expected);
}

#[test]
fn tallest_tree_inserts_and_proves() {
    let mut acc = Accumulator::new(31);
    assert_eq!(acc.capacity(), 1usize << 31);
    for k in 0..4u64 {
        assert_eq!(acc.insert(digest(k)), Ok(k as usize));
    }
    let root = acc.root();
    let proof = acc.prove(3);
    assert_eq!(proof.siblings.len(), 31);
    assert!(verify_merkle_proof(&digest(3), &proof, &root));
    let snap = acc.snapshot();
    assert_eq!(snap.root(), root);
    assert!(verify_merkle_proof(&digest(2), &snap.prove(2), &root));
}

#[test]
fn trees_of_different_heights_are_checked_each_against_its_own_capacity() {
    let token = fe(7);
    let mut state = LedgerState { notes: Accumulator::new(2), nullifiers: Accumulator::new(1) };
    let index = state.seed_note(note_commitment(&key(), token, 1000)).unwrap();
    let mirror = state.snapshot();
    let mut coordinator = LedgerCoordinator::new(state);
    let mut wallet = Wallet::new(mirror, key(), token, 1000, index);
    assert_eq!(wallet.split_and_submit(1, &mut coordinator, vec![1], true), Ok(1));
    assert_eq!(wallet.split_and_submit(2, &mut coordinator, vec![2], true), Ok(2));
    let r = wallet.split_and_submit(3, &mut coordinator, vec![3], true);
    assert_eq!(r, Err(LedgerError::CapacityExceeded));
    let state = coordinator.get_state();
    assert_eq!(state.notes.next_free_index(), 3);
    assert_eq!(state.nullifiers.next_free_index(), 2);
    assert_eq!(wallet.balance, 997);
}
