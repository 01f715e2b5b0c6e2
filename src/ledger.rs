use vstd::prelude::*;

use crate::accumulator::{
    digest_vals, root_spec, pow2, Accumulator, AccumulatorError, MerkleProof, path_spec,
    MAX_TREE_HEIGHT,
};
use crate::challenger;
use crate::field::{vals, FieldElement, ORDER};
use crate::hash::{permute, permute_spec};

verus! {

/// The public inputs of a spend: the nullifier of the spent note, the note root the spend was
/// proved against, and the commitment of the new note.
#[derive(Clone, Copy, Debug)]
pub struct PublicInputs {
    pub nullifier_value: challenger::Hash,
    pub merkle_root_value: challenger::Hash,
    pub new_leaf_value: challenger::Hash,
}

/// A succinct proof of a spend, as the proving backend produced it, with its public inputs.
pub struct SpendProof {
    pub proof_bytes: Vec<u8>,
    pub public_inputs: PublicInputs,
}

/// Why a submission or a spend request was refused.
#[derive(Clone, Copy, PartialEq, Eq, Structural, Debug)]
pub enum LedgerError {
    /// The claimed note root is not the ledger's current one.
    StaleRootMismatch,
    /// The proving backend rejected the proof.
    ProofVerificationFailure,
    /// The nullifier was already recorded: the note was spent before.
    DuplicateNullifier,
    /// An accumulator has no free leaf position left.
    CapacityExceeded,
    /// The wallet's balance is smaller than the requested split.
    InsufficientBalance,
}

/// The commitment of a note: the first four elements of the permutation of
/// `key ‖ 0 ‖ 0 ‖ token ‖ amount ‖ 0 0 0 0`.
pub open spec fn commitment_spec(key: Seq<int>, token: int, amount: int) -> Seq<int> {
    permute_spec(key + seq![0, 0, token, amount % ORDER as int] + seq![0, 0, 0, 0]).take(4)
}

/// The leaf value committed for a note.
pub fn note_commitment(key: &challenger::Hash, token_id: FieldElement, amount: u64) -> (r: challenger::Hash)
    ensures
        digest_vals(r) == commitment_spec(digest_vals(*key), token_id.val(), amount as int),
{
    let z = FieldElement::zero();
    let a = FieldElement::from_u64(amount);
    let st: Vec<FieldElement> = vec![
        key.elements[0], key.elements[1], key.elements[2], key.elements[3],
        z, z, token_id, a, z, z, z, z,
    ];
    assert(vals(st@) =~= digest_vals(*key) + seq![0, 0, token_id.val(), amount as int % ORDER as int]
        + seq![0, 0, 0, 0]);
    let out = permute(&st);
    let r = challenger::Hash { elements: [out[0], out[1], out[2], out[3]] };
    assert(digest_vals(r) =~= vals(out@).take(4));
    r
}

/// The ledger: the note accumulator and the nullifier accumulator.
pub struct LedgerState {
    pub notes: Accumulator,
    pub nullifiers: Accumulator,
}

impl LedgerState {
    pub open spec fn wf(&self) -> bool {
        self.notes.wf() && self.nullifiers.wf()
    }

    /// An empty ledger whose two trees have the given height.
    pub fn new(tree_height: usize) -> (r: LedgerState)
        requires
            tree_height <= MAX_TREE_HEIGHT,
        ensures
            r.wf(),
            r.notes.height() == tree_height && r.nullifiers.height() == tree_height,
            r.notes.leaves().len() == 0 && r.nullifiers.leaves().len() == 0,
    {
        LedgerState { notes: Accumulator::new(tree_height), nullifiers: Accumulator::new(tree_height) }
    }

    /// Adds a note at ledger bootstrap; the nullifier set is untouched.
    pub fn seed_note(&mut self, leaf: challenger::Hash) -> (r: Result<usize, AccumulatorError>)
        requires
            old(self).wf(),
        ensures
            final(self).wf(),
            final(self).nullifiers == old(self).nullifiers,
            final(self).notes.height() == old(self).notes.height(),
            old(self).notes.leaves().len() < pow2(old(self).notes.height()) <==> r is Ok,
            r is Ok ==> final(self).notes.leaves() == old(self).notes.leaves().push(digest_vals(leaf))
                && r->Ok_0 == old(self).notes.leaves().len(),
            r is Err ==> final(self).notes.leaves() == old(self).notes.leaves(),
    {
        self.notes.insert(leaf)
    }

    /// A copy of the ledger.
    pub fn snapshot(&self) -> (r: LedgerState)
        ensures
            r.notes.leaves() == self.notes.leaves() && r.notes.height() == self.notes.height(),
            r.nullifiers.leaves() == self.nullifiers.leaves() && r.nullifiers.height()
                == self.nullifiers.height(),
            self.wf() ==> r.wf(),
    {
        LedgerState { notes: self.notes.snapshot(), nullifiers: self.nullifiers.snapshot() }
    }
}

/// The outcome that `LedgerCoordinator::verify_and_update_state` owes for a submission, given
/// the ledger before it and the backend's verdict on the proof.
pub open spec fn submission_outcome(
    notes: Seq<Seq<int>>,
    nullifiers: Seq<Seq<int>>,
    note_height: nat,
    nullifier_height: nat,
    nullifier: Seq<int>,
    claimed_root: Seq<int>,
    proof_verified: bool,
) -> Result<usize, LedgerError> {
    if claimed_root != root_spec(notes, note_height) {
        Err(LedgerError::StaleRootMismatch)
    } else if !proof_verified {
        Err(LedgerError::ProofVerificationFailure)
    } else if nullifiers.contains(nullifier) {
        Err(LedgerError::DuplicateNullifier)
    } else if notes.len() >= pow2(note_height) || nullifiers.len() >= pow2(nullifier_height) {
        Err(LedgerError::CapacityExceeded)
    } else {
        Ok(notes.len() as usize)
    }
}

/// Owns the ledger, checks submitted spends against it, and keeps the log of accepted proofs.
pub struct LedgerCoordinator {
    state: LedgerState,
    proofs: Vec<SpendProof>,
}

impl LedgerCoordinator {
    pub closed spec fn ledger(&self) -> LedgerState {
        self.state
    }

    /// The number of accepted proofs.
    pub closed spec fn log_len(&self) -> nat {
        self.proofs@.len()
    }

    /// The bytes of each accepted proof, in order of acceptance.
    pub closed spec fn logged(&self) -> Seq<Seq<u8>> {
        self.proofs@.map_values(|p: SpendProof| p.proof_bytes@)
    }

    /// The ledger is well formed.
    pub closed spec fn wf(&self) -> bool {
        self.state.wf()
    }

    pub fn new(state: LedgerState) -> (r: LedgerCoordinator)
        requires
            state.wf(),
        ensures
            r.wf(),
            r.ledger() == state,
            r.log_len() == 0,
            r.logged() == Seq::<Seq<u8>>::empty(),
    {
        let r = LedgerCoordinator { state, proofs: Vec::new() };
        assert(r.logged() =~= Seq::<Seq<u8>>::empty());
        r
    }

    /// Checks a spend against the current note root and the backend's verdict, and only when
    /// both pass (and the nullifier is new and both trees have room) records the nullifier,
    /// appends the new note and logs the proof. Returns the new note's position.
    pub fn verify_and_update_state(
        &mut self,
        proof: SpendProof,
        public_inputs: PublicInputs,
        proof_verified: bool,
    ) -> (r: Result<usize, LedgerError>)
        requires
            old(self).wf(),
        ensures
            final(self).wf(),
            r == submission_outcome(
                old(self).ledger().notes.leaves(),
                old(self).ledger().nullifiers.leaves(),
                old(self).ledger().notes.height(),
                old(self).ledger().nullifiers.height(),
                digest_vals(public_inputs.nullifier_value),
                digest_vals(public_inputs.merkle_root_value),
                proof_verified,
            ),
            r is Err ==> final(self).ledger().notes.leaves() == old(self).ledger().notes.leaves()
                && final(self).ledger().nullifiers.leaves() == old(self).ledger().nullifiers.leaves()
                && final(self).log_len() == old(self).log_len()
                && final(self).logged() == old(self).logged(),
            r is Ok ==> final(self).logged() == old(self).logged().push(proof.proof_bytes@),
            r is Ok ==> final(self).ledger().notes.leaves() == old(self).ledger().notes.leaves().push(
                digest_vals(public_inputs.new_leaf_value),
            ) && final(self).ledger().nullifiers.leaves()
                == old(self).ledger().nullifiers.leaves().push(digest_vals(public_inputs.nullifier_value))
                && final(self).log_len() == old(self).log_len() + 1,
            final(self).ledger().notes.height() == old(self).ledger().notes.height(),
            final(self).ledger().nullifiers.height() == old(self).ledger().nullifiers.height(),
    {
        let current_root = self.state.notes.root();
        if !crate::accumulator::digest_eq(&current_root, &public_inputs.merkle_root_value) {
            return Err(LedgerError::StaleRootMismatch);
        }
        if !proof_verified {
            return Err(LedgerError::ProofVerificationFailure);
        }
        if self.state.nullifiers.contains(&public_inputs.nullifier_value) {
            return Err(LedgerError::DuplicateNullifier);
        }
        if self.state.notes.next_free_index() >= self.state.notes.capacity()
            || self.state.nullifiers.next_free_index() >= self.state.nullifiers.capacity() {
            return Err(LedgerError::CapacityExceeded);
        }
        let ghost bytes = proof.proof_bytes@;
        let a = self.state.nullifiers.insert(public_inputs.nullifier_value);
        let b = self.state.notes.insert(public_inputs.new_leaf_value);
        self.proofs.push(proof);
        assert(self.logged() =~= old(self).logged().push(bytes));
        match b {
            Ok(index) => Ok(index),
            Err(_) => Err(LedgerError::CapacityExceeded),
        }
    }

    /// A copy of the current ledger, for wallets to resynchronise from.
    pub fn get_state(&self) -> (r: LedgerState)
        requires
            self.wf(),
        ensures
            r.wf(),
            r.notes.leaves() == self.ledger().notes.leaves() && r.notes.height() == self.ledger().notes.height(),
            r.nullifiers.leaves() == self.ledger().nullifiers.leaves() && r.nullifiers.height()
                == self.ledger().nullifiers.height(),
    {
        self.state.snapshot()
    }

    /// The number of accepted proofs.
    pub fn num_proofs(&self) -> (r: usize)
        ensures
            r == self.log_len(),
    {
        self.proofs.len()
    }

    /// The accepted proof at position `index` of the log.
    pub fn proof_bytes(&self, index: usize) -> (r: &Vec<u8>)
        requires
            index < self.log_len(),
        ensures
            r@ == self.logged()[index as int],
    {
        &self.proofs[index].proof_bytes
    }
}

/// A holder of one note: its key, token and balance, the note's position, and a mirror of the
/// ledger that is resynchronised after each accepted spend.
pub struct Wallet {
    pub state: LedgerState,
    pub priv_key: challenger::Hash,
    pub token_id: FieldElement,
    pub balance: u64,
    pub priv_index: usize,
}

impl Wallet {
    pub fn new(
        state: LedgerState,
        priv_key: challenger::Hash,
        token_id: FieldElement,
        balance: u64,
        priv_index: usize,
    ) -> (r: Wallet)
        ensures
            r.state == state && r.priv_key == priv_key && r.token_id == token_id,
            r.balance == balance && r.priv_index == priv_index,
    {
        Wallet { state, priv_key, token_id, balance, priv_index }
    }

    /// The commitment of the wallet's current note.
    pub fn current_commitment(&self) -> (r: challenger::Hash)
        ensures
            digest_vals(r) == commitment_spec(digest_vals(self.priv_key), self.token_id.val(), self.balance as int),
    {
        note_commitment(&self.priv_key, self.token_id, self.balance)
    }

    /// The public inputs of a spend that keeps `balance - split` in a new note: the current
    /// note's commitment as nullifier, the mirrored note root, and the new note's commitment.
    pub fn spend_public_inputs(&self, split: u64) -> (r: Result<PublicInputs, LedgerError>)
        requires
            self.state.wf(),
        ensures
            split > self.balance <==> r == Err::<PublicInputs, LedgerError>(LedgerError::InsufficientBalance),
            split <= self.balance <==> r is Ok,
            r is Ok ==> digest_vals(r->Ok_0.nullifier_value) == commitment_spec(
                digest_vals(self.priv_key),
                self.token_id.val(),
                self.balance as int,
            ) && digest_vals(r->Ok_0.merkle_root_value) == root_spec(
                self.state.notes.leaves(),
                self.state.notes.height(),
            ) && digest_vals(r->Ok_0.new_leaf_value) == commitment_spec(
                digest_vals(self.priv_key),
                self.token_id.val(),
                self.balance - split,
            ),
    {
        if split > self.balance {
            return Err(LedgerError::InsufficientBalance);
        }
        let nullifier_value = self.current_commitment();
        let merkle_root_value = self.state.notes.root();
        let new_leaf_value = note_commitment(&self.priv_key, self.token_id, self.balance - split);
        Ok(PublicInputs { nullifier_value, merkle_root_value, new_leaf_value })
    }

    /// The membership proof of the wallet's note in its mirror, if the mirror holds that
    /// position.
    pub fn membership_proof(&self) -> (r: Option<MerkleProof>)
        requires
            self.state.wf(),
        ensures
            r is Some <==> self.priv_index < self.state.notes.leaves().len(),
            r is Some ==> r->0.leaf_index == self.priv_index && crate::accumulator::digests_vals(
                r->0.siblings@,
            ) == path_spec(self.state.notes.leaves(), 0, self.priv_index as int, self.state.notes.height()),
    {
        if self.priv_index < self.state.notes.next_free_index() {
            Some(self.state.notes.prove(self.priv_index))
        } else {
            None
        }
    }

    /// Spends the current note into one holding `balance - split`: fails fast when the balance
    /// is too small, else submits the proof with the public inputs to the coordinator, and on
    /// acceptance moves to the new note and resynchronises the mirror.
    pub fn split_and_submit(
        &mut self,
        split: u64,
        coordinator: &mut LedgerCoordinator,
        proof_bytes: Vec<u8>,
        proof_verified: bool,
    ) -> (r: Result<usize, LedgerError>)
        requires
            old(self).state.wf(),
            old(coordinator).wf(),
        ensures
            final(coordinator).wf(),
            final(self).state.wf(),
            split > old(self).balance ==> r == Err::<usize, LedgerError>(LedgerError::InsufficientBalance)
                && final(coordinator).ledger() == old(coordinator).ledger()
                && final(coordinator).log_len() == old(coordinator).log_len(),
            split <= old(self).balance ==> r == submission_outcome(
                old(coordinator).ledger().notes.leaves(),
                old(coordinator).ledger().nullifiers.leaves(),
                old(coordinator).ledger().notes.height(),
                old(coordinator).ledger().nullifiers.height(),
                commitment_spec(digest_vals(old(self).priv_key), old(self).token_id.val(), old(self).balance as int),
                root_spec(old(self).state.notes.leaves(), old(self).state.notes.height()),
                proof_verified,
            ),
            r is Ok ==> final(self).balance == old(self).balance - split
                && final(self).priv_index == r->Ok_0
                && final(coordinator).ledger().notes.leaves() == old(coordinator).ledger().notes.leaves().push(
                    commitment_spec(
                        digest_vals(old(self).priv_key),
                        old(self).token_id.val(),
                        old(self).balance - split,
                    ),
                )
                && final(self).state.notes.leaves() == final(coordinator).ledger().notes.leaves()
                && final(self).state.nullifiers.leaves() == final(coordinator).ledger().nullifiers.leaves()
                && final(self).state.notes.height() == final(coordinator).ledger().notes.height()
                && final(self).state.nullifiers.height() == final(coordinator).ledger().nullifiers.height(),
            r is Ok ==> final(coordinator).logged() == old(coordinator).logged().push(proof_bytes@),
            r is Err ==> final(self).balance == old(self).balance && final(self).priv_index
                == old(self).priv_index && final(self).state == old(self).state,
            r is Err ==> final(coordinator).ledger().notes.leaves() == old(coordinator).ledger().notes.leaves()
                && final(coordinator).ledger().nullifiers.leaves()
                == old(coordinator).ledger().nullifiers.leaves()
                && final(coordinator).logged() == old(coordinator).logged(),
            final(coordinator).ledger().notes.height() == old(coordinator).ledger().notes.height(),
    {
        let public_inputs = match self.spend_public_inputs(split) {
            Ok(pi) => pi,
            Err(e) => return Err(e),
        };
        let proof = SpendProof { proof_bytes, public_inputs };
        let r = coordinator.verify_and_update_state(proof, public_inputs, proof_verified);
        match r {
            Ok(index) => {
                self.priv_index = index;
                self.balance = self.balance - split;
                self.state = coordinator.get_state();
                Ok(index)
            },
            Err(e) => Err(e),
        }
    }
}

/// One node of the aggregation tree: the proofs of `[left, mid]` and `[mid + 1, right]` are
/// folded into one proof of `[left, right]`.
#[derive(Clone, Copy, PartialEq, Eq, Structural, Debug)]
pub struct FoldStep {
    pub left: usize,
    pub mid: usize,
    pub right: usize,
}

/// The folds that aggregate the proofs of `[left, right]`, children before parents: each range
/// splits at `mid = floor((left + right) / 2)`, the left half taking the larger share.
pub open spec fn fold_steps(left: int, right: int) -> Seq<FoldStep>
    decreases right - left,
{
    if left >= right {
        seq![]
    } else {
        let mid = (left + right) / 2;
        fold_steps(left, mid) + fold_steps(mid + 1, right) + seq![
            FoldStep { left: left as usize, mid: mid as usize, right: right as usize },
        ]
    }
}

/// The schedule of folds that aggregates the logged proofs `[left, right]` into one.
pub fn fold_schedule(left: usize, right: usize) -> (r: Vec<FoldStep>)
    requires
        left <= right,
    ensures
        r@ == fold_steps(left as int, right as int),
    decreases right - left,
{
    if left == right {
        return Vec::new();
    }
    let mid = left + (right - left) / 2;
    let mut a = fold_schedule(left, mid);
    let mut b = fold_schedule(mid + 1, right);
    a.append(&mut b);
    a.push(FoldStep { left, mid, right });
    a
}

/// Aggregating `n` proofs takes `n - 1` folds, and every fold joins two adjacent ranges whose
/// left one is as large as the right one or one larger.
pub proof fn lemma_fold_steps_shape(left: int, right: int)
    requires
        0 <= left <= right <= usize::MAX,
    ensures
        fold_steps(left, right).len() == right - left,
        forall|i: int|
            0 <= i < fold_steps(left, right).len() ==> {
                let s = #[trigger] fold_steps(left, right)[i];
                &&& left <= s.left <= s.mid < s.right <= right
                &&& s.right - s.mid <= s.mid - s.left + 1 <= s.right - s.mid + 1
            },
    decreases right - left,
{
    if left < right {
        let mid = (left + right) / 2;
        lemma_fold_steps_shape(left, mid);
        lemma_fold_steps_shape(mid + 1, right);
        let a = fold_steps(left, mid);
        let b = fold_steps(mid + 1, right);
        assert forall|i: int| 0 <= i < fold_steps(left, right).len() implies {
            let s = #[trigger] fold_steps(left, right)[i];
            &&& left <= s.left <= s.mid < s.right <= right
            &&& s.right - s.mid <= s.mid - s.left + 1 <= s.right - s.mid + 1
        } by {
            if i < a.len() {
                assert(fold_steps(left, right)[i] == a[i]);
            } else if i < a.len() + b.len() {
                assert(fold_steps(left, right)[i] == b[i - a.len()]);
            } else {
                let s = fold_steps(left, right)[i];
                assert(s == FoldStep { left: left as usize, mid: mid as usize, right: right as usize });
                assert(s.left == left && s.mid == mid && s.right == right);
            }
        }
    }
}

} // verus!
