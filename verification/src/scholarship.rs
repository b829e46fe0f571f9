//! Root store and verification saga: keeps one published root per period,
//! accepts publications only from the score ledger's fixed identity, and
//! decides from a record's inclusion proof alone whether its score earns the
//! fixed reward.

use vstd::prelude::*;
use crate::merkle::{fold_path, leaf_hash, name_len_ok, path_view, BlockIndex, MerkleHash, RecordView};
use crate::score::{
    find_proof, find_subject, floor_entry, ScoreContract, ScoreWithProof,
};

verus! {

/// A score at or above this earns the reward.
pub const SCHOLARSHIP_THRESHOLD: u64 = 90;

/// One whole unit of the transferred value.
pub const NEAR_BASE: u128 = 1_000_000_000_000_000_000_000_000;

/// The fixed reward amount.
pub const SCHOLARSHIP_AMOUNT: u128 = 10 * NEAR_BASE;

/// One published commitment: the root for one period.
#[derive(Clone, Copy, Debug)]
pub struct RootEntry {
    pub block_index: BlockIndex,
    pub root: MerkleHash,
}

/// The scholarship service's state: the pinned root of every published
/// period.
#[derive(Debug)]
pub struct ScholarshipContract {
    pub state_roots: Vec<RootEntry>,
}

/// Why a verification stage produced no grant. Consumed entirely by the
/// final stage, never surfaced to the original caller.
#[derive(Debug, PartialEq, Eq)]
pub enum ScholarshipError {
    /// The ledger had no entry at or before the requested period.
    AbsentProof,
    /// No root is pinned for the proof's period; carries the unresolved
    /// proof and every known period, for off-chain diagnosis.
    UnknownRoot { proof: ScoreWithProof, known_periods: Vec<BlockIndex> },
    /// The hash chain did not reproduce the pinned root.
    InvalidProof,
}

/// What the checking stage hands to the final stage.
pub type CheckResult = Result<bool, ScholarshipError>;

/// The one externally observable effect of a successful saga: pay the
/// recipient the fixed amount.
#[derive(Debug, PartialEq, Eq)]
pub struct PayAction {
    pub recipient: String,
    pub amount: u128,
}

/// The score ledger's surface as the scholarship service sees it: the
/// saga's fetch stage. The host dispatches the call asynchronously; the
/// library's own saga composition calls the implementation directly.
pub trait ExtScoreContract {
    fn prove_score(&mut self, name: String, block_index: BlockIndex) -> Option<ScoreWithProof>;
}

/// The scholarship service's own continuation entry points, one per saga
/// stage, each taking the previous stage's result.
pub trait ExtContract {
    fn check_scholarship_result(&mut self, evidence: Option<ScoreWithProof>) -> CheckResult
        requires
            (evidence matches Some(p) ==> name_len_ok(p.name@)),
    ;

    fn grant_scholarship(&mut self, name: String, check_result: CheckResult) -> Option<PayAction>;
}

/// The only identity whose root publications are accepted.
pub open spec fn authorized_publisher() -> Seq<char> {
    "score-contract"@
}

/// The index of the root pinned for `block_index` at or after `k`, or -1.
pub open spec fn find_root_from(roots: Seq<RootEntry>, block_index: BlockIndex, k: int) -> int
    decreases roots.len() - k,
{
    if k < 0 || k >= roots.len() {
        -1
    } else if roots[k].block_index == block_index {
        k
    } else {
        find_root_from(roots, block_index, k + 1)
    }
}

/// The index of the root pinned for `block_index`, or -1.
pub open spec fn find_root(roots: Seq<RootEntry>, block_index: BlockIndex) -> int {
    find_root_from(roots, block_index, 0)
}

/// The committed record a piece of evidence speaks about.
pub open spec fn proof_record(p: ScoreWithProof) -> RecordView {
    RecordView { name: p.name@, block_index: p.block_index, score: p.score }
}

/// Whether folding the evidence's path over its record's leaf hash
/// reproduces `root`.
pub open spec fn proof_verifies(p: ScoreWithProof, root: MerkleHash) -> bool {
    fold_path(leaf_hash(proof_record(p)), path_view(p.proof@)) == root@
}

/// When the search from `k` finds nothing, no pinned root at or after `k`
/// has the period.
proof fn lemma_find_root_none(roots: Seq<RootEntry>, block_index: BlockIndex, k: int)
    requires
        0 <= k,
        find_root_from(roots, block_index, k) == -1,
    ensures
        forall|j: int| k <= j < roots.len() ==> roots[j].block_index != block_index,
    decreases roots.len() - k,
{
    if k < roots.len() {
        lemma_find_root_none(roots, block_index, k + 1);
    }
}

/// The whole saga's outcome, as a function of both services' states: a
/// payment happens exactly when the ledger yields evidence whose period has
/// a pinned root, the evidence verifies against it, and the score meets the
/// threshold.
pub open spec fn saga_pays(
    sch: ScholarshipContract,
    ledger: ScoreContract,
    name: Seq<char>,
    block_index: BlockIndex,
) -> bool {
    let si = find_subject(ledger.scores@, name);
    si >= 0 && match floor_entry(ledger.scores@[si].entries@, block_index) {
        None => false,
        Some(e) => {
            let pi = find_proof(ledger.proofs@, name, e.block_index);
            pi >= 0 && {
                let ri = find_root(sch.state_roots@, e.block_index);
                ri >= 0 && fold_path(
                    leaf_hash(RecordView { name, block_index: e.block_index, score: e.score }),
                    path_view(ledger.proofs@[pi].path@),
                ) == sch.state_roots@[ri].root@ && e.score >= SCHOLARSHIP_THRESHOLD
            }
        },
    }
}

impl ScholarshipContract {
    /// The store's invariant: one pinned root per period.
    pub open spec fn wf(self) -> bool {
        forall|i: int, j: int|
            0 <= i < j < self.state_roots@.len() ==> self.state_roots@[i].block_index
                != self.state_roots@[j].block_index
    }

    /// An empty root store.
    pub fn new() -> (res: ScholarshipContract)
        ensures
            res.wf(),
            res.state_roots@.len() == 0,
    {
        ScholarshipContract { state_roots: Vec::new() }
    }

    /// The position of the root pinned for a period, if any.
    fn find_root_exec(&self, block_index: BlockIndex) -> (res: Option<usize>)
        ensures
            match res {
                Some(i) => find_root(self.state_roots@, block_index) == i && i
                    < self.state_roots@.len() && self.state_roots@[i as int].block_index
                    == block_index,
                None => find_root(self.state_roots@, block_index) == -1,
            },
    {
        let n = self.state_roots.len();
        let mut k: usize = 0;
        while k < n
            invariant
                k <= n,
                n == self.state_roots@.len(),
                find_root(self.state_roots@, block_index) == find_root_from(
                    self.state_roots@,
                    block_index,
                    k as int,
                ),
            decreases n - k,
        {
            if self.state_roots[k].block_index == block_index {
                return Some(k);
            }
            k = k + 1;
        }
        None
    }

    /// Every period a root is pinned for, in storage order.
    pub fn known_periods(&self) -> (res: Vec<BlockIndex>)
        ensures
            res@ == self.state_roots@.map_values(|e: RootEntry| e.block_index),
    {
        let mut res: Vec<BlockIndex> = Vec::new();
        let n = self.state_roots.len();
        let mut k: usize = 0;
        while k < n
            invariant
                k <= n,
                n == self.state_roots@.len(),
                res@ == self.state_roots@.subrange(0, k as int).map_values(
                    |e: RootEntry| e.block_index,
                ),
            decreases n - k,
        {
            res.push(self.state_roots[k].block_index);
            proof {
                assert(res@ =~= self.state_roots@.subrange(0, k as int + 1).map_values(
                    |e: RootEntry| e.block_index,
                ));
            }
            k = k + 1;
        }
        proof {
            assert(self.state_roots@.subrange(0, n as int) =~= self.state_roots@);
        }
        res
    }

    /// Pins `root` for `block_index`, overwriting any earlier publication
    /// for that period — but only when the caller is the score ledger's
    /// fixed identity. Any other caller's request is silently dropped: no
    /// error, no state change.
    pub fn record_root(&mut self, root: MerkleHash, block_index: BlockIndex, caller: &String)
        ensures
            old(self).wf() ==> final(self).wf(),
            caller@ != authorized_publisher() ==> *final(self) == *old(self),
            caller@ == authorized_publisher() ==> ({
                let ri = find_root(old(self).state_roots@, block_index);
                if ri < 0 {
                    final(self).state_roots@ == old(self).state_roots@.push(
                        (RootEntry { block_index, root }),
                    )
                } else {
                    final(self).state_roots@ == old(self).state_roots@.update(
                        ri,
                        (RootEntry { block_index, root }),
                    )
                }
            }),
    {
        let expected = "score-contract".to_owned();
        if *caller == expected {
            let ghost old_roots = self.state_roots@;
            match self.find_root_exec(block_index) {
                None => {
                    self.state_roots.push(RootEntry { block_index, root });
                    proof {
                        lemma_find_root_none(old_roots, block_index, 0);
                    }
                },
                Some(ri) => {
                    let entry = RootEntry { block_index, root };
                    self.state_roots[ri] = entry;
                    proof {
                        if old(self).wf() {
                            assert forall|i: int, j: int|
                                0 <= i < j < self.state_roots@.len() implies self.state_roots@[i].block_index
                                != self.state_roots@[j].block_index by {
                                assert(old_roots[i].block_index != old_roots[j].block_index);
                            }
                        }
                    }
                },
            }
        }
    }

    /// Checks one piece of evidence against the record's committed leaf and
    /// the pinned root of its period.
    fn verify_proof(root: MerkleHash, proof: &ScoreWithProof) -> (res: bool)
        requires
            name_len_ok(proof.name@),
        ensures
            res == proof_verifies(*proof, root),
    {
        let item = ((proof.name.clone(), proof.block_index), proof.score);
        crate::merkle::verify_path(root, &proof.proof, &item)
    }

    /// The saga's checking stage, run over the fetch stage's result: absent
    /// evidence, an unknown period and a failed hash chain each yield their
    /// own failure; otherwise the answer is whether the proven score meets
    /// the threshold.
    pub fn check_scholarship_result(&self, evidence: Option<ScoreWithProof>) -> (res: CheckResult)
        requires
            (evidence matches Some(p) ==> name_len_ok(p.name@)),
        ensures
            (evidence is None ==> (res matches Err(ScholarshipError::AbsentProof))),
            (evidence matches Some(p) ==> ({
                let ri = find_root(self.state_roots@, p.block_index);
                if ri < 0 {
                    (res matches Err(ScholarshipError::UnknownRoot { proof: q, known_periods: ks })
                        && q == p && ks@ == self.state_roots@.map_values(
                        |e: RootEntry| e.block_index,
                    ))
                } else if proof_verifies(p, self.state_roots@[ri].root) {
                    (res matches Ok(b) && b == (p.score >= SCHOLARSHIP_THRESHOLD))
                } else {
                    (res matches Err(ScholarshipError::InvalidProof))
                }
            })),
    {
        match evidence {
            None => Err(ScholarshipError::AbsentProof),
            Some(p) => {
                match self.find_root_exec(p.block_index) {
                    None => {
                        let known_periods = self.known_periods();
                        Err(ScholarshipError::UnknownRoot { proof: p, known_periods })
                    },
                    Some(ri) => {
                        let root = self.state_roots[ri].root;
                        if Self::verify_proof(root, &p) {
                            Ok(p.score >= SCHOLARSHIP_THRESHOLD)
                        } else {
                            Err(ScholarshipError::InvalidProof)
                        }
                    },
                }
            },
        }
    }

    /// The saga's final stage: a payment to the named subject exactly when
    /// the check answered yes; every failure and every no degrades to no
    /// action at all.
    pub fn grant_scholarship(&self, name: String, check_result: CheckResult) -> (res: Option<
        PayAction,
    >)
        ensures
            (check_result == Ok::<bool, ScholarshipError>(true) ==> (res matches Some(a)
                && a.recipient@ == name@ && a.amount == SCHOLARSHIP_AMOUNT)),
            (check_result != Ok::<bool, ScholarshipError>(true) ==> (res is None)),
    {
        match check_result {
            Ok(true) => Some(PayAction { recipient: name, amount: SCHOLARSHIP_AMOUNT }),
            _ => None,
        }
    }

    /// The whole three-stage saga, run to completion: fetch evidence from
    /// the score ledger, check it against the pinned root, and turn a yes
    /// into the payment to perform. Every failure yields no action.
    pub fn scholarship(&self, ledger: &ScoreContract, name: String, block_index: BlockIndex) -> (res:
        Option<PayAction>)
        requires
            name_len_ok(name@),
        ensures
            (res is Some) == saga_pays(*self, *ledger, name@, block_index),
            (res matches Some(a) ==> a.recipient@ == name@ && a.amount == SCHOLARSHIP_AMOUNT),
    {
        let evidence = ledger.prove_score(name.clone(), block_index);
        proof {
            assert(evidence matches Some(p) ==> p.name@ == name@);
        }
        let check = self.check_scholarship_result(evidence);
        self.grant_scholarship(name, check)
    }
}

impl ExtScoreContract for ScoreContract {
    fn prove_score(&mut self, name: String, block_index: BlockIndex) -> Option<ScoreWithProof> {
        ScoreContract::prove_score(self, name, block_index)
    }
}

impl ExtContract for ScholarshipContract {
    fn check_scholarship_result(&mut self, evidence: Option<ScoreWithProof>) -> CheckResult {
        ScholarshipContract::check_scholarship_result(self, evidence)
    }

    fn grant_scholarship(&mut self, name: String, check_result: CheckResult) -> Option<PayAction> {
        ScholarshipContract::grant_scholarship(self, name, check_result)
    }
}

impl crate::score::ExtScholarshipContract for ScholarshipContract {
    fn record_root(&mut self, root: MerkleHash, block_index: BlockIndex, caller: &String) {
        ScholarshipContract::record_root(self, root, block_index, caller)
    }
}

impl Default for ScholarshipContract {
    /// An empty root store.
    fn default() -> (res: Self)
        ensures
            res.wf(),
            res.state_roots@.len() == 0,
    {
        ScholarshipContract::new()
    }
}

} // verus!
