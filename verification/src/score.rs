//! Score ledger: per-subject time series of scores. Every write recommits
//! the whole ledger into a Merkle root and rebuilds the stored inclusion
//! proof of every record; a point-in-time lookup returns the latest entry at
//! or before a requested period together with its stored proof.

use vstd::prelude::*;
use crate::merkle::{
    merkle_path, merklize, merklize_post, name_len_ok, padded_leaves, path_view, paths_view,
    rec_view, records_root, recs_view, BlockIndex, MerkleHash, MerklePath, RecordView, Score,
};

verus! {

/// One recorded score at one period.
#[derive(Clone, Copy, Debug, PartialEq, Eq, Structural)]
pub struct ScoreEntry {
    pub block_index: BlockIndex,
    pub score: Score,
}

/// One subject's series, ordered by strictly increasing period.
#[derive(Debug)]
pub struct SubjectScores {
    pub name: String,
    pub entries: Vec<ScoreEntry>,
}

/// The stored inclusion proof for one `(subject, period)` record.
#[derive(Debug)]
pub struct ProofEntry {
    pub name: String,
    pub block_index: BlockIndex,
    pub path: MerklePath,
}

/// The verifiable evidence unit handed to the scholarship service.
#[derive(Debug, PartialEq, Eq)]
pub struct ScoreWithProof {
    pub name: String,
    pub block_index: BlockIndex,
    pub score: Score,
    pub proof: MerklePath,
}

/// The score service's state: the series of every subject, and the proof
/// most recently computed for every record.
#[derive(Debug)]
pub struct ScoreContract {
    pub scores: Vec<SubjectScores>,
    pub proofs: Vec<ProofEntry>,
}

/// The scholarship service's surface as the score ledger sees it: the
/// cross-service push of each newly committed root. The host dispatches the
/// call asynchronously; the library's own saga composition calls the
/// implementation directly.
pub trait ExtScholarshipContract {
    fn record_root(&mut self, root: MerkleHash, block_index: BlockIndex, caller: &String);
}

/// Strictly increasing periods within one subject's series.
pub open spec fn entries_sorted(es: Seq<ScoreEntry>) -> bool {
    forall|k: int, l: int| 0 <= k < l < es.len() ==> es[k].block_index < es[l].block_index
}

/// Lexicographic order on names, by code point: a proper prefix comes
/// first, otherwise the first differing character decides.
pub open spec fn chars_lt(a: Seq<char>, b: Seq<char>) -> bool
    decreases a.len() + b.len(),
{
    if b.len() == 0 {
        false
    } else if a.len() == 0 {
        true
    } else if a[0] == b[0] {
        chars_lt(a.subrange(1, a.len() as int), b.subrange(1, b.len() as int))
    } else {
        (a[0] as int) < (b[0] as int)
    }
}

/// The order is total: distinct names compare one way or the other.
proof fn lemma_chars_lt_total(a: Seq<char>, b: Seq<char>)
    ensures
        a != b ==> chars_lt(a, b) || chars_lt(b, a),
    decreases a.len() + b.len(),
{
    if a.len() == 0 && b.len() == 0 {
        assert(a =~= b);
    } else if a.len() == 0 {
        assert(chars_lt(a, b));
    } else if b.len() == 0 {
        assert(chars_lt(b, a));
    } else if a[0] != b[0] {
        assert(a[0] as int != b[0] as int);
        assert(chars_lt(a, b) || chars_lt(b, a));
    } else {
        let at = a.subrange(1, a.len() as int);
        let bt = b.subrange(1, b.len() as int);
        lemma_chars_lt_total(at, bt);
        if at == bt {
            assert(a.len() == b.len());
            assert forall|i: int| 0 <= i < a.len() implies a[i] == b[i] by {
                if i > 0 {
                    assert(a[i] == at[i - 1]);
                    assert(b[i] == bt[i - 1]);
                }
            }
            assert(a =~= b);
        }
    }
}

/// The order is transitive.
proof fn lemma_chars_lt_trans(a: Seq<char>, b: Seq<char>, c: Seq<char>)
    requires
        chars_lt(a, b),
        chars_lt(b, c),
    ensures
        chars_lt(a, c),
    decreases a.len() + b.len() + c.len(),
{
    if a.len() > 0 && b.len() > 0 && c.len() > 0 && a[0] == b[0] && b[0] == c[0] {
        lemma_chars_lt_trans(
            a.subrange(1, a.len() as int),
            b.subrange(1, b.len() as int),
            c.subrange(1, c.len() as int),
        );
    }
}

/// Where a new subject lands in the name-sorted list: the first index at or
/// after `k` whose name is not below the new one, or the length.
pub open spec fn subject_pos_from(scores: Seq<SubjectScores>, name: Seq<char>, k: int) -> int
    decreases scores.len() - k,
{
    if k < 0 || k >= scores.len() {
        scores.len() as int
    } else if chars_lt(scores[k].name@, name) {
        subject_pos_from(scores, name, k + 1)
    } else {
        k
    }
}

/// Where a new subject lands in the name-sorted list.
pub open spec fn subject_pos(scores: Seq<SubjectScores>, name: Seq<char>) -> int {
    subject_pos_from(scores, name, 0)
}

/// Every name before the landing position is strictly below the new one;
/// the name at it, if any, is not.
proof fn lemma_subject_pos_props(scores: Seq<SubjectScores>, name: Seq<char>, k: int)
    requires
        0 <= k <= scores.len(),
    ensures
        k <= subject_pos_from(scores, name, k) <= scores.len(),
        forall|j: int|
            k <= j < subject_pos_from(scores, name, k) ==> chars_lt(scores[j].name@, name),
        subject_pos_from(scores, name, k) < scores.len() ==> !chars_lt(
            scores[subject_pos_from(scores, name, k)].name@,
            name,
        ),
    decreases scores.len() - k,
{
    if k < scores.len() && chars_lt(scores[k].name@, name) {
        lemma_subject_pos_props(scores, name, k + 1);
    }
}

/// Lexicographic comparison of two names, character by character.
fn string_lt(a: &String, b: &String) -> (res: bool)
    ensures
        res == chars_lt(a@, b@),
{
    let an = a.as_str().unicode_len();
    let bn = b.as_str().unicode_len();
    proof {
        assert(a@.subrange(0, an as int) =~= a@);
        assert(b@.subrange(0, bn as int) =~= b@);
    }
    let mut i: usize = 0;
    while i < an && i < bn
        invariant
            i <= an,
            i <= bn,
            an == a@.len(),
            bn == b@.len(),
            chars_lt(a@, b@) == chars_lt(
                a@.subrange(i as int, an as int),
                b@.subrange(i as int, bn as int),
            ),
        decreases an - i,
    {
        let ca = a.as_str().get_char(i);
        let cb = b.as_str().get_char(i);
        proof {
            assert(a@.subrange(i as int, an as int)[0] == a@[i as int]);
            assert(b@.subrange(i as int, bn as int)[0] == b@[i as int]);
        }
        if (ca as u32) != (cb as u32) {
            return (ca as u32) < (cb as u32);
        }
        proof {
            let sa = a@.subrange(i as int, an as int);
            let sb = b@.subrange(i as int, bn as int);
            assert(sa.subrange(1, sa.len() as int) =~= a@.subrange(i as int + 1, an as int));
            assert(sb.subrange(1, sb.len() as int) =~= b@.subrange(i as int + 1, bn as int));
        }
        i = i + 1;
    }
    an < bn
}

/// The position a new subject's name sorts to in the list.
fn find_insert_pos(scores: &Vec<SubjectScores>, name: &String) -> (pos: usize)
    ensures
        pos as int == subject_pos(scores@, name@),
        pos <= scores@.len(),
{
    let n = scores.len();
    let mut pos: usize = 0;
    while pos < n
        invariant
            pos <= n,
            n == scores@.len(),
            subject_pos(scores@, name@) == subject_pos_from(scores@, name@, pos as int),
        decreases n - pos,
    {
        if !string_lt(&scores[pos].name, name) {
            return pos;
        }
        pos = pos + 1;
    }
    pos
}

/// The index of `name` in the subject list at or after `k`, or -1.
pub open spec fn find_subject_from(scores: Seq<SubjectScores>, name: Seq<char>, k: int) -> int
    decreases scores.len() - k,
{
    if k < 0 || k >= scores.len() {
        -1
    } else if scores[k].name@ == name {
        k
    } else {
        find_subject_from(scores, name, k + 1)
    }
}

/// The index of `name` in the subject list, or -1.
pub open spec fn find_subject(scores: Seq<SubjectScores>, name: Seq<char>) -> int {
    find_subject_from(scores, name, 0)
}

/// The index of the proof stored for `(name, block_index)` at or after `k`,
/// or -1.
pub open spec fn find_proof_from(
    proofs: Seq<ProofEntry>,
    name: Seq<char>,
    block_index: BlockIndex,
    k: int,
) -> int
    decreases proofs.len() - k,
{
    if k < 0 || k >= proofs.len() {
        -1
    } else if proofs[k].name@ == name && proofs[k].block_index == block_index {
        k
    } else {
        find_proof_from(proofs, name, block_index, k + 1)
    }
}

/// The index of the proof stored for `(name, block_index)`, or -1.
pub open spec fn find_proof(proofs: Seq<ProofEntry>, name: Seq<char>, block_index: BlockIndex) -> int {
    find_proof_from(proofs, name, block_index, 0)
}

/// The last entry among `es[0 .. k]` whose period is at most `block_index`.
/// On a sorted series this is the floor entry.
pub open spec fn floor_entry_upto(es: Seq<ScoreEntry>, block_index: BlockIndex, k: int) -> Option<
    ScoreEntry,
>
    decreases k,
{
    if k <= 0 || k > es.len() {
        None
    } else if es[k - 1].block_index <= block_index {
        Some(es[k - 1])
    } else {
        floor_entry_upto(es, block_index, k - 1)
    }
}

/// The subject's latest entry at or before `block_index`, if any.
pub open spec fn floor_entry(es: Seq<ScoreEntry>, block_index: BlockIndex) -> Option<ScoreEntry> {
    floor_entry_upto(es, block_index, es.len() as int)
}

/// The first index at or after `k` whose period is at least `block_index`,
/// or the length.
pub open spec fn insert_pos_from(es: Seq<ScoreEntry>, block_index: BlockIndex, k: int) -> int
    decreases es.len() - k,
{
    if k < 0 || k >= es.len() {
        es.len() as int
    } else if es[k].block_index >= block_index {
        k
    } else {
        insert_pos_from(es, block_index, k + 1)
    }
}

/// Where a write at `block_index` lands in a sorted series.
pub open spec fn insert_pos(es: Seq<ScoreEntry>, block_index: BlockIndex) -> int {
    insert_pos_from(es, block_index, 0)
}

/// A sorted series after a write: the entry at `block_index` overwritten if
/// present, inserted at its sorted position otherwise.
pub open spec fn upsert_entry(es: Seq<ScoreEntry>, block_index: BlockIndex, score: Score) -> Seq<
    ScoreEntry,
> {
    let p = insert_pos(es, block_index);
    let e = ScoreEntry { block_index, score };
    if p < es.len() && es[p].block_index == block_index {
        es.update(p, e)
    } else {
        es.subrange(0, p) + seq![e] + es.subrange(p, es.len() as int)
    }
}

/// One subject's series as committed records, in period order.
pub open spec fn subject_records(s: SubjectScores) -> Seq<RecordView> {
    Seq::new(
        s.entries@.len(),
        |j: int| RecordView {
            name: s.name@,
            block_index: s.entries@[j].block_index,
            score: s.entries@[j].score,
        },
    )
}

/// The whole ledger's first `k` subjects flattened into one ordered record
/// sequence, subject by subject, each subject's periods ascending.
pub open spec fn flatten_to(scores: Seq<SubjectScores>, k: int) -> Seq<RecordView>
    decreases k,
{
    if k <= 0 || k > scores.len() {
        Seq::empty()
    } else {
        flatten_to(scores, k - 1) + subject_records(scores[k - 1])
    }
}

/// The whole ledger flattened into the ordered record sequence that gets
/// committed: subjects in strictly increasing name order (the ledger's
/// invariant keeps them so), then periods ascending within each subject. The
/// order is total on content, so a well-formed ledger's committed sequence —
/// and with it its root — does not depend on the order its entries were
/// written in.
pub open spec fn ledger_records(c: ScoreContract) -> Seq<RecordView> {
    flatten_to(c.scores@, c.scores@.len() as int)
}

/// The stored proofs match the committed record list, entry by entry.
pub open spec fn proofs_match(proofs: Seq<ProofEntry>, recs: Seq<RecordView>) -> bool {
    &&& proofs.len() == recs.len()
    &&& forall|i: int|
        0 <= i < recs.len() ==> proofs[i].name@ == recs[i].name && proofs[i].block_index
            == recs[i].block_index && path_view(proofs[i].path@) == merkle_path(
            padded_leaves(recs),
            i,
        )
}

/// Flattening agrees on a shared prefix of two subject lists.
proof fn lemma_flatten_prefix(s1: Seq<SubjectScores>, s2: Seq<SubjectScores>, k: int)
    requires
        0 <= k <= s1.len(),
        k <= s2.len(),
        forall|i: int| 0 <= i < k ==> s1[i] == s2[i],
    ensures
        flatten_to(s1, k) == flatten_to(s2, k),
    decreases k,
{
    if k > 0 {
        lemma_flatten_prefix(s1, s2, k - 1);
    }
}

/// Changing one subject in place changes the flattened length by exactly the
/// change in that subject's own record count.
proof fn lemma_flatten_update_len(s1: Seq<SubjectScores>, s2: Seq<SubjectScores>, si: int, k: int)
    requires
        s1.len() == s2.len(),
        0 <= si < s1.len(),
        forall|i: int| 0 <= i < s1.len() && i != si ==> s1[i] == s2[i],
        0 <= k <= s1.len(),
    ensures
        k <= si ==> flatten_to(s2, k) == flatten_to(s1, k),
        k > si ==> flatten_to(s2, k).len() + subject_records(s1[si]).len() == flatten_to(
            s1,
            k,
        ).len() + subject_records(s2[si]).len(),
    decreases k,
{
    if k > 0 {
        lemma_flatten_update_len(s1, s2, si, k - 1);
    }
}

/// Inserting one subject changes the flattened length by exactly that
/// subject's own record count.
proof fn lemma_flatten_insert_len(s: Seq<SubjectScores>, x: SubjectScores, p: int, k: int)
    requires
        0 <= p <= s.len(),
        0 <= k <= s.len() + 1,
    ensures
        k <= p ==> flatten_to(s.insert(p, x), k) == flatten_to(s, k),
        k > p ==> flatten_to(s.insert(p, x), k).len() == flatten_to(s, k - 1).len()
            + subject_records(x).len(),
    decreases k,
{
    let ins = s.insert(p, x);
    if k > 0 {
        lemma_flatten_insert_len(s, x, p, k - 1);
        if k - 1 < p {
            assert(ins[k - 1] == s[k - 1]);
        } else if k - 1 == p {
            assert(ins[p] == x);
        } else {
            assert(ins[k - 1] == s[k - 2]);
        }
    }
}

/// When the search from `k` finds nothing, no subject at or after `k` has
/// the name.
proof fn lemma_find_subject_none(scores: Seq<SubjectScores>, name: Seq<char>, k: int)
    requires
        0 <= k,
        find_subject_from(scores, name, k) == -1,
    ensures
        forall|j: int| k <= j < scores.len() ==> scores[j].name@ != name,
    decreases scores.len() - k,
{
    if k < scores.len() {
        lemma_find_subject_none(scores, name, k + 1);
    }
}

/// Everything before the insertion position is strictly earlier; the entry
/// at it, if any, is at or after the written period.
proof fn lemma_insert_pos_from_props(es: Seq<ScoreEntry>, block_index: BlockIndex, k: int)
    requires
        0 <= k <= es.len(),
    ensures
        k <= insert_pos_from(es, block_index, k) <= es.len(),
        forall|j: int|
            k <= j < insert_pos_from(es, block_index, k) ==> es[j].block_index < block_index,
        insert_pos_from(es, block_index, k) < es.len() ==> es[insert_pos_from(
            es,
            block_index,
            k,
        )].block_index >= block_index,
    decreases es.len() - k,
{
    if k < es.len() && es[k].block_index < block_index {
        lemma_insert_pos_from_props(es, block_index, k + 1);
    }
}

/// A write keeps a sorted series sorted and grows it by at most one entry.
proof fn lemma_upsert_sorted(es: Seq<ScoreEntry>, block_index: BlockIndex, score: Score)
    requires
        entries_sorted(es),
    ensures
        entries_sorted(upsert_entry(es, block_index, score)),
        upsert_entry(es, block_index, score).len() <= es.len() + 1,
{
    lemma_insert_pos_from_props(es, block_index, 0);
    let p = insert_pos(es, block_index);
    let e = ScoreEntry { block_index, score };
    if p < es.len() && es[p].block_index == block_index {
        let up = es.update(p, e);
        assert forall|k: int, l: int| 0 <= k < l < up.len() implies up[k].block_index
            < up[l].block_index by {
            assert(es[k].block_index < es[l].block_index);
        }
    } else {
        let up = es.subrange(0, p) + seq![e] + es.subrange(p, es.len() as int);
        assert forall|k: int, l: int| 0 <= k < l < up.len() implies up[k].block_index
            < up[l].block_index by {
            if k < p {
                assert(up[k] == es[k]);
            }
            if l < p {
                assert(up[l] == es[l]);
            }
            if k > p {
                assert(up[k] == es[k - 1]);
            }
            if l > p {
                assert(up[l] == es[l - 1]);
            }
            if l == p {
                assert(up[l] == e);
            }
            if k == p {
                assert(up[k] == e);
                assert(p < es.len());
                assert(es[p].block_index > block_index);
                if l - 1 > p {
                    assert(es[l - 1].block_index > es[p].block_index);
                }
            }
        }
    }
}

impl ScoreContract {
    /// The ledger's invariant: subjects stand in strictly increasing name
    /// order (so names are also unique), names are short enough to
    /// serialize, and each subject's periods are strictly increasing.
    pub open spec fn wf(self) -> bool {
        &&& forall|i: int, j: int|
            0 <= i < j < self.scores@.len() ==> chars_lt(
                self.scores@[i].name@,
                self.scores@[j].name@,
            )
        &&& forall|i: int, j: int|
            0 <= i < j < self.scores@.len() ==> self.scores@[i].name@ != self.scores@[j].name@
        &&& forall|i: int| 0 <= i < self.scores@.len() ==> entries_sorted(self.scores@[i].entries@)
        &&& forall|i: int| 0 <= i < self.scores@.len() ==> name_len_ok(self.scores@[i].name@)
    }

    /// An empty ledger.
    pub fn new() -> (res: ScoreContract)
        ensures
            res.wf(),
            res.scores@.len() == 0,
            res.proofs@.len() == 0,
    {
        ScoreContract { scores: Vec::new(), proofs: Vec::new() }
    }

    /// The position of a subject in the list, if present.
    fn find_subject_exec(&self, name: &String) -> (res: Option<usize>)
        ensures
            match res {
                Some(i) => find_subject(self.scores@, name@) == i && i < self.scores@.len(),
                None => find_subject(self.scores@, name@) == -1,
            },
    {
        let n = self.scores.len();
        let mut k: usize = 0;
        while k < n
            invariant
                k <= n,
                n == self.scores@.len(),
                find_subject(self.scores@, name@) == find_subject_from(self.scores@, name@, k as int),
            decreases n - k,
        {
            if self.scores[k].name == *name {
                return Some(k);
            }
            k = k + 1;
        }
        None
    }

    /// The position of a stored proof, if present.
    fn find_proof_exec(&self, name: &String, block_index: BlockIndex) -> (res: Option<usize>)
        ensures
            match res {
                Some(i) => find_proof(self.proofs@, name@, block_index) == i && i
                    < self.proofs@.len(),
                None => find_proof(self.proofs@, name@, block_index) == -1,
            },
    {
        let n = self.proofs.len();
        let mut k: usize = 0;
        while k < n
            invariant
                k <= n,
                n == self.proofs@.len(),
                find_proof(self.proofs@, name@, block_index) == find_proof_from(
                    self.proofs@,
                    name@,
                    block_index,
                    k as int,
                ),
            decreases n - k,
        {
            if self.proofs[k].name == *name && self.proofs[k].block_index == block_index {
                return Some(k);
            }
            k = k + 1;
        }
        None
    }

    /// The subject's latest recorded entry at or before the requested
    /// period, with that record's stored proof. Absent when the subject has
    /// no entry at or before the period, or no proof is stored for it. The
    /// returned period is the entry's own, which may be earlier than the
    /// one requested. Never mutates state.
    pub fn prove_score(&self, name: String, block_index: BlockIndex) -> (res: Option<ScoreWithProof>)
        ensures
            ({
                let si = find_subject(self.scores@, name@);
                if si < 0 {
                    res is None
                } else {
                    match floor_entry(self.scores@[si].entries@, block_index) {
                        None => res is None,
                        Some(e) => {
                            let pi = find_proof(self.proofs@, name@, e.block_index);
                            if pi < 0 {
                                res is None
                            } else {
                                res matches Some(p) && p.name@ == name@ && p.block_index
                                    == e.block_index && p.score == e.score && p.proof@
                                    == self.proofs@[pi].path@
                            }
                        },
                    }
                }
            }),
    {
        let si = match self.find_subject_exec(&name) {
            Some(i) => i,
            None => {
                return None;
            },
        };
        // The floor lookup scans the sorted series from its latest entry.
        let entries = &self.scores[si].entries;
        let n = entries.len();
        let mut k: usize = n;
        while k > 0
            invariant
                k <= n,
                n == entries@.len(),
                si == find_subject(self.scores@, name@),
                si < self.scores@.len(),
                entries@ == self.scores@[si as int].entries@,
                floor_entry(entries@, block_index) == floor_entry_upto(
                    entries@,
                    block_index,
                    k as int,
                ),
            decreases k,
        {
            if entries[k - 1].block_index <= block_index {
                let e = entries[k - 1];
                let pi = match self.find_proof_exec(&name, e.block_index) {
                    Some(i) => i,
                    None => {
                        return None;
                    },
                };
                let path = self.proofs[pi].path.clone();
                proof {
                    assert(path@ =~= self.proofs@[pi as int].path@);
                }
                return Some(
                    ScoreWithProof {
                        name,
                        block_index: e.block_index,
                        score: e.score,
                        proof: path,
                    },
                );
            }
            k = k - 1;
        }
        None
    }

    /// Recommits the whole ledger: flattens every subject's series into one
    /// ordered record sequence, rebuilds the tree, and replaces the stored
    /// proof of every record with the newly produced path. Returns the new
    /// root. The series themselves are left untouched.
    pub fn compute_root(&mut self) -> (root: MerkleHash)
        requires
            old(self).wf(),
            ledger_records(*old(self)).len() <= usize::MAX / 2 + 1,
        ensures
            final(self).scores@ == old(self).scores@,
            root@ == records_root(ledger_records(*old(self))),
            proofs_match(final(self).proofs@, ledger_records(*old(self))),
    {
        let ghost recs = ledger_records(*old(self));
        let mut kv: Vec<((String, BlockIndex), Score)> = Vec::new();
        proof {
            assert(recs_view(kv@) =~= flatten_to(self.scores@, 0));
        }
        let ns = self.scores.len();
        let mut i: usize = 0;
        while i < ns
            invariant
                i <= ns,
                ns == self.scores@.len(),
                self.scores@ == old(self).scores@,
                self.proofs@ == old(self).proofs@,
                old(self).wf(),
                recs_view(kv@) == flatten_to(self.scores@, i as int),
                forall|t: int| 0 <= t < kv@.len() ==> name_len_ok(kv@[t].0.0@),
            decreases ns - i,
        {
            let ne = self.scores[i].entries.len();
            proof {
                assert(subject_records(self.scores@[i as int]).subrange(0, 0)
                    =~= Seq::<RecordView>::empty());
                assert(recs_view(kv@) =~= flatten_to(self.scores@, i as int) + subject_records(
                    self.scores@[i as int],
                ).subrange(0, 0));
            }
            let mut j: usize = 0;
            while j < ne
                invariant
                    j <= ne,
                    i < ns,
                    ns == self.scores@.len(),
                    self.scores@ == old(self).scores@,
                    self.proofs@ == old(self).proofs@,
                    old(self).wf(),
                    ne == self.scores@[i as int].entries@.len(),
                    recs_view(kv@) == flatten_to(self.scores@, i as int) + subject_records(
                        self.scores@[i as int],
                    ).subrange(0, j as int),
                    forall|t: int| 0 <= t < kv@.len() ==> name_len_ok(kv@[t].0.0@),
                decreases ne - j,
            {
                let name_c = self.scores[i].name.clone();
                let e = self.scores[i].entries[j];
                let ghost before = kv@;
                kv.push(((name_c, e.block_index), e.score));
                proof {
                    assert(recs_view(kv@) =~= recs_view(before).push(
                        rec_view(((name_c, e.block_index), e.score)),
                    ));
                    assert(rec_view(((name_c, e.block_index), e.score)) == subject_records(
                        self.scores@[i as int],
                    )[j as int]);
                    assert(flatten_to(self.scores@, i as int) + subject_records(
                        self.scores@[i as int],
                    ).subrange(0, j as int + 1) =~= recs_view(before).push(
                        subject_records(self.scores@[i as int])[j as int],
                    ));
                }
                j = j + 1;
            }
            proof {
                assert(subject_records(self.scores@[i as int]).subrange(0, ne as int)
                    =~= subject_records(self.scores@[i as int]));
                assert(flatten_to(self.scores@, i as int + 1) == flatten_to(
                    self.scores@,
                    i as int,
                ) + subject_records(self.scores@[i as int]));
            }
            i = i + 1;
        }
        proof {
            assert(recs_view(kv@) == recs);
            assert(kv@.len() == recs.len());
        }
        let (root, mut paths) = merklize(&kv);
        let ghost all_paths = paths@;
        self.proofs = Vec::new();
        let nk = kv.len();
        let mut k: usize = 0;
        while k < nk
            invariant
                k <= nk,
                nk == kv@.len(),
                recs == recs_view(kv@),
                self.scores@ == old(self).scores@,
                merklize_post(recs, root@, paths_view(all_paths)),
                paths@ == all_paths.skip(k as int),
                self.proofs@.len() == k,
                forall|j: int|
                    0 <= j < k ==> (#[trigger] self.proofs@[j]).name@ == recs[j].name
                        && self.proofs@[j].block_index == recs[j].block_index && path_view(
                        self.proofs@[j].path@,
                    ) == merkle_path(padded_leaves(recs), j),
            decreases nk - k,
        {
            let p = paths.remove(0);
            proof {
                assert(p == all_paths[k as int]);
                assert(paths@ =~= all_paths.skip(k as int + 1));
                assert(paths_view(all_paths)[k as int] == path_view(all_paths[k as int]@));
                assert(recs[k as int] == rec_view(kv@[k as int]));
            }
            let nm = kv[k].0.0.clone();
            let bi = kv[k].0.1;
            let ghost prev_proofs = self.proofs@;
            self.proofs.push(ProofEntry { name: nm, block_index: bi, path: p });
            proof {
                assert(self.proofs@[k as int].name@ == recs[k as int].name);
                assert(self.proofs@[k as int].block_index == recs[k as int].block_index);
                assert(path_view(self.proofs@[k as int].path@) == merkle_path(
                    padded_leaves(recs),
                    k as int,
                ));
                assert forall|j: int|
                    0 <= j < k as int + 1 implies (#[trigger] self.proofs@[j]).name@
                    == recs[j].name && self.proofs@[j].block_index == recs[j].block_index
                    && path_view(self.proofs@[j].path@) == merkle_path(
                    padded_leaves(recs),
                    j,
                ) by {
                    if j < k as int {
                        assert(self.proofs@[j] == prev_proofs[j]);
                        assert(prev_proofs[j].name@ == recs[j].name);
                        assert(prev_proofs[j].block_index == recs[j].block_index);
                        assert(path_view(prev_proofs[j].path@) == merkle_path(
                            padded_leaves(recs),
                            j,
                        ));
                    }
                }
            }
            k = k + 1;
        }
        root
    }

    /// Writes `score` at `block_index` in the subject's series (overwriting
    /// an entry at the same period), then recommits the whole ledger and
    /// returns the new root, to be published for the period of the write.
    pub fn record_score(&mut self, name: String, block_index: BlockIndex, score: Score) -> (root:
        MerkleHash)
        requires
            old(self).wf(),
            name_len_ok(name@),
            ledger_records(*old(self)).len() < usize::MAX / 2,
        ensures
            final(self).wf(),
            ({
                let si = find_subject(old(self).scores@, name@);
                let p = subject_pos(old(self).scores@, name@);
                if si < 0 {
                    &&& final(self).scores@.len() == old(self).scores@.len() + 1
                    &&& (forall|i: int| 0 <= i < p ==> final(self).scores@[i] == old(self).scores@[i])
                    &&& (forall|i: int|
                        p < i < final(self).scores@.len() ==> final(self).scores@[i] == old(
                            self,
                        ).scores@[i - 1])
                    &&& final(self).scores@[p].name@ == name@
                    &&& final(self).scores@[p].entries@ == seq![
                        (ScoreEntry { block_index, score }),
                    ]
                } else {
                    &&& final(self).scores@.len() == old(self).scores@.len()
                    &&& (forall|i: int|
                        0 <= i < old(self).scores@.len() && i != si ==> final(self).scores@[i]
                            == old(self).scores@[i])
                    &&& final(self).scores@[si].name == old(self).scores@[si].name
                    &&& final(self).scores@[si].entries@ == upsert_entry(
                        old(self).scores@[si].entries@,
                        block_index,
                        score,
                    )
                }
            }),
            root@ == records_root(ledger_records(*final(self))),
            proofs_match(final(self).proofs@, ledger_records(*final(self))),
    {
        let ghost old_scores = self.scores@;
        match self.find_subject_exec(&name) {
            None => {
                let mut entries: Vec<ScoreEntry> = Vec::new();
                entries.push(ScoreEntry { block_index, score });
                let pos = find_insert_pos(&self.scores, &name);
                let ghost p = pos as int;
                self.scores.insert(pos, SubjectScores { name, entries });
                proof {
                    lemma_find_subject_none(old_scores, name@, 0);
                    lemma_subject_pos_props(old_scores, name@, 0);
                    assert(self.scores@[p].entries@ =~= seq![(ScoreEntry { block_index, score })]);
                    assert(subject_records(self.scores@[p]).len() == 1);
                    assert forall|i: int, j: int|
                        0 <= i < j < self.scores@.len() implies chars_lt(
                        self.scores@[i].name@,
                        self.scores@[j].name@,
                    ) && self.scores@[i].name@ != self.scores@[j].name@ by {
                        if i == p && j > p {
                            assert(self.scores@[j] == old_scores[j - 1]);
                            assert(old_scores[p].name@ != name@);
                            assert(!chars_lt(old_scores[p].name@, name@));
                            lemma_chars_lt_total(name@, old_scores[p].name@);
                            assert(chars_lt(name@, old_scores[p].name@));
                            if j - 1 > p {
                                assert(chars_lt(old_scores[p].name@, old_scores[j - 1].name@));
                                lemma_chars_lt_trans(
                                    name@,
                                    old_scores[p].name@,
                                    old_scores[j - 1].name@,
                                );
                            }
                        } else if i < p && j == p {
                            assert(self.scores@[i] == old_scores[i]);
                            assert(chars_lt(old_scores[i].name@, name@));
                            assert(old_scores[i].name@ != name@);
                        } else if j < p {
                            assert(self.scores@[i] == old_scores[i]);
                            assert(self.scores@[j] == old_scores[j]);
                        } else if i < p {
                            assert(self.scores@[i] == old_scores[i]);
                            assert(self.scores@[j] == old_scores[j - 1]);
                        } else {
                            assert(self.scores@[i] == old_scores[i - 1]);
                            assert(self.scores@[j] == old_scores[j - 1]);
                        }
                    }
                    lemma_flatten_insert_len(
                        old_scores,
                        self.scores@[p],
                        p,
                        old_scores.len() as int + 1,
                    );
                    assert(old_scores.insert(p, self.scores@[p]) =~= self.scores@);
                }
            },
            Some(si) => {
                let ghost old_entries = self.scores@[si as int].entries@;
                let ne = self.scores[si].entries.len();
                let mut new_entries: Vec<ScoreEntry> = Vec::new();
                let mut k: usize = 0;
                while k < ne && self.scores[si].entries[k].block_index < block_index
                    invariant
                        k <= ne,
                        si < self.scores@.len(),
                        self.scores@ == old_scores,
                        old_entries == self.scores@[si as int].entries@,
                        ne == old_entries.len(),
                        new_entries@ == old_entries.subrange(0, k as int),
                        insert_pos(old_entries, block_index) == insert_pos_from(
                            old_entries,
                            block_index,
                            k as int,
                        ),
                    decreases ne - k,
                {
                    let ghost before = new_entries@;
                    new_entries.push(self.scores[si].entries[k]);
                    proof {
                        assert(new_entries@ =~= old_entries.subrange(0, k as int + 1));
                    }
                    k = k + 1;
                }
                let ghost p = k as int;
                proof {
                    assert(p == insert_pos(old_entries, block_index));
                }
                new_entries.push(ScoreEntry { block_index, score });
                let overwrote = k < ne && self.scores[si].entries[k].block_index == block_index;
                if overwrote {
                    k = k + 1;
                }
                let ghost base = k as int;
                while k < ne
                    invariant
                        0 <= p <= base <= k as int,
                        base <= p + 1,
                        base <= ne,
                        k <= ne,
                        p == insert_pos(old_entries, block_index),
                        base == p + 1 ==> p < ne && old_entries[p].block_index == block_index,
                        base == p ==> !(p < ne && old_entries[p].block_index == block_index),
                        si < self.scores@.len(),
                        self.scores@ == old_scores,
                        old_entries == self.scores@[si as int].entries@,
                        ne == old_entries.len(),
                        new_entries@ == old_entries.subrange(0, p) + seq![
                            (ScoreEntry { block_index, score }),
                        ] + old_entries.subrange(base, k as int),
                    decreases ne - k,
                {
                    let ghost before = new_entries@;
                    new_entries.push(self.scores[si].entries[k]);
                    proof {
                        assert(new_entries@ =~= old_entries.subrange(0, p) + seq![
                            (ScoreEntry { block_index, score }),
                        ] + old_entries.subrange(base, k as int + 1));
                    }
                    k = k + 1;
                }
                proof {
                    if base == p + 1 {
                        assert(old_entries.update(p, ScoreEntry { block_index, score })
                            =~= old_entries.subrange(0, p) + seq![
                            (ScoreEntry { block_index, score }),
                        ] + old_entries.subrange(p + 1, ne as int));
                    }
                    assert(new_entries@ == upsert_entry(old_entries, block_index, score));
                }
                self.scores[si].entries = new_entries;
                proof {
                    lemma_upsert_sorted(old_entries, block_index, score);
                    lemma_flatten_update_len(
                        old_scores,
                        self.scores@,
                        si as int,
                        old_scores.len() as int,
                    );
                    assert(subject_records(self.scores@[si as int]).len() <= subject_records(
                        old_scores[si as int],
                    ).len() + 1);
                }
            },
        }
        proof {
            assert(ledger_records(*self).len() <= ledger_records(*old(self)).len() + 1);
        }
        self.compute_root()
    }
}

impl Default for ScoreContract {
    /// An empty ledger.
    fn default() -> (res: Self)
        ensures
            res.wf(),
            res.scores@.len() == 0,
            res.proofs@.len() == 0,
    {
        ScoreContract::new()
    }
}

} // verus!
