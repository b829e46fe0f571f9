//! Merkle commitment engine: builds a binary hash tree over an ordered list
//! of score records and yields, for each record, an inclusion path that lets
//! a verifier recompute the root from the record alone.
//!
//! The committed record shape is `((name, block_index), score)`. Leaves are
//! padded to the next power of two with sentinel leaves (the hash of a single
//! zero byte); an empty record list commits to the all-zero root.

use vstd::prelude::*;

verus! {

/// A 32-byte digest. Equality is byte equality.
pub type MerkleHash = [u8; 32];

/// The period counter supplied by the host (for instance a block height).
pub type BlockIndex = u64;

/// A score on a 0 to 100 scale (the type does not itself bound it).
pub type Score = u64;

/// Which side a path step's sibling occupies, relative to the hash
/// accumulated so far (reading leaf to root).
#[derive(Clone, Copy, Debug, PartialEq, Eq)]
pub enum Direction {
    Left,
    Right,
}

/// One step of an inclusion proof: the sibling subtree's hash and its side.
#[derive(Clone, Copy, Debug, PartialEq, Eq)]
pub struct MerklePathItem {
    pub hash: MerkleHash,
    pub direction: Direction,
}

/// An inclusion proof, ordered leaf to root. Empty for a one-leaf tree.
pub type MerklePath = Vec<MerklePathItem>;

/// The mathematical content of one committed record.
pub struct RecordView {
    pub name: Seq<char>,
    pub block_index: BlockIndex,
    pub score: Score,
}

/// The mathematical content of one path step.
pub struct StepView {
    pub sibling: Seq<u8>,
    pub direction: Direction,
}

/// The SHA-256 digest of a byte string, named abstractly: the digest is a
/// pure function of the input bytes alone.
pub uninterp spec fn sha256_of(bytes: Seq<u8>) -> Seq<u8>;

/// The canonical byte serialization of one record, named abstractly: it is a
/// pure function of the record's fields alone.
pub uninterp spec fn record_bytes(name: Seq<char>, block_index: BlockIndex, score: Score) -> Seq<u8>;

/// Relies on sha2::Sha256: the SHA-256 digest is a pure function of the
/// input bytes alone, exactly 32 bytes long, and never fails.
#[verifier::external_body]
pub fn hash(item: &[u8]) -> (res: MerkleHash)
    ensures
        res@ == sha256_of(item@),
{
    let digest = <sha2::Sha256 as sha2::Digest>::digest(item);
    let mut res = [0u8; 32];
    res.copy_from_slice(&digest);
    res
}

/// A name short enough to serialize: borsh writes a string's byte length as
/// a `u32`, and UTF-8 spends at most four bytes per character, so this bound
/// keeps the length prefix in range.
pub open spec fn name_len_ok(name: Seq<char>) -> bool {
    4 * name.len() <= u32::MAX
}

/// Relies on borsh::to_vec: the borsh encoding of `((name, block_index),
/// score)` is canonical and deterministic, a pure function of those fields
/// alone. It returns an error only when the name's UTF-8 length overflows
/// the `u32` length prefix, which the precondition rules out (at most four
/// bytes per character); writing into a fresh byte vector fails no other
/// way.
#[verifier::external_body]
fn serialize_record(item: &((String, BlockIndex), Score)) -> (res: Vec<u8>)
    requires
        name_len_ok(item.0.0@),
    ensures
        res@ == record_bytes(item.0.0@, item.0.1, item.1),
{
    borsh::to_vec(item).expect("the name's byte length fits the length prefix")
}

/// What one record looks like to the mathematical model.
pub open spec fn rec_view(t: ((String, BlockIndex), Score)) -> RecordView {
    RecordView { name: t.0.0@, block_index: t.0.1, score: t.1 }
}

/// The record list as the mathematical model sees it.
pub open spec fn recs_view(s: Seq<((String, BlockIndex), Score)>) -> Seq<RecordView> {
    s.map_values(|t: ((String, BlockIndex), Score)| rec_view(t))
}

/// The hash of two child hashes, left before right.
pub open spec fn spec_combine(left: Seq<u8>, right: Seq<u8>) -> Seq<u8> {
    sha256_of(left + right)
}

/// A real record's leaf hash: the digest of its serialization.
pub open spec fn leaf_hash(r: RecordView) -> Seq<u8> {
    sha256_of(record_bytes(r.name, r.block_index, r.score))
}

/// A sentinel (padding) leaf's hash: the digest of a single zero byte.
pub open spec fn sentinel_leaf() -> Seq<u8> {
    sha256_of(seq![0u8])
}

/// The fixed root of an empty commitment: 32 zero bytes, not the digest of
/// any input.
pub open spec fn empty_root() -> Seq<u8> {
    Seq::new(32, |i: int| 0u8)
}

/// The mathematical content of one exec path step.
pub open spec fn step_view(it: MerklePathItem) -> StepView {
    StepView { sibling: it.hash@, direction: it.direction }
}

/// The mathematical content of an exec path.
pub open spec fn path_view(p: Seq<MerklePathItem>) -> Seq<StepView> {
    p.map_values(|it: MerklePathItem| step_view(it))
}

/// The contents of each exec path of a list, as the model sees them.
pub open spec fn paths_view(ps: Seq<MerklePath>) -> Seq<Seq<StepView>> {
    ps.map_values(|p: MerklePath| path_view(p@))
}

/// One verification step: combine the accumulated hash with the sibling on
/// the recorded side.
pub open spec fn apply_step(h: Seq<u8>, s: StepView) -> Seq<u8> {
    match s.direction {
        Direction::Left => spec_combine(s.sibling, h),
        Direction::Right => spec_combine(h, s.sibling),
    }
}

/// Folding a whole path over a leaf hash, leaf to root.
pub open spec fn fold_path(leaf: Seq<u8>, path: Seq<StepView>) -> Seq<u8>
    decreases path.len(),
{
    if path.len() == 0 {
        leaf
    } else {
        fold_path(apply_step(leaf, path[0]), path.subrange(1, path.len() as int))
    }
}

/// Whether `n` is a power of two.
pub open spec fn is_pow2(n: nat) -> bool
    decreases n,
{
    if n == 0 {
        false
    } else if n == 1 {
        true
    } else {
        n % 2 == 0 && is_pow2(n / 2)
    }
}

/// The first power of two at least `n`, reached by doubling from `m`.
pub open spec fn pow2_at_least(m: nat, n: nat) -> nat
    decreases (if m < n { n - m } else { 0 }),
{
    if m >= n || m == 0 {
        m
    } else {
        pow2_at_least(2 * m, n)
    }
}

/// The smallest power of two at least `n` (and at least 1).
pub open spec fn next_pow2(n: nat) -> nat {
    pow2_at_least(1, n)
}

/// The leaf hashes the tree is built over: real leaves first, sentinel
/// leaves after, padded to the next power of two.
pub open spec fn padded_leaves(recs: Seq<RecordView>) -> Seq<Seq<u8>> {
    Seq::new(
        next_pow2(recs.len()),
        |i: int| if i < recs.len() { leaf_hash(recs[i]) } else { sentinel_leaf() },
    )
}

/// The root of a perfect binary hash tree over `leaves` (meaningful when the
/// length is a power of two).
pub open spec fn merkle_root(leaves: Seq<Seq<u8>>) -> Seq<u8>
    decreases leaves.len(),
{
    if leaves.len() <= 1 {
        leaves[0]
    } else {
        let half = leaves.len() as int / 2;
        spec_combine(
            merkle_root(leaves.subrange(0, half)),
            merkle_root(leaves.subrange(half, leaves.len() as int)),
        )
    }
}

/// The inclusion path of the leaf at `pos` in a perfect binary hash tree
/// over `leaves`, ordered leaf to root.
pub open spec fn merkle_path(leaves: Seq<Seq<u8>>, pos: int) -> Seq<StepView>
    decreases leaves.len(),
{
    if leaves.len() <= 1 {
        Seq::empty()
    } else {
        let half = leaves.len() as int / 2;
        if pos < half {
            merkle_path(leaves.subrange(0, half), pos).push(
                StepView {
                    sibling: merkle_root(leaves.subrange(half, leaves.len() as int)),
                    direction: Direction::Right,
                },
            )
        } else {
            merkle_path(leaves.subrange(half, leaves.len() as int), pos - half).push(
                StepView {
                    sibling: merkle_root(leaves.subrange(0, half)),
                    direction: Direction::Left,
                },
            )
        }
    }
}

/// The root a record list commits to: the tree root over its padded leaves,
/// or the fixed empty sentinel for no records.
pub open spec fn records_root(recs: Seq<RecordView>) -> Seq<u8> {
    if recs.len() == 0 {
        empty_root()
    } else {
        merkle_root(padded_leaves(recs))
    }
}

/// Everything the commitment pins down: the root and the exact contents of
/// every returned path.
pub open spec fn merklize_post(recs: Seq<RecordView>, root: Seq<u8>, paths: Seq<Seq<StepView>>) -> bool {
    &&& paths.len() == recs.len()
    &&& root == records_root(recs)
    &&& forall|i: int| 0 <= i < recs.len() ==> paths[i] == merkle_path(padded_leaves(recs), i)
}

/// Appending a step to a path folds as one more combination on top of the
/// shorter path's result.
pub proof fn lemma_fold_path_push(leaf: Seq<u8>, path: Seq<StepView>, s: StepView)
    ensures
        fold_path(leaf, path.push(s)) == apply_step(fold_path(leaf, path), s),
    decreases path.len(),
{
    if path.len() == 0 {
        assert(path.push(s)[0] == s);
        assert(path.push(s).subrange(1, 1) =~= Seq::<StepView>::empty());
        assert(fold_path(leaf, path.push(s)) == fold_path(
            apply_step(leaf, s),
            path.push(s).subrange(1, 1),
        ));
        assert(fold_path(apply_step(leaf, s), Seq::<StepView>::empty()) == apply_step(leaf, s));
        assert(fold_path(leaf, path) == leaf);
    } else {
        let rest = path.subrange(1, path.len() as int);
        assert(path.push(s)[0] == path[0]);
        assert(path.push(s).subrange(1, path.len() as int + 1) =~= rest.push(s));
        assert(fold_path(leaf, path.push(s)) == fold_path(
            apply_step(leaf, path[0]),
            rest.push(s),
        ));
        lemma_fold_path_push(apply_step(leaf, path[0]), rest, s);
        assert(fold_path(leaf, path) == fold_path(apply_step(leaf, path[0]), rest));
    }
}

/// In a perfect tree, the path built for a leaf folds from that leaf back to
/// the tree's root.
pub proof fn lemma_merkle_path_verifies(leaves: Seq<Seq<u8>>, pos: int)
    requires
        is_pow2(leaves.len()),
        0 <= pos < leaves.len(),
    ensures
        fold_path(leaves[pos], merkle_path(leaves, pos)) == merkle_root(leaves),
    decreases leaves.len(),
{
    if leaves.len() == 1 {
        assert(merkle_path(leaves, pos) =~= Seq::<StepView>::empty());
    } else {
        assert(leaves.len() % 2 == 0 && is_pow2((leaves.len() / 2) as nat));
        let half = leaves.len() as int / 2;
        let left = leaves.subrange(0, half);
        let right = leaves.subrange(half, leaves.len() as int);
        if pos < half {
            lemma_merkle_path_verifies(left, pos);
            let s = StepView { sibling: merkle_root(right), direction: Direction::Right };
            lemma_fold_path_push(leaves[pos], merkle_path(left, pos), s);
            assert(left[pos] == leaves[pos]);
        } else {
            lemma_merkle_path_verifies(right, pos - half);
            let s = StepView { sibling: merkle_root(left), direction: Direction::Left };
            lemma_fold_path_push(leaves[pos], merkle_path(right, pos - half), s);
            assert(right[pos - half] == leaves[pos]);
        }
    }
}

/// Doubling from a power of two lands on the first power of two at least
/// `n`, which is itself a power of two no smaller than `n`.
proof fn lemma_pow2_at_least_bounds(m: nat, n: nat)
    requires
        m >= 1,
        is_pow2(m),
    ensures
        is_pow2(pow2_at_least(m, n)),
        pow2_at_least(m, n) >= n,
    decreases (if m < n { n - m } else { 0 }),
{
    if m >= n {
    } else {
        assert((2 * m) % 2 == 0);
        assert(is_pow2(2 * m));
        lemma_pow2_at_least_bounds(2 * m, n);
    }
}

/// The padded leaf count is a power of two and covers every record.
pub proof fn lemma_next_pow2_bounds(n: nat)
    ensures
        is_pow2(next_pow2(n)),
        next_pow2(n) >= n,
        next_pow2(n) >= 1,
{
    lemma_pow2_at_least_bounds(1, n);
}

/// Round trip, stated over the mathematical model: for a non-empty record
/// list, the path the commitment assigns to any record folds from that
/// record's leaf hash back to the commitment's root.
pub proof fn lemma_commitment_round_trip(recs: Seq<RecordView>, i: int)
    requires
        recs.len() >= 1,
        0 <= i < recs.len(),
    ensures
        fold_path(leaf_hash(recs[i]), merkle_path(padded_leaves(recs), i)) == records_root(recs),
{
    lemma_next_pow2_bounds(recs.len());
    assert(padded_leaves(recs)[i] == leaf_hash(recs[i]));
    lemma_merkle_path_verifies(padded_leaves(recs), i);
}

/// Determinism: the commitment's contract pins both the root and the
/// contents of every path, so any two outputs that meet it on the same
/// record list are equal.
pub proof fn lemma_build_deterministic(
    recs: Seq<RecordView>,
    root1: Seq<u8>,
    paths1: Seq<Seq<StepView>>,
    root2: Seq<u8>,
    paths2: Seq<Seq<StepView>>,
)
    requires
        merklize_post(recs, root1, paths1),
        merklize_post(recs, root2, paths2),
    ensures
        root1 == root2,
        paths1 == paths2,
{
    assert(paths1 =~= paths2);
}

/// Byte equality of two digests.
fn hash_eq(a: &MerkleHash, b: &MerkleHash) -> (res: bool)
    ensures
        res == (a@ == b@),
{
    let mut i: usize = 0;
    while i < 32
        invariant
            i <= 32,
            forall|j: int| 0 <= j < i ==> a@[j] == b@[j],
        decreases 32 - i,
    {
        if a[i] != b[i] {
            return false;
        }
        i = i + 1;
    }
    proof {
        assert(a@ =~= b@);
    }
    true
}

/// The hash of two child hashes: the digest of their concatenation, left
/// before right.
pub fn combine_hash(hash1: MerkleHash, hash2: MerkleHash) -> (res: MerkleHash)
    ensures
        res@ == spec_combine(hash1@, hash2@),
{
    let mut combined: Vec<u8> = Vec::new();
    proof {
        assert(combined@ =~= hash1@.subrange(0, 0));
    }
    let mut i: usize = 0;
    while i < 32
        invariant
            i <= 32,
            combined@ == hash1@.subrange(0, i as int),
        decreases 32 - i,
    {
        combined.push(hash1[i]);
        proof {
            assert(combined@ =~= hash1@.subrange(0, i + 1));
        }
        i = i + 1;
    }
    proof {
        assert(combined@ =~= hash1@.subrange(0, 32) + hash2@.subrange(0, 0));
    }
    let mut j: usize = 0;
    while j < 32
        invariant
            j <= 32,
            combined@ == hash1@.subrange(0, 32) + hash2@.subrange(0, j as int),
        decreases 32 - j,
    {
        combined.push(hash2[j]);
        proof {
            assert(combined@ =~= hash1@.subrange(0, 32) + hash2@.subrange(0, j + 1));
        }
        j = j + 1;
    }
    proof {
        assert(combined@ =~= hash1@ + hash2@);
    }
    hash(combined.as_slice())
}

/// The root of the subtree over `hashes[start .. start + len]`.
fn subtree_root(hashes: &Vec<MerkleHash>, start: usize, len: usize) -> (root: MerkleHash)
    requires
        is_pow2(len as nat),
        start + len <= hashes.len(),
    ensures
        root@ == merkle_root(hview(hashes@).subrange(start as int, start as int + len as int)),
    decreases len,
{
    if len == 1 {
        proof {
            assert(hview(hashes@).subrange(start as int, start as int + 1)[0] == hashes@[start as int]@);
        }
        hashes[start]
    } else {
        proof {
            assert(len as nat % 2 == 0 && is_pow2((len as nat) / 2));
        }
        let half = len / 2;
        let l = subtree_root(hashes, start, half);
        let r = subtree_root(hashes, start + half, half);
        proof {
            let leaves = hview(hashes@).subrange(start as int, start as int + len as int);
            assert(leaves.subrange(0, half as int) =~= hview(hashes@).subrange(
                start as int,
                start as int + half as int,
            ));
            assert(leaves.subrange(half as int, len as int) =~= hview(hashes@).subrange(
                start as int + half as int,
                start as int + half as int + half as int,
            ));
        }
        combine_hash(l, r)
    }
}

/// The leaf hashes as the model sees them.
pub open spec fn hview(hs: Seq<MerkleHash>) -> Seq<Seq<u8>> {
    hs.map_values(|h: MerkleHash| h@)
}

/// The inclusion path of the leaf at `start + pos` within the subtree over
/// `hashes[start .. start + len]`.
fn leaf_path(hashes: &Vec<MerkleHash>, start: usize, len: usize, pos: usize) -> (path: MerklePath)
    requires
        is_pow2(len as nat),
        start + len <= hashes.len(),
        pos < len,
    ensures
        path_view(path@) == merkle_path(
            hview(hashes@).subrange(start as int, start as int + len as int),
            pos as int,
        ),
    decreases len,
{
    if len == 1 {
        let path: MerklePath = Vec::new();
        proof {
            assert(path_view(path@) =~= Seq::<StepView>::empty());
        }
        path
    } else {
        proof {
            assert(len as nat % 2 == 0 && is_pow2((len as nat) / 2));
        }
        let half = len / 2;
        let ghost leaves = hview(hashes@).subrange(start as int, start as int + len as int);
        proof {
            assert(leaves.subrange(0, half as int) =~= hview(hashes@).subrange(
                start as int,
                start as int + half as int,
            ));
            assert(leaves.subrange(half as int, len as int) =~= hview(hashes@).subrange(
                start as int + half as int,
                start as int + half as int + half as int,
            ));
        }
        if pos < half {
            let mut path = leaf_path(hashes, start, half, pos);
            let sibling = subtree_root(hashes, start + half, half);
            let item = MerklePathItem { hash: sibling, direction: Direction::Right };
            let ghost before = path@;
            path.push(item);
            proof {
                assert(path_view(path@) =~= path_view(before).push(step_view(item)));
            }
            path
        } else {
            let mut path = leaf_path(hashes, start + half, half, pos - half);
            let sibling = subtree_root(hashes, start, half);
            let item = MerklePathItem { hash: sibling, direction: Direction::Left };
            let ghost before = path@;
            path.push(item);
            proof {
                assert(path_view(path@) =~= path_view(before).push(step_view(item)));
            }
            path
        }
    }
}

/// Builds the commitment over an ordered record list: the root, and one
/// inclusion path per record, in the same order. An empty list commits to
/// the fixed all-zero root with no paths.
pub fn merklize(arr: &Vec<((String, BlockIndex), Score)>) -> (res: (MerkleHash, Vec<MerklePath>))
    requires
        arr@.len() <= usize::MAX / 2 + 1,
        forall|i: int| 0 <= i < arr@.len() ==> name_len_ok(arr@[i].0.0@),
    ensures
        merklize_post(recs_view(arr@), res.0@, paths_view(res.1@)),
        res.1@.len() == arr@.len(),
        forall|i: int|
            0 <= i < arr@.len() ==> fold_path(
                leaf_hash(rec_view(arr@[i])),
                path_view(res.1@[i]@),
            ) == res.0@,
        arr@.len() == 0 ==> res.0@ == empty_root(),
        arr@.len() == 1 ==> res.0@ == leaf_hash(rec_view(arr@[0])) && res.1@[0]@.len() == 0,
{
    let n = arr.len();
    if n == 0 {
        let root = [0u8; 32];
        let paths: Vec<MerklePath> = Vec::new();
        proof {
            assert(root@ =~= empty_root());
            assert(paths_view(paths@) =~= Seq::<Seq<StepView>>::empty());
        }
        return (root, paths);
    }
    let ghost recs = recs_view(arr@);
    let mut m: usize = 1;
    while m < n
        invariant
            1 <= m,
            is_pow2(m as nat),
            n <= usize::MAX / 2 + 1,
            pow2_at_least(m as nat, n as nat) == next_pow2(n as nat),
        decreases (if m < n { n - m } else { 0 }),
    {
        proof {
            assert((2 * m as nat) % 2 == 0);
            assert(is_pow2(2 * m as nat));
            assert(pow2_at_least(m as nat, n as nat) == pow2_at_least(2 * m as nat, n as nat));
        }
        m = m * 2;
    }
    proof {
        assert(next_pow2(n as nat) == m as nat);
        assert(recs.len() == n as nat);
    }
    let mut hashes: Vec<MerkleHash> = Vec::new();
    let mut i: usize = 0;
    while i < m
        invariant
            i <= m,
            n <= m,
            n == arr@.len(),
            forall|j: int| 0 <= j < arr@.len() ==> name_len_ok(arr@[j].0.0@),
            recs == recs_view(arr@),
            hashes@.len() == i,
            forall|j: int| 0 <= j < i ==> hashes@[j]@ == padded_leaves(recs)[j],
            next_pow2(recs.len()) == m as nat,
        decreases m - i,
    {
        if i < n {
            let ser = serialize_record(&arr[i]);
            hashes.push(hash(ser.as_slice()));
        } else {
            let zero: [u8; 1] = [0u8; 1];
            proof {
                assert(zero@ =~= seq![0u8]);
            }
            hashes.push(hash(zero.as_slice()));
        }
        i = i + 1;
    }
    proof {
        assert(hview(hashes@) =~= padded_leaves(recs));
        assert(hview(hashes@).subrange(0, m as int) =~= hview(hashes@));
        lemma_next_pow2_bounds(recs.len());
    }
    let root = subtree_root(&hashes, 0, m);
    let mut paths: Vec<MerklePath> = Vec::new();
    let mut k: usize = 0;
    while k < n
        invariant
            k <= n,
            n == arr@.len(),
            recs == recs_view(arr@),
            n <= m,
            m <= hashes@.len(),
            is_pow2(m as nat),
            hview(hashes@).subrange(0, m as int) == padded_leaves(recs),
            paths@.len() == k,
            forall|j: int| 0 <= j < k ==> path_view(paths@[j]@) == merkle_path(padded_leaves(recs), j),
        decreases n - k,
    {
        let p = leaf_path(&hashes, 0, m, k);
        paths.push(p);
        k = k + 1;
    }
    proof {
        assert(paths_view(paths@).len() == recs.len());
        assert forall|j: int| 0 <= j < recs.len() implies paths_view(paths@)[j] == merkle_path(
            padded_leaves(recs),
            j,
        ) by {
            assert(path_view(paths@[j]@) == merkle_path(padded_leaves(recs), j));
        }
        assert(root@ == merkle_root(padded_leaves(recs)));
        assert(merklize_post(recs, root@, paths_view(paths@)));
        assert forall|j: int| 0 <= j < arr@.len() implies fold_path(
            leaf_hash(rec_view(arr@[j])),
            path_view(paths@[j]@),
        ) == root@ by {
            assert(recs[j] == rec_view(arr@[j]));
            lemma_commitment_round_trip(recs, j);
        }
        if n == 1 {
            assert(padded_leaves(recs).len() == 1);
            assert(root@ == padded_leaves(recs)[0]);
            assert(merkle_path(padded_leaves(recs), 0) =~= Seq::<StepView>::empty());
            assert(path_view(paths@[0]@).len() == paths@[0]@.len());
        }
    }
    (root, paths)
}

/// Verifies one record against a root using a supplied path: folds the
/// path's siblings over the record's leaf hash and compares with the root.
/// Side-effect free, and total for every name below the serialization
/// machine limit; a wrong path simply yields `false`.
pub fn verify_path(root: MerkleHash, path: &MerklePath, item: &((String, BlockIndex), Score)) -> (res:
    bool)
    requires
        name_len_ok(item.0.0@),
    ensures
        res == (fold_path(leaf_hash(rec_view(*item)), path_view(path@)) == root@),
{
    let ser = serialize_record(item);
    let mut h = hash(ser.as_slice());
    let n = path.len();
    let mut i: usize = 0;
    proof {
        assert(path_view(path@).subrange(0, 0) =~= Seq::<StepView>::empty());
    }
    while i < n
        invariant
            i <= n,
            n == path@.len(),
            h@ == fold_path(leaf_hash(rec_view(*item)), path_view(path@).subrange(0, i as int)),
        decreases n - i,
    {
        let it = path[i];
        let newh = match it.direction {
            Direction::Left => combine_hash(it.hash, h),
            Direction::Right => combine_hash(h, it.hash),
        };
        proof {
            assert(path_view(path@).subrange(0, i + 1) =~= path_view(path@).subrange(
                0,
                i as int,
            ).push(step_view(path@[i as int])));
            lemma_fold_path_push(
                leaf_hash(rec_view(*item)),
                path_view(path@).subrange(0, i as int),
                step_view(path@[i as int]),
            );
        }
        h = newh;
        i = i + 1;
    }
    proof {
        assert(path_view(path@).subrange(0, n as int) =~= path_view(path@));
    }
    hash_eq(&h, &root)
}

} // verus!
