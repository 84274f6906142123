//! Merkle commitments over codewords: leaves are SHA-256 digests of the
//! codeword strings, the accumulation value is the hexadecimal root, and a
//! witness is the serialized inclusion proof of one leaf.
use vstd::prelude::*;
use vstd::utf8::encode_utf8;
use rs_merkle::algorithms::Sha256;
use rs_merkle::{MerkleProof, MerkleTree};
use crate::text::hex_lower;
use sha2::Digest;
use sha2::digest::FixedOutput;

verus! {

/// A Merkle tree over SHA-256 (`rs_merkle::MerkleTree<Sha256>`), held
/// opaquely; its contents are known through `tree_leaves` and `tree_pending`.
#[verifier::external_body]
pub struct CodewordTree {
    tree: MerkleTree<Sha256>,
}

/// An inclusion proof (`rs_merkle::MerkleProof<Sha256>`), held opaquely; its
/// contents are known through `proof_hashes`.
#[verifier::external_body]
pub struct InclusionProof {
    proof: MerkleProof<Sha256>,
}

#[verifier::external_type_specification]
#[verifier::external_body]
pub struct ExMerkleError(rs_merkle::Error);

/// The SHA-256 digest of `data`.
pub uninterp spec fn sha256(data: Seq<u8>) -> Seq<u8>;

/// The committed leaves of a tree, in order.
pub uninterp spec fn tree_leaves(tree: CodewordTree) -> Seq<Seq<u8>>;

/// The leaves appended to a tree and not yet committed.
pub uninterp spec fn tree_pending(tree: CodewordTree) -> Seq<Seq<u8>>;

/// The root of the Merkle tree over `leaves`.
pub uninterp spec fn merkle_root(leaves: Seq<Seq<u8>>) -> Seq<u8>;

/// The helper hashes that prove the inclusion of the leaves at `indices` in
/// the Merkle tree over `leaves`.
pub uninterp spec fn proof_helpers(leaves: Seq<Seq<u8>>, indices: Seq<usize>) -> Seq<Seq<u8>>;

/// The hashes that a proof holds, in order.
pub uninterp spec fn proof_hashes(proof: InclusionProof) -> Seq<Seq<u8>>;

/// The number of helper hashes in the inclusion proof of leaf `i` of a tree
/// of `n` leaves: going up from the leaf, one for each layer of more than
/// one node in which the node on the path has a sibling (a last node without
/// one is carried up unhashed); a layer has half as many nodes as the one
/// below, rounded up.
pub open spec fn proof_len(n: nat, i: nat) -> nat
    decreases n,
{
    if n <= 1 {
        0
    } else {
        (if i % 2 == 1 || i + 1 < n {
            1nat
        } else {
            0nat
        }) + proof_len(((n + 1) / 2) as nat, i / 2)
    }
}

/// A leaf of a tree of at least two leaves has at least one helper hash.
pub proof fn lemma_proof_len_positive(n: nat, i: nat)
    requires
        n >= 2,
        i < n,
    ensures
        proof_len(n, i) >= 1,
    decreases n,
{
    if !(i % 2 == 1 || i + 1 < n) {
        lemma_proof_len_positive(((n + 1) / 2) as nat, i / 2);
    }
}

/// Whether a proof made of `hashes` shows that the leaves `leaf_hashes` sit at
/// `indices` of a tree of `total` leaves whose root is `root`.
pub uninterp spec fn merkle_verify(
    hashes: Seq<Seq<u8>>,
    root: Seq<u8>,
    indices: Seq<usize>,
    leaf_hashes: Seq<Seq<u8>>,
    total: usize,
) -> bool;

/// The views of a sequence of 32-byte hashes.
pub open spec fn hash_views(h: Seq<[u8; 32]>) -> Seq<Seq<u8>> {
    h.map_values(|x: [u8; 32]| x@)
}

/// The consecutive 32-byte pieces of `b`.
pub open spec fn chunks32(b: Seq<u8>) -> Seq<Seq<u8>> {
    Seq::new(b.len() / 32, |k: int| b.subrange(32 * k, 32 * k + 32))
}

/// The leaf that stands for a codeword: the digest of its UTF-8 bytes.
pub open spec fn leaf_hash(s: Seq<char>) -> Seq<u8> {
    sha256(encode_utf8(s))
}

/// The SHA-256 digest of `data`, computed by `sha2::Sha256`
/// (`new`, `update`, `finalize_fixed`); the result is named, not described.
#[verifier::external_body]
pub fn hash(data: &[u8]) -> (h: [u8; 32])
    ensures
        h@ == sha256(data@),
{
    let mut hasher = sha2::Sha256::new();
    hasher.update(data);
    <[u8; 32]>::from(hasher.finalize_fixed())
}

/// `MerkleTree::from_leaves`: a tree whose committed leaves are `leaves`,
/// in order, with nothing pending (it appends them and commits).
#[verifier::external_body]
fn tree_from_leaves(leaves: &[[u8; 32]]) -> (tree: CodewordTree)
    ensures
        tree_leaves(tree) == hash_views(leaves@),
        tree_pending(tree) == Seq::<Seq<u8>>::empty(),
{
    CodewordTree { tree: MerkleTree::<Sha256>::from_leaves(leaves) }
}

/// `MerkleTree::append`: adds `leaves` to the pending leaves and empties the
/// vector; the committed leaves stay as they were.
#[verifier::external_body]
fn tree_append(tree: &mut CodewordTree, leaves: &mut Vec<[u8; 32]>)
    ensures
        tree_leaves(*final(tree)) == tree_leaves(*old(tree)),
        tree_pending(*final(tree)) == tree_pending(*old(tree)) + hash_views(old(leaves)@),
        final(leaves)@.len() == 0,
{
    tree.tree.append(leaves);
}

/// `MerkleTree::commit`: the pending leaves join the committed ones, after
/// them, and nothing is left pending.
#[verifier::external_body]
fn tree_commit(tree: &mut CodewordTree)
    ensures
        tree_leaves(*final(tree)) == tree_leaves(*old(tree)) + tree_pending(*old(tree)),
        tree_pending(*final(tree)) == Seq::<Seq<u8>>::empty(),
{
    tree.tree.commit();
}

/// `MerkleTree::root_hex`: `None` for a tree without committed leaves, else
/// the root (32 bytes) in lower-case hexadecimal.
#[verifier::external_body]
fn tree_root_hex(tree: &CodewordTree) -> (r: Option<String>)
    ensures
        r is Some <==> tree_leaves(*tree).len() > 0,
        r matches Some(s) ==> s@ == hex_lower(merkle_root(tree_leaves(*tree))) && merkle_root(tree_leaves(*tree)).len() == 32,
{
    tree.tree.root_hex()
}

/// `MerkleTree::leaves_len`: the number of committed leaves.
#[verifier::external_body]
pub(crate) fn tree_leaves_len(tree: &CodewordTree) -> (n: usize)
    ensures
        n == tree_leaves(*tree).len(),
{
    tree.tree.leaves_len()
}

/// `MerkleTree::clone`: an equal tree.
#[verifier::external_body]
pub(crate) fn tree_clone(tree: &CodewordTree) -> (c: CodewordTree)
    ensures
        tree_leaves(c) == tree_leaves(*tree),
        tree_pending(c) == tree_pending(*tree),
{
    CodewordTree { tree: tree.tree.clone() }
}

/// `MerkleTree::proof`: the inclusion proof of the leaves at `indices`; its
/// hashes are 32 bytes each. For one committed leaf, the proof holds one
/// hash per layer in which the leaf's path has a sibling (`helper_node_tuples`
/// takes, layer by layer, the sibling of the path's node where that layer
/// has it).
#[verifier::external_body]
fn tree_proof(tree: &CodewordTree, indices: &[usize]) -> (p: InclusionProof)
    ensures
        proof_hashes(p) == proof_helpers(tree_leaves(*tree), indices@),
        forall|k: int| 0 <= k < proof_hashes(p).len() ==> (#[trigger] proof_hashes(p)[k]).len() == 32,
        indices@.len() == 1 && indices@[0] < tree_leaves(*tree).len() ==> proof_hashes(p).len()
            == proof_len(tree_leaves(*tree).len(), indices@[0] as nat),
{
    InclusionProof { proof: tree.tree.proof(indices) }
}

/// `MerkleProof::to_bytes`: the proof's hashes concatenated in order.
#[verifier::external_body]
fn proof_to_bytes(p: &InclusionProof) -> (b: Vec<u8>)
    ensures
        b@ == proof_hashes(*p).flatten(),
{
    p.proof.to_bytes()
}

/// `MerkleProof::try_from(Vec<u8>)`: succeeds exactly when the length is a
/// multiple of 32, and the proof then holds the consecutive 32-byte pieces.
#[verifier::external_body]
fn proof_from_bytes(bytes: Vec<u8>) -> (r: Result<InclusionProof, rs_merkle::Error>)
    ensures
        r is Ok <==> bytes@.len() % 32 == 0,
        r matches Ok(p) ==> proof_hashes(p) == chunks32(bytes@),
{
    MerkleProof::<Sha256>::try_from(bytes).map(|proof| InclusionProof { proof })
}

/// `MerkleProof::verify`: the verdict is named. Beside the name, one fact of
/// the crate is stated: a proof made by `MerkleTree::proof` for one leaf of a
/// tree verifies against that tree's root, that leaf and its leaf count.
#[verifier::external_body]
fn proof_verify(
    p: &InclusionProof,
    root: [u8; 32],
    indices: &[usize],
    leaf_hashes: &[[u8; 32]],
    total: usize,
) -> (ok: bool)
    ensures
        ok == merkle_verify(proof_hashes(*p), root@, indices@, hash_views(leaf_hashes@), total),
        forall|leaves: Seq<Seq<u8>>, i: usize|
            #![trigger proof_helpers(leaves, seq![i])]
            i < leaves.len() && proof_hashes(*p) == proof_helpers(leaves, seq![i]) && root@
                == merkle_root(leaves) && indices@ == seq![i] && hash_views(leaf_hashes@) == seq![
                leaves[i as int],
            ] && total == leaves.len() ==> ok,
{
    p.proof.verify(root, indices, leaf_hashes, total)
}

/// The characters of each string.
pub open spec fn strings_view(v: Seq<String>) -> Seq<Seq<char>> {
    v.map_values(|s: String| s@)
}

/// The leaves that stand for the given codewords.
pub open spec fn leaf_hashes(vals: Seq<Seq<char>>) -> Seq<Seq<u8>> {
    Seq::new(vals.len(), |i: int| leaf_hash(vals[i]))
}

/// The digests of the UTF-8 bytes of each string.
fn hash_all(leaf_values: &Vec<String>) -> (h: Vec<[u8; 32]>)
    ensures
        hash_views(h@) == leaf_hashes(strings_view(leaf_values@)),
        h@.len() == leaf_values@.len(),
{
    let mut h: Vec<[u8; 32]> = Vec::new();
    let mut i: usize = 0;
    while i < leaf_values.len()
        invariant
            i <= leaf_values.len(),
            hash_views(h@) == leaf_hashes(strings_view(leaf_values@)).subrange(0, i as int),
            h@.len() == i,
        decreases leaf_values.len() - i,
    {
        let d = hash(leaf_values[i].as_str().as_bytes());
        let ghost before = h@;
        h.push(d);
        proof {
            assert(hash_views(h@) =~= hash_views(before).push(d@));
            assert(leaf_hashes(strings_view(leaf_values@)).subrange(0, i + 1) =~= leaf_hashes(
                strings_view(leaf_values@),
            ).subrange(0, i as int).push(leaf_hash(leaf_values@[i as int]@)));
        }
        i = i + 1;
    }
    proof {
        assert(leaf_hashes(strings_view(leaf_values@)).subrange(0, i as int) =~= leaf_hashes(
            strings_view(leaf_values@),
        ));
    }
    h
}

/// Builds the tree whose leaves are the digests of the given codewords.
pub fn create_tree(leaf_values: Vec<String>) -> (tree: CodewordTree)
    ensures
        tree_leaves(tree) == leaf_hashes(strings_view(leaf_values@)),
        tree_pending(tree) == Seq::<Seq<u8>>::empty(),
{
    let leaves = hash_all(&leaf_values);
    tree_from_leaves(leaves.as_slice())
}

/// Appends the digests of further codewords to a tree and commits them.
pub fn append_to_tree(merkle_tree: CodewordTree, leaf_values: Vec<String>) -> (tree: CodewordTree)
    ensures
        tree_leaves(tree) == tree_leaves(merkle_tree) + tree_pending(merkle_tree) + leaf_hashes(
            strings_view(leaf_values@),
        ),
        tree_pending(tree) == Seq::<Seq<u8>>::empty(),
{
    let mut merkle_tree = merkle_tree;
    let mut leaves = hash_all(&leaf_values);
    tree_append(&mut merkle_tree, &mut leaves);
    tree_commit(&mut merkle_tree);
    merkle_tree
}

/// The root of a tree with at least one committed leaf, in lower-case
/// hexadecimal.
pub fn get_root(merkle_tree: CodewordTree) -> (root: String)
    requires
        tree_leaves(merkle_tree).len() > 0,
    ensures
        root@ == hex_lower(merkle_root(tree_leaves(merkle_tree))),
        merkle_root(tree_leaves(merkle_tree)).len() == 32,
{
    match tree_root_hex(&merkle_tree) {
        Some(r) => r,
        None => {
            assert(false);
            String::new()
        },
    }
}

/// The inclusion proof of the leaves at `indices_to_prove`, serialized.
pub fn create_proof_bytes(indices_to_prove: Vec<usize>, merkle_tree: CodewordTree) -> (bytes: Vec<u8>)
    ensures
        bytes@ == proof_helpers(tree_leaves(merkle_tree), indices_to_prove@).flatten(),
        bytes@.len() % 32 == 0,
        chunks32(bytes@) == proof_helpers(tree_leaves(merkle_tree), indices_to_prove@),
        indices_to_prove@.len() == 1 && indices_to_prove@[0] < tree_leaves(merkle_tree).len()
            ==> bytes@.len() == 32 * proof_len(tree_leaves(merkle_tree).len(), indices_to_prove@[0] as nat),
{
    let proof = tree_proof(&merkle_tree, indices_to_prove.as_slice());
    proof {
        lemma_chunks32_flatten(proof_hashes(proof));
    }
    proof_to_bytes(&proof)
}

/// Cutting the concatenation of 32-byte pieces into 32-byte pieces gives the
/// pieces back.
pub proof fn lemma_chunks32_flatten(h: Seq<Seq<u8>>)
    requires
        forall|k: int| 0 <= k < h.len() ==> (#[trigger] h[k]).len() == 32,
    ensures
        h.flatten().len() == 32 * h.len(),
        chunks32(h.flatten()) == h,
    decreases h.len(),
{
    if h.len() > 0 {
        let r = h.drop_first();
        assert forall|k: int| 0 <= k < r.len() implies (#[trigger] r[k]).len() == 32 by {
            assert(r[k] == h[k + 1]);
        }
        lemma_chunks32_flatten(r);
        let f = h.flatten();
        let g = r.flatten();
        assert(f == h[0] + g);
        assert(f.len() == 32 * h.len());
        assert(f.len() / 32 == h.len());
        assert forall|k: int| 0 <= k < h.len() implies #[trigger] chunks32(f)[k] == h[k] by {
            if k == 0 {
                assert(f.subrange(0, 32) =~= h[0]);
            } else {
                assert(chunks32(g)[k - 1] == r[k - 1]);
                assert(f.subrange(32 * k, 32 * k + 32) =~= g.subrange(32 * (k - 1), 32 * (k - 1) + 32));
            }
        }
        assert(chunks32(f) =~= h);
    }
}

/// Checks a serialized inclusion proof for the first of `leaf_values_to_prove`
/// against `root`, for a tree of `len` leaves.
pub fn merkle_proof(
    proof_bytes: Vec<u8>,
    indices_to_prove: Vec<usize>,
    leaf_values_to_prove: Vec<String>,
    root: [u8; 32],
    len: usize,
) -> (ok: bool)
    requires
        proof_bytes@.len() % 32 == 0,
        leaf_values_to_prove@.len() >= 1,
    ensures
        ok == merkle_verify(
            chunks32(proof_bytes@),
            root@,
            indices_to_prove@,
            seq![leaf_hash(leaf_values_to_prove@[0]@)],
            len,
        ),
        forall|leaves: Seq<Seq<u8>>, i: usize|
            #![trigger proof_helpers(leaves, seq![i])]
            i < leaves.len() && chunks32(proof_bytes@) == proof_helpers(leaves, seq![i]) && root@
                == merkle_root(leaves) && indices_to_prove@ == seq![i] && leaf_hash(
                leaf_values_to_prove@[0]@,
            ) == leaves[i as int] && len == leaves.len() ==> ok,
{
    let ghost pb = proof_bytes@;
    let proof = match proof_from_bytes(proof_bytes) {
        Ok(p) => p,
        Err(_) => {
            assert(false);
            return false;
        },
    };
    let hashes = hash_all(&leaf_values_to_prove);
    let mut first: Vec<[u8; 32]> = Vec::new();
    first.push(hashes[0]);
    proof {
        assert(hash_views(hashes@)[0] == leaf_hash(leaf_values_to_prove@[0]@));
        assert(hash_views(first@) =~= seq![hash_views(hashes@)[0]]);
    }
    proof_verify(&proof, root, indices_to_prove.as_slice(), first.as_slice(), len)
}

} // verus!
