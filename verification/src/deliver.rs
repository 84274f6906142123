//! Dissemination step of the beacon: encode the transcript into codewords and
//! attach to each the Merkle witness of its position.
use vstd::prelude::*;
use crate::merkle::{proof_len, chunks32, tree_clone, tree_leaves_len, create_proof_bytes, create_tree, leaf_hashes, proof_helpers, strings_view, tree_leaves};
use crate::pvss_agreement::{encode_leaves, encoder, encoder_accepts, encoder_size};

verus! {

/// The witness of the `i`-th codeword: the serialized inclusion proof of its
/// leaf in the tree over all codewords.
pub open spec fn witness_of(codewords: Seq<Seq<char>>, i: int) -> Seq<u8> {
    proof_helpers(leaf_hashes(codewords), seq![i as usize]).flatten()
}

/// Encodes the PVSS data into codewords and returns them with the Merkle
/// witness of each and the number of leaves of the tree.
pub fn deliver_encode(pvss_data: &[u8], _accum_value: String, committee_length: usize, medium: String) -> (r: (
    Vec<String>,
    Vec<Vec<u8>>,
    usize,
))
    requires
        encoder_accepts(pvss_data@.len(), committee_length as nat, medium@),
    ensures
        strings_view(r.0@) == encode_leaves(pvss_data@, committee_length as nat, medium@),
        r.0@.len() == encoder_size(committee_length as nat, medium@),
        r.1@.len() == r.0@.len(),
        forall|i: int| 0 <= i < r.1@.len() ==> #[trigger] r.1@[i]@ == witness_of(strings_view(r.0@), i),
        forall|i: int|
            0 <= i < r.1@.len() ==> (#[trigger] r.1@[i]@).len() % 32 == 0 && chunks32(r.1@[i]@)
                == proof_helpers(leaf_hashes(strings_view(r.0@)), seq![i as usize]),
        forall|i: int|
            0 <= i < r.1@.len() ==> (#[trigger] r.1@[i]@).len() == 32 * proof_len(r.0@.len(), i as nat),
        r.2 == r.0@.len(),
{
    let code_words = encoder(pvss_data, committee_length, medium);
    let merkle_tree = create_tree(code_words.clone());
    let ghost words = strings_view(code_words@);
    let mut witnesses_vec: Vec<Vec<u8>> = Vec::new();
    let mut index: usize = 0;
    while index < code_words.len()
        invariant
            index <= code_words@.len(),
            words == strings_view(code_words@),
            tree_leaves(merkle_tree) == leaf_hashes(words),
            witnesses_vec@.len() == index,
            forall|i: int| 0 <= i < index ==> #[trigger] witnesses_vec@[i]@ == witness_of(words, i),
            forall|i: int|
                0 <= i < index ==> (#[trigger] witnesses_vec@[i]@).len() % 32 == 0 && chunks32(witnesses_vec@[i]@)
                    == proof_helpers(leaf_hashes(words), seq![i as usize]),
            forall|i: int|
                0 <= i < index ==> (#[trigger] witnesses_vec@[i]@).len() == 32 * proof_len(
                    words.len(),
                    i as nat,
                ),
            leaf_hashes(words).len() == words.len(),
        decreases code_words.len() - index,
    {
        let mut indices_to_prove: Vec<usize> = Vec::new();
        indices_to_prove.push(index);
        proof {
            assert(indices_to_prove@ =~= seq![index]);
        }
        let witness_proof_bytes = create_proof_bytes(indices_to_prove, tree_clone(&merkle_tree));
        witnesses_vec.push(witness_proof_bytes);
        index = index + 1;
    }
    let n = tree_leaves_len(&merkle_tree);
    (code_words, witnesses_vec, n)
}

} // verus!
