use rs_merkle::algorithms::Sha256;
use rs_merkle::{Hasher, MerkleTree};
use rusting::merkle::{append_to_tree, create_proof_bytes, create_tree, get_root, hash, merkle_proof};

fn strings(v: &[&str]) -> Vec<String> {
    v.iter().map(|s| s.to_string()).collect()
}

fn reference_root(values: &[&str]) -> String {
    let leaves: Vec<[u8; 32]> = values.iter().map(|v| Sha256::hash(v.as_bytes())).collect();
    MerkleTree::<Sha256>::from_leaves(&leaves).root_hex().unwrap()
}

fn root_bytes(hex_root: &str) -> [u8; 32] {
    let mut out = [0u8; 32];
    for k in 0..32 {
        out[k] = u8::from_str_radix(&hex_root[2 * k..2 * k + 2], 16).unwrap();
    }
    out
}

#[test]
fn sha256_digest() {
    let h = hash(b"abc");
    let hexed: String = h.iter().map(|b| format!("{:02x}", b)).collect();
    assert_eq!(hexed, "ba7816bf8f01cfea414140de5dae2223b00361a396177a9cb410ff61f20015ad");
}

#[test]
fn root_of_codewords() {
    let values = ["[1, 2]", "[3, 4]", "[5, 6]", "[7, 8]"];
    let tree = create_tree(strings(&values));
    let root = get_root(tree);
    assert_eq!(root, reference_root(&values));
    assert_eq!(root.len(), 64);
}

#[test]
fn appending_leaves() {
    let tree = create_tree(strings(&["a", "b"]));
    let tree = append_to_tree(tree, strings(&["c"]));
    assert_eq!(get_root(tree), reference_root(&["a", "b", "c"]));
}

#[test]
fn proofs_verify_and_wrong_ones_do_not() {
    let values = ["w", "x", "y", "z"];
    let root = root_bytes(&reference_root(&values));
    for i in 0..values.len() {
        let proof = create_proof_bytes(vec![i], create_tree(strings(&values)));
        assert_eq!(proof.len() % 32, 0);
        assert!(merkle_proof(proof.clone(), vec![i], vec![values[i].to_string()], root, values.len()));
        assert!(!merkle_proof(proof.clone(), vec![i], vec!["other".to_string()], root, values.len()));
        let mut wrong_root = root;
        wrong_root[0] ^= 1;
        assert!(!merkle_proof(proof, vec![i], vec![values[i].to_string()], wrong_root, values.len()));
    }
}
