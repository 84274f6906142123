use rusting::beacon::beacon_value;
use sha3::digest::{ExtendableOutput, Update, XofReader};
use sha3::Shake256;

#[test]
fn beacon_is_the_shake256_prefix_in_hex() {
    let sigma = b"reconstructed secret bytes";
    let (bytes, text) = beacon_value(sigma);
    let mut hasher = Shake256::default();
    hasher.update(sigma);
    let mut expected = [0u8; 32];
    hasher.finalize_xof().read(&mut expected);
    assert_eq!(bytes, expected);
    let hexed: String = expected.iter().map(|b| format!("{:02x}", b)).collect();
    assert_eq!(text, hexed);
    assert_eq!(text.len(), 64);
}
