use rusting::adversary::{create_prob, draw_hits, generate_random_string, modify_accum, modify_string};
use rusting::committees::{committee_table, own_address, parse_ports};
use rusting::keys::{create_keys, key_text_of, try_verify_schnorrkel_sign, _create_adversarial_key, _verify_schnorrkel_sign};
use rusting::message::PeerAddress;
use rusting::retrieve::{codeword_retrieve, retrieved_bytes_of};

fn s(v: &[&str]) -> Vec<String> {
    v.iter().map(|x| x.to_string()).collect()
}

#[test]
fn committees_of_the_node() {
    let lines = s(&[
        "1-10.0.0.1 7l 3l 1",
        "2-10.0.0.2 7l 3r 1",
        "3-10.0.0.3 8r 4l 1",
        "4-10.0.0.4 8r 4r 1",
    ]);
    let table = committee_table(&lines, &"10.0.0.2".to_string());
    assert_eq!(
        table,
        vec![
            (1, "10.0.0.1 10.0.0.2 10.0.0.3 10.0.0.4".to_string()),
            (3, "10.0.0.1 10.0.0.2".to_string()),
            (7, "10.0.0.1 10.0.0.2".to_string()),
        ]
    );
    let table = committee_table(&lines, &"10.0.0.9".to_string());
    assert!(table.is_empty());
}

#[test]
fn own_address_from_the_node_file() {
    let lines = s(&["x-10.0.0.1", "y-10.0.0.2", "z-10.0.0.3"]);
    let args = s(&["prog", "nok", "2", "3", "03282129", "dev", "ignored", "10", "0"]);
    let a = own_address(&lines, &args);
    assert_eq!(a.host, "10.0.0.2");
    assert_eq!(a.port, 7002);
}

#[test]
fn port_lists() {
    let lines = s(&["7001", " 7002 ", "x", "4294967296"]);
    assert_eq!(parse_ports(&lines, true), vec![7001, 7002]);
    assert_eq!(parse_ports(&lines, false), vec![7001]);
}

#[test]
fn keys_are_written_and_checked() {
    let (pk_text, sig_text, pk_array, sig_array) = create_keys();
    assert!(pk_text.ends_with("]//") && sig_text.ends_with("]//"));
    let pk_list = pk_text.trim_end_matches("//");
    let sig_list = sig_text.trim_end_matches("//");
    let pk_bytes: Vec<u8> = serde_json::from_str(pk_list).unwrap();
    let sig_bytes: Vec<u8> = serde_json::from_str(sig_list).unwrap();
    assert_eq!(pk_bytes.len(), 32);
    assert_eq!(sig_bytes.len(), 64);
    assert_eq!(key_text_of(&pk_bytes), pk_text);
    assert_eq!(pk_bytes, pk_array.to_vec());
    assert_eq!(sig_bytes, sig_array.to_vec());
    assert_eq!(try_verify_schnorrkel_sign(pk_list, sig_list), Some(true));
    assert!(_verify_schnorrkel_sign(pk_list, sig_list));
    let other = _create_adversarial_key();
    let other_list = other.trim_end_matches("//");
    assert_eq!(try_verify_schnorrkel_sign(other_list, sig_list), Some(false));
    assert_eq!(try_verify_schnorrkel_sign("not json", sig_list), None);
    assert_eq!(try_verify_schnorrkel_sign("[1, 2]", sig_list), None);
}

#[test]
fn adversarial_tampering() {
    assert!(create_prob(1));
    assert!(draw_hits(12, 4));
    assert!(!draw_hits(13, 4));
    let r = generate_random_string("héllo".to_string());
    assert_eq!(r.len(), 6);
    assert!(r.chars().all(|c| c.is_ascii_alphanumeric()));
    let m = modify_accum("abc-de".to_string());
    let parts: Vec<&str> = m.split('-').collect();
    assert_eq!(parts.len(), 2);
    assert_eq!((parts[0].len(), parts[1].len()), (3, 2));
    let untouched = s(&["a", "b", "propose"]);
    assert_eq!(modify_string(untouched.clone()), untouched);
    let tampered = modify_string(s(&["sign", "xy-z", "accum"]));
    assert_eq!(tampered[0], "sign");
    assert_eq!(tampered[2], "accum");
    assert_eq!(tampered[1].len(), 4);
    assert_eq!(tampered[1].chars().nth(2), Some('-'));
}

fn addr(port: u16) -> PeerAddress {
    PeerAddress { host: "10.0.0.1".to_string(), port }
}

#[test]
fn retrieved_codewords_in_sender_order() {
    let retrieved = vec![
        (1usize, vec![(addr(7003), "[3, 3]".to_string()), (addr(7001), "[1, 1]".to_string()), (addr(7002), "[2, 2]".to_string())]),
        (2usize, vec![(addr(7002), "[9]".to_string())]),
    ];
    let out = codeword_retrieve(retrieved, 3);
    assert_eq!(out.len(), 2);
    assert_eq!(out[0].0, 1);
    assert_eq!(out[0].1, vec![vec![1, 1], vec![2, 2], vec![3, 3]]);
    assert_eq!(out[1], (2, vec![vec![9]]));
    assert_eq!(retrieved_bytes_of(&"[1, x, 3]".to_string()), vec![1, 3]);
    assert_eq!(retrieved_bytes_of(&"[]".to_string()), Vec::<u8>::new());
}

#[test]
fn committee_members_are_the_space_separated_entries() {
    let members = rusting::committees::committee_members(&"1-127.0.0.1 2-127.0.0.1 3-10.0.0.2".to_string());
    assert_eq!(members, vec!["1-127.0.0.1".to_string(), "2-127.0.0.1".to_string(), "3-10.0.0.2".to_string()]);
    assert_eq!(rusting::committees::committee_members(&"4-1.2.3.4".to_string()), vec!["4-1.2.3.4".to_string()]);
}
