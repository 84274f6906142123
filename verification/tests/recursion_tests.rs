use std::collections::HashMap;
use rusting::message::ConsensusMessage;
use rusting::merkle::{create_tree, get_root};
use rusting::pvss_agreement::encoder;
use rusting::reactor::{committee_addresses, entry_address, reactor_init, set_state, split_vec_recursively};
use rusting::selection::{committee_selection, holds_u32, is_level_size};

fn s(v: &[&str]) -> Vec<String> {
    v.iter().map(|x| x.to_string()).collect()
}

fn node_args() -> Vec<String> {
    s(&["prog", "nok", "1", "4", "03282129", "dev", "10.0.0.1", "10", "0"])
}

fn committee(n: usize) -> Vec<String> {
    (1..=n).map(|i| format!("{}-10.0.0.{}", i, i)).collect()
}

#[test]
fn halving_committees() {
    let input = s(&["1", "2", "3", "4", "5", "6", "7", "8"]);
    let mut left: Vec<Vec<String>> = Vec::new();
    let mut right: Vec<Vec<String>> = Vec::new();
    split_vec_recursively(&input, &mut left, &mut right);
    assert_eq!(left, vec![s(&["1", "2", "3", "4"]), s(&["1", "2"]), s(&["5", "6"])]);
    assert_eq!(right, vec![s(&["5", "6", "7", "8"]), s(&["3", "4"]), s(&["7", "8"])]);
    let mut left: Vec<Vec<String>> = Vec::new();
    let mut right: Vec<Vec<String>> = Vec::new();
    split_vec_recursively(&s(&["a", "b"]), &mut left, &mut right);
    assert!(left.is_empty() && right.is_empty());
}

#[test]
fn entries_name_addresses() {
    let a = entry_address(&"12-192.168.1.5".to_string());
    assert_eq!(a.host, "192.168.1.5");
    assert_eq!(a.port, 7012);
    let all = committee_addresses(&committee(3));
    assert_eq!(all.iter().map(|a| a.port).collect::<Vec<u16>>(), vec![7001, 7002, 7003]);
    let state = set_state(&committee(2), 3);
    assert_eq!(state.get_level(), 3);
    assert_eq!(state._get_addresses().len(), 2);
}

#[test]
fn accumulation_value_is_the_root_of_the_codewords() {
    let data: Vec<u8> = (0..25).collect();
    let (acc, state) = reactor_init(data.clone(), &committee(4), 0, "prod".to_string());
    assert_eq!(acc, get_root(create_tree(encoder(&data, 4, "prod".to_string()))));
    assert_eq!(state.level, 0);
}

#[test]
fn level_sizes() {
    assert!(is_level_size(8, 3));
    assert!(is_level_size(1, 0));
    assert!(!is_level_size(6, 3));
    assert!(!is_level_size(0, 0));
    assert!(!is_level_size(4, 100));
    assert!(holds_u32(&vec![2, 1], 1));
    assert!(!holds_u32(&vec![2], 1));
}

fn shares(w1: Vec<u8>, w2: Vec<u8>) -> HashMap<usize, Vec<u8>> {
    let mut m = HashMap::new();
    m.insert(1, w1);
    m.insert(2, w2);
    m
}

#[test]
fn selection_starts_agreement_above_the_bottom() {
    let ips = committee(4);
    let out = committee_selection(vec![1], shares(b"abc".to_vec(), b"def".to_vec()), &ips, &node_args(), false, 1);
    assert_eq!(out.len(), 1);
    assert_eq!(out[0].len(), 1);
    match &out[0][0].message {
        ConsensusMessage::EchoMessage(e) => assert_eq!(e.value, "abc-bot"),
        _ => panic!("expected an echo"),
    }
    let out = committee_selection(vec![], shares(vec![0xff], b"x".to_vec()), &ips, &node_args(), false, 1);
    match &out[0][0].message {
        ConsensusMessage::EchoMessage(e) => assert_eq!(e.value, "bot-bot"),
        _ => panic!("expected an echo"),
    }
    let out = committee_selection(vec![1, 2], shares(vec![0xff], b"x".to_vec()), &ips, &node_args(), false, 1);
    match &out[0][0].message {
        ConsensusMessage::EchoMessage(e) => assert_eq!(e.value, "\u{FFFD}-x"),
        _ => panic!("expected an echo"),
    }
}

#[test]
fn selection_disseminates_at_the_bottom() {
    let ips = committee(4);
    let w1: Vec<u8> = (1..=9).collect();
    let w2: Vec<u8> = vec![];
    let out = committee_selection(vec![2, 1], shares(w1.clone(), w2), &ips, &node_args(), false, 2);
    assert_eq!(out.len(), 1);
    assert_eq!(out[0].len(), 4);
    let acc = get_root(create_tree(encoder(&w1, 4, String::new())));
    for (k, m) in out[0].iter().enumerate() {
        match &m.message {
            ConsensusMessage::CommitteeMessage(c) => {
                assert_eq!(c.value, acc);
                assert_eq!(c.part, 1);
                assert_eq!(c.index, k.to_string());
                assert_eq!(c.types, "committee");
            }
            _ => panic!("expected a committee message"),
        }
    }
    let out = committee_selection(vec![1, 1], shares(w1, vec![]), &ips, &node_args(), true, 5);
    assert_eq!(out.len(), 2);
}
