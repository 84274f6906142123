use rusting::codeword::{check_codeword, verify_codeword};
use rusting::deliver::deliver_encode;
use rusting::dissemination::{codeword_helper, list_contains, pair_data};
use rusting::message::{Codeword, ConsensusMessage, NetworkMessage};
use rusting::reactor::{codeword_init, reactor_init};
use rusting::wire::{client_payload, payload_of_line, tag_sender};

fn committee(n: usize) -> Vec<String> {
    (1..=n).map(|i| format!("{}-127.0.0.1", i)).collect()
}

fn node_args() -> Vec<String> {
    ["prog", "nok", "1", "4", "03282129", "dev", "127.0.0.1", "10", "0"].iter().map(|s| s.to_string()).collect()
}

fn codeword_of(m: &NetworkMessage) -> Codeword {
    match &m.message {
        ConsensusMessage::CodewordMessage(c) => c.clone(),
        _ => panic!("not a codeword message"),
    }
}

fn disseminate(data: &[u8], n: usize) -> (Vec<NetworkMessage>, String, Vec<String>) {
    let ips = committee(n);
    let args = node_args();
    let (acc, _state) = reactor_init(data.to_vec(), &ips, 1, "prod".to_string());
    let (codewords, witnesses, merkle_len) = deliver_encode(data, "_".to_string(), n, "prod".to_string());
    assert_eq!(merkle_len, n);
    let msgs = codeword_init(&ips, 1, &args, acc.clone(), merkle_len, codewords.clone(), witnesses, 1, "codewords".to_string());
    (msgs, acc, codewords)
}

#[test]
fn every_disseminated_codeword_is_accepted() {
    let data: Vec<u8> = (0..40).map(|x| (x * 7 % 251) as u8).collect();
    for n in [3usize, 4, 5, 8] {
        let (msgs, acc, codewords) = disseminate(&data, n);
        assert_eq!(msgs.len(), n);
        let ips = committee(n);
        for (i, m) in msgs.iter().enumerate() {
            let c = codeword_of(m);
            assert_eq!(c.codewords, codewords[i].replace(",", ";"));
            assert_eq!(c.value, acc);
            assert_eq!(c.index, i.to_string());
            assert_eq!(m.addresses.len(), 1);
            assert_eq!(m.addresses[0].port as usize, 7000 + i + 1);
            let (data_out, l1, l2, answer) = codeword_helper(
                "codewords".to_string(), &ips, c.codewords.clone(), c.witness.clone(), c.value.clone(),
                c.index.clone(), c.leaves_len, c.part, &node_args(), vec![], vec![], 1,
            );
            assert!(data_out.is_empty() && l1.is_empty() && l2.is_empty());
            let answer = answer.expect("an honest codeword is answered");
            assert_eq!(answer.addresses.len(), n);
            assert_eq!(answer.sender.port, 7001);
            match answer.message {
                ConsensusMessage::CodewordRetrieveMessage(r) => {
                    assert_eq!(r.codewords, codewords[i]);
                    assert_eq!(r.sign, "sign");
                    assert_eq!(r.part, 1);
                    assert_eq!(r.communication_type, "codewords");
                    assert_eq!(r.types, "codewordretrieve");
                }
                _ => panic!("expected a retrieve message"),
            }
        }
    }
}

#[test]
fn tampered_or_seen_codewords_are_not_answered() {
    let data: Vec<u8> = vec![3, 1, 4, 1, 5, 9, 2, 6];
    let (msgs, acc, _) = disseminate(&data, 4);
    let ips = committee(4);
    let c = codeword_of(&msgs[0]);
    let other = codeword_of(&msgs[1]);
    let (_, _, _, answer) = codeword_helper(
        "codewords".to_string(), &ips, other.codewords.clone(), c.witness.clone(), c.value.clone(),
        c.index.clone(), c.leaves_len, 1, &node_args(), vec![], vec![], 1,
    );
    assert!(answer.is_none());
    let (_, l1, _, answer) = codeword_helper(
        "codewords".to_string(), &ips, c.codewords.clone(), c.witness.clone(), c.value.clone(),
        c.index.clone(), c.leaves_len, 1, &node_args(), vec![acc.clone()], vec![], 1,
    );
    assert!(answer.is_none());
    assert_eq!(l1, vec![acc.clone()]);
    // the committee list is the one that counts for committee messages
    let (_, _, _, answer) = codeword_helper(
        "committee".to_string(), &ips, c.codewords.clone(), c.witness.clone(), c.value.clone(),
        c.index.clone(), c.leaves_len, 1, &node_args(), vec![acc.clone()], vec![], 1,
    );
    assert!(answer.is_some());
}

#[test]
fn a_committee_of_two_reads_the_data() {
    let ips = committee(2);
    let (data, _, _, answer) = codeword_helper(
        "codewords".to_string(), &ips, "[1; 2; 250]".to_string(), vec![], "v".to_string(),
        "0".to_string(), 2, 1, &node_args(), vec![], vec![], 1,
    );
    assert_eq!(data, vec![1, 2, 250]);
    assert!(answer.is_none());
    assert_eq!(pair_data(&"[[7]]".to_string()), vec![7]);
}

#[test]
fn check_codeword_directly() {
    let data: Vec<u8> = vec![10, 20, 30, 40, 50];
    let (msgs, _, codewords) = disseminate(&data, 3);
    let c = codeword_of(&msgs[2]);
    let restored: Vec<char> = codewords[2].chars().collect();
    let value: Vec<char> = c.value.chars().collect();
    let index: Vec<char> = c.index.chars().collect();
    let (ok, out) = check_codeword(restored, c.witness.clone(), &value, &index, c.leaves_len);
    assert!(ok);
    assert_eq!(out, vec![codewords[2].clone()]);
    let wrong_index: Vec<char> = "1".chars().collect();
    let restored: Vec<char> = codewords[2].chars().collect();
    let (ok, _) = check_codeword(restored, c.witness, &value, &wrong_index, c.leaves_len);
    assert!(!ok);
}

#[test]
fn a_received_codeword_record_checks_out() {
    let data: Vec<u8> = (1..=30).collect();
    let (msgs, _, codewords) = disseminate(&data, 4);
    for (i, m) in msgs.iter().enumerate() {
        let c = codeword_of(m);
        let payload = client_payload(&c.clone().to_vec(), 5, &"1".to_string());
        let line = format!("{}EOF", payload);
        let read = payload_of_line(&line).expect("the marker has come");
        assert_eq!(read, payload);
        let received = tag_sender(&read, &"127.0.0.1".to_string());
        let (ok, cw) = verify_codeword(vec![received]);
        assert!(ok, "record {} verifies", i);
        assert_eq!(cw, vec![codewords[i].clone()]);
    }
}

#[test]
fn lists_are_searched_exactly() {
    let list = vec!["ab".to_string(), "c".to_string()];
    assert!(list_contains(&list, &"c".to_string()));
    assert!(!list_contains(&list, &"a".to_string()));
}

#[test]
fn two_leaf_witnesses_hold_one_hash() {
    let (codewords, witnesses, merkle_len) = deliver_encode(&[1u8, 2, 3], "x".to_string(), 2, "dev".to_string());
    assert_eq!(codewords, vec!["[1, 2, 3]".to_string(), "[1, 2, 3]".to_string()]);
    assert_eq!(witnesses.len(), 2);
    assert_eq!(witnesses[0].len(), 32);
    assert_eq!(witnesses[1].len(), 32);
    assert_eq!(merkle_len, 2);
    let (other, other_witnesses, _) = deliver_encode(&[1u8, 2, 3], "y".to_string(), 2, "dev".to_string());
    assert_eq!(other, codewords);
    assert_eq!(other_witnesses, witnesses);
}

#[test]
fn witness_lengths_follow_the_tree_shape() {
    let data: Vec<u8> = (0..40).collect();
    let (_, witnesses, _) = deliver_encode(&data, "_".to_string(), 5, "prod".to_string());
    let lengths: Vec<usize> = witnesses.iter().map(|w| w.len() / 32).collect();
    assert_eq!(lengths, vec![3, 3, 3, 3, 1]);
    let (_, witnesses, _) = deliver_encode(&data, "_".to_string(), 3, "prod".to_string());
    let lengths: Vec<usize> = witnesses.iter().map(|w| w.len() / 32).collect();
    assert_eq!(lengths, vec![2, 2, 1]);
}

#[test]
fn a_shipped_pair_codeword_verifies() {
    let (codewords, witnesses, merkle_len) = deliver_encode(&[1u8, 2, 3], "x".to_string(), 2, "dev".to_string());
    let root = rusting::merkle::get_root(rusting::merkle::create_tree(codewords.clone()));
    for i in 0..2 {
        let c = Codeword::create_codeword(
            "sign".to_string(),
            codewords[i].replace(",", ";"),
            witnesses[i].clone(),
            root.clone(),
            i.to_string(),
            merkle_len,
            1,
            "codewords".to_string(),
        );
        let (ok, cw) = verify_codeword(vec![c.to_vec().join(", ")]);
        assert!(ok);
        assert_eq!(cw, vec![codewords[i].clone()]);
    }
}

#[test]
fn a_pair_reads_the_codeword_without_arguments() {
    let ips = committee(2);
    let (data, l1, l2, answer) = codeword_helper(
        "codewords".to_string(), &ips, "[1; 2; 3]".to_string(), vec![], "v".to_string(),
        "0".to_string(), 2, 1, &vec![], vec![], vec![], 1,
    );
    assert_eq!(data, vec![1u8, 2, 3]);
    assert!(l1.is_empty() && l2.is_empty());
    assert!(answer.is_none());
}

#[test]
fn a_taken_value_is_not_checked_again() {
    let ips = vec!["not an entry".to_string(); 3];
    let taken = vec!["v".to_string()];
    let (data, l1, l2, answer) = codeword_helper(
        "codewords".to_string(), &ips, "[1; 2]".to_string(), vec![], "v".to_string(),
        "x".to_string(), 3, 1, &vec![], taken.clone(), vec![], 1,
    );
    assert!(data.is_empty());
    assert_eq!(l1, taken);
    assert!(l2.is_empty());
    assert!(answer.is_none());
}

#[test]
fn any_sign_and_kind_verify() {
    let data: Vec<u8> = (0..30).collect();
    let (codewords, witnesses, merkle_len) = deliver_encode(&data, "_".to_string(), 4, "prod".to_string());
    let root = rusting::merkle::get_root(rusting::merkle::create_tree(codewords.clone()));
    for i in 0..4 {
        let c = Codeword::create_codeword(
            "si,gn".to_string(),
            codewords[i].replace(",", ";"),
            witnesses[i].clone(),
            root.clone(),
            i.to_string(),
            merkle_len,
            2,
            "any, kind".to_string(),
        );
        let (ok, cw) = verify_codeword(vec![c.to_vec().join(", ")]);
        assert!(ok);
        assert_eq!(cw, vec![codewords[i].clone()]);
    }
}
