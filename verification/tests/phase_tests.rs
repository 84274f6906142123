use rusting::dissemination::codeword_helper;
use rusting::message::ConsensusMessage;
use rusting::phases::{
    disseminate_qualified, echo_threshold, forward_decision, forward_threshold, level_members,
    output_generation, propose_decision, qualify, vote_pairs, vote_threshold,
};
use rusting::reactor::reactor_init;

fn s(v: &[&str]) -> Vec<String> {
    v.iter().map(|x| x.to_string()).collect()
}

fn committee(n: usize) -> Vec<String> {
    (1..=n).map(|i| format!("{}-10.0.0.{}", i, i)).collect()
}

fn node_args() -> Vec<String> {
    s(&["prog", "nok", "1", "4", "03282129", "dev", "10.0.0.1", "10", "0"])
}

#[test]
fn thresholds() {
    assert_eq!(level_members(0), 1);
    assert_eq!(level_members(5), 32);
    assert_eq!(echo_threshold(3, false), 4);
    assert_eq!(echo_threshold(3, true), 2);
    assert_eq!(forward_threshold(4, false), 8);
    assert_eq!(forward_threshold(4, true), 4);
    assert_eq!(vote_threshold(4, false), 9);
    assert_eq!(vote_threshold(4, true), 5);
}

#[test]
fn forward_and_vote_phases() {
    let agree = s(&["v 10.0.0.1:7001", "v 10.0.0.2:7002"]);
    assert_eq!(forward_decision(&agree, true), Some("v".to_string()));
    assert_eq!(forward_decision(&agree, false), None);
    assert_eq!(forward_decision(&s(&["v a", "w b"]), true), None);
    let pairs = vote_pairs(&s(&["v 10.0.0.1:7001", "w 10.0.0.2:7002"]));
    assert_eq!(pairs, vec![("v".to_string(), "10.0.0.1:7001".to_string()), ("w".to_string(), "10.0.0.2:7002".to_string())]);
    let c1 = vec![("v".to_string(), "a".to_string())];
    assert_eq!(output_generation(&c1, &vec![("v".to_string(), "b".to_string())]), Some("v".to_string()));
    assert_eq!(output_generation(&c1, &vec![("w".to_string(), "b".to_string())]), None);
    assert_eq!(output_generation(&vec![], &vec![]), None);
}

#[test]
fn proposals_and_qualification() {
    assert_eq!(propose_decision(s(&["a x", "a y", "b z"]), false, "old".to_string()), "a");
    assert_eq!(propose_decision(s(&["a x", "a y", "b z"]), true, "old".to_string()), "old");
    assert_eq!(propose_decision(s(&["a", "b", "c", "d"]), false, "old".to_string()), "old");
    assert_eq!(qualify(&"x".to_string(), &"bot".to_string()), vec![1]);
    assert_eq!(qualify(&"".to_string(), &"y".to_string()), vec![2]);
    assert_eq!(qualify(&"x".to_string(), &"y".to_string()), vec![1, 2]);
}

#[test]
fn level_end_dissemination_is_accepted() {
    let ips = committee(4);
    let data: Vec<u8> = (0..50).map(|x| (x * 13 % 256) as u8).collect();
    let (acc, _) = reactor_init(data.clone(), &ips, 2, String::new());
    let batches = disseminate_qualified(&vec![1, 2], &acc, &"bot".to_string(), &acc, &data, &ips, &node_args(), 2, &"codeword_propose".to_string());
    assert_eq!(batches.len(), 1);
    assert_eq!(batches[0].len(), 4);
    for m in &batches[0] {
        let c = match &m.message {
            ConsensusMessage::CodewordMessage(c) => c.clone(),
            _ => panic!("expected a codeword"),
        };
        assert_eq!(c.types, "codeword_propose");
        let (_, _, _, answer) = codeword_helper(
            "codewords".to_string(), &ips, c.codewords, c.witness, c.value, c.index, c.leaves_len, c.part,
            &node_args(), vec![], vec![], 2,
        );
        assert!(answer.is_some());
    }
    let none = disseminate_qualified(&vec![1], &"other".to_string(), &acc, &acc, &data, &ips, &node_args(), 2, &"codeword_propose".to_string());
    assert!(none.is_empty());
}
