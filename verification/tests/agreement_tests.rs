use rusting::accum::accum_check;
use rusting::gba::{check_echo_major_v, forward_phase, gba_setup, BA_setup};
use rusting::message::{Accum, ConsensusMessage};
use rusting::reactor::{accum_helper, find_most_frequent_propose_value, forward_helper, propose_helper, accum_init};
use rusting::wire::{client_payload, tag_sender};

fn s(v: &[&str]) -> Vec<String> {
    v.iter().map(|x| x.to_string()).collect()
}

fn committee(n: usize) -> Vec<String> {
    (1..=n).map(|i| format!("{}-10.0.0.{}", i, i)).collect()
}

fn node_args() -> Vec<String> {
    s(&["prog", "nok", "2", "4", "03282129", "dev", "10.0.0.2", "10", "0"])
}

#[test]
fn accum_quorum() {
    let texts = s(&["sign, A, accum", "sign, B, accum", "sign, A, accum"]);
    assert_eq!(accum_check(texts.clone(), 4), "A");
    assert_eq!(accum_check(texts.clone(), 5), "A");
    assert_eq!(accum_check(texts.clone(), 6), "bot");
    assert_eq!(accum_check(vec![], 4), "bot");
    // both values reach a threshold of one: the first reported wins
    assert_eq!(accum_check(s(&["x, B, accum", "x, A, accum"]), 2), "B");
}

#[test]
fn unanimous_accum_decides() {
    let texts = s(&["s, V, accum", "s, V, accum"]);
    assert_eq!(accum_check(texts, 4), "V");
}

#[test]
fn received_accum_messages_are_counted() {
    let received: Vec<String> = (1..=3)
        .map(|i| {
            let a = Accum::create_accum("sign".to_string(), "root-hex".to_string());
            tag_sender(&client_payload(&a.to_vec(), 7, &i.to_string()), &format!("10.0.0.{}", i))
        })
        .collect();
    assert_eq!(accum_check(received, 4), "root-hex");
}

#[test]
fn echo_counting() {
    let outputs = s(&["va-vb 10.0.0.1:7001", "vc 10.0.0.2:7002", "xva-vby 10.0.0.3:7003"]);
    let (count, pi) = check_echo_major_v(outputs, "va-vb".to_string());
    assert_eq!(count, 2);
    assert_eq!(pi, s(&["va-vb", "xva-vby"]));
}

#[test]
fn forwarding_needs_half_the_committee() {
    let ips = committee(4);
    let pi = s(&["val rest"]);
    assert!(forward_phase(1, &pi, &ips, &node_args(), 0).is_none());
    assert!(forward_phase(1, &vec![], &ips, &vec![], 0).is_none());
    let m = forward_phase(2, &pi, &ips, &node_args(), 0).expect("forwarded");
    match m.message {
        ConsensusMessage::ForwardMessage(f) => {
            assert_eq!(f.value, "val");
            assert_eq!(f.types, "forward");
        }
        _ => panic!("expected a forward"),
    }
    assert_eq!(m.addresses.len(), 4);
    assert_eq!(m.sender.host, "10.0.0.2");
    assert_eq!(m.sender.port, 7002);
}

#[test]
fn phase_messages() {
    let ips = committee(3);
    let echo = gba_setup(&ips, &node_args(), "v".to_string(), 2);
    assert_eq!(echo.level, 2);
    match echo.message {
        ConsensusMessage::EchoMessage(e) => assert_eq!((e.value.as_str(), e.types.as_str()), ("v", "echo")),
        _ => panic!(),
    }
    let ba = BA_setup(&ips, &node_args(), "w".to_string(), 1);
    assert!(matches!(ba.message, ConsensusMessage::EchoMessage(ref e) if e.value == "w"));
    let vote = forward_helper(&ips, &node_args(), "v".to_string(), 2, 0);
    assert!(matches!(vote.message, ConsensusMessage::VoteMessage(ref x) if x.no == 2 && x.value == "v" && x.types == "vote"));
    let propose = propose_helper(&ips, &node_args(), "p".to_string(), 0);
    assert!(matches!(propose.message, ConsensusMessage::ProposeMessage(ref x) if x.value == "p" && x.types == "propose"));
    let accum = accum_init("root".to_string(), &ips, &node_args(), 0);
    assert!(matches!(accum.message, ConsensusMessage::AccumMessage(ref x) if x.value == "root" && x.sign == "sign"));
    assert_eq!(accum.addresses.iter().map(|a| a.port).collect::<Vec<u16>>(), vec![7001, 7002, 7003]);
    assert_eq!(accum.addresses[2].host, "10.0.0.3");
}

#[test]
fn most_frequent_proposal() {
    let (v, majority) = find_most_frequent_propose_value(s(&["b x", "a y", "b z", "a w", "c"]));
    assert_eq!(v, "b");
    assert!(majority);
    let (v, majority) = find_most_frequent_propose_value(s(&["a", "b", "c", "d"]));
    assert_eq!(v, "a");
    assert!(!majority);
    let (v, majority) = find_most_frequent_propose_value(s(&["a 1", "a 2", "b 3"]));
    assert_eq!(v, "a");
    assert!(majority);
    let (v, majority) = find_most_frequent_propose_value(vec![]);
    assert_eq!(v, "");
    assert!(majority);
}

#[test]
fn accumulation_reports_split_by_committee() {
    // node lines: the level 0 field tells the side of each node
    let lines = s(&["1-10.0.0.1 5l", "2-10.0.0.2 5l", "3-10.0.0.3 5r", "4-10.0.0.4 5r"]);
    // a report is `value ip:port`; its second `, ` field is what is counted
    let reports = s(&["L, 10.0.0.1:7001", "L, 10.0.0.2:7002", "R, 10.0.0.3:7003", "Q, 10.0.0.4:7004"]);
    let (v1, v2) = accum_helper(reports.clone(), &lines, 0, 2);
    assert_eq!(v1, "10.0.0.1:7001");
    assert_eq!(v2, "10.0.0.3:7003");
    let (v1, v2) = accum_helper(reports, &lines, 0, 4);
    assert_eq!((v1.as_str(), v2.as_str()), ("bot", "bot"));
}
