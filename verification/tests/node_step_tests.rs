use rusting::message::{Accum, ConsensusMessage, Echo, NetworkMessage, PeerAddress, Propose, Vote};
use rusting::node::{advance_level, reactor_start, reactor_step};

fn node_args() -> Vec<String> {
    ["prog", "nok", "1", "4", "03282129", "dev", "127.0.0.1", "10", "0"].iter().map(|s| s.to_string()).collect()
}

fn table() -> Vec<(u32, String)> {
    vec![(0, "1-127.0.0.1 2-127.0.0.1".to_string()), (1, "1-127.0.0.1 2-127.0.0.1 3-127.0.0.1 4-127.0.0.1".to_string())]
}

fn from(port: u16, level: usize, message: ConsensusMessage) -> NetworkMessage {
    NetworkMessage {
        sender: PeerAddress { host: "127.0.0.1".to_string(), port },
        addresses: vec![],
        message,
        level,
    }
}

fn vote(value: &str, no: usize) -> ConsensusMessage {
    ConsensusMessage::VoteMessage(Vote { sign: String::new(), value: value.to_string(), no, types: "vote".to_string() })
}

#[test]
fn the_first_level_is_entered_with_an_accumulation_message() {
    let (state, out) = reactor_start(b"pvss".to_vec(), &table(), &node_args(), &vec![]).expect("entered");
    assert_eq!(state.level, 0);
    assert_eq!(state.ip_address.len(), 2);
    assert_eq!(out.len(), 1);
    match &out[0].message {
        ConsensusMessage::AccumMessage(a) => {
            assert_eq!(a.value, state.acc_value_zl);
            assert_eq!(a.types, "accum");
        }
        _ => panic!("expected an accumulation message"),
    }
    let single = vec![(0, "1-127.0.0.1".to_string())];
    assert!(reactor_start(b"pvss".to_vec(), &single, &node_args(), &vec![]).is_none());
}

#[test]
fn votes_lead_to_a_proposal() {
    let (state, _) = reactor_start(b"pvss".to_vec(), &table(), &node_args(), &vec![]).unwrap();
    let (state, out, restart) =
        reactor_step(state, &from(7002, 0, vote("x", 1)), false, &table(), &vec![], &node_args()).unwrap();
    assert!(!restart);
    assert_eq!(out.len(), 1);
    match &out[0].message {
        ConsensusMessage::VoteMessage(v) => {
            assert_eq!(v.no, 2);
            assert_eq!(v.value, "x");
        }
        _ => panic!("expected a second-round vote"),
    }
    let (state, out, restart) =
        reactor_step(state, &from(7002, 0, vote("x", 2)), false, &table(), &vec![], &node_args()).unwrap();
    assert!(restart);
    assert!(state.voted);
    assert_eq!(state.ba_v, "x");
    assert_eq!(out.len(), 1);
    assert!(matches!(&out[0].message, ConsensusMessage::ProposeMessage(p) if p.value == "x"));
}

#[test]
fn an_accumulation_quorum_starts_agreement() {
    let (state, _) = reactor_start(b"pvss".to_vec(), &table(), &node_args(), &vec![]).unwrap();
    let accum = ConsensusMessage::AccumMessage(Accum { sign: "sign".to_string(), value: "acc".to_string(), types: "accum".to_string() });
    let (state, out, restart) = reactor_step(state, &from(7001, 0, accum), false, &table(), &vec![], &node_args()).unwrap();
    assert!(restart);
    assert!(state.accum_value.is_empty());
    assert_eq!(state.ip_address_backup.len(), 2);
    assert_eq!(out.len(), 1);
    assert!(matches!(&out[0].message, ConsensusMessage::EchoMessage(e) if e.value == "bot-bot"));
}

#[test]
fn reports_for_a_later_level_wait() {
    let (state, _) = reactor_start(b"pvss".to_vec(), &table(), &node_args(), &vec![]).unwrap();
    let propose = ConsensusMessage::ProposeMessage(Propose { sign: String::new(), value: "p".to_string(), types: "propose".to_string() });
    let (state, out, _) = reactor_step(state, &from(7003, 1, propose), false, &table(), &vec![], &node_args()).unwrap();
    assert!(out.is_empty());
    assert!(state.propose_value.is_empty());
    let (state, out) = advance_level(state, &table(), &node_args(), &vec![]).unwrap();
    assert_eq!(state.level, 1);
    assert_eq!(state.ip_address.len(), 4);
    assert_eq!(out.len(), 1);
    let (_, last) = advance_level(state, &table(), &node_args(), &vec![]).unwrap();
    assert!(last.is_empty());
}

#[test]
fn echoes_without_support_do_not_forward() {
    let (state, _) = reactor_start(b"pvss".to_vec(), &table(), &node_args(), &vec![]).unwrap();
    let echo = ConsensusMessage::EchoMessage(Echo { sign: String::new(), value: "ab".to_string(), types: "echo".to_string() });
    let (state, out, restart) = reactor_step(state, &from(7002, 0, echo), true, &table(), &vec![], &node_args()).unwrap();
    assert!(restart);
    assert!(out.is_empty());
    assert!(!state.forward_check);
    assert!(state.echo_value.is_empty());
}

fn retrieve(part: usize, kind: &str) -> ConsensusMessage {
    ConsensusMessage::CodewordRetrieveMessage(rusting::message::CodewordRetrieve {
        sign: "sign".to_string(),
        codewords: "[1, 2]".to_string(),
        part,
        communication_type: kind.to_string(),
        types: "codewordretrieve".to_string(),
    })
}

#[test]
fn retrieved_committee_codewords_end_the_level() {
    let (mut state, _) = reactor_start(b"pvss".to_vec(), &table(), &node_args(), &vec![]).unwrap();
    for kind in ["codewords", "committee"] {
        for (part, port) in [(1, 7001), (1, 7002), (2, 7001), (2, 7002)] {
            assert_eq!(state.level, 0);
            let (next, out, _) =
                reactor_step(state, &from(port, 0, retrieve(part, kind)), false, &table(), &vec![], &node_args()).unwrap();
            state = next;
            if kind == "committee" && part == 2 && port == 7002 {
                assert_eq!(out.len(), 1);
                assert!(matches!(&out[0].message, ConsensusMessage::AccumMessage(_)));
            } else {
                assert!(out.is_empty());
            }
        }
    }
    assert_eq!(state.level, 1);
    assert_eq!(state.ip_address.len(), 4);
}

#[test]
fn a_pair_codeword_is_not_answered() {
    let (state, _) = reactor_start(b"pvss".to_vec(), &table(), &node_args(), &vec![]).unwrap();
    let c = rusting::message::Codeword {
        sign: String::new(),
        codewords: "[1; 2; 3]".to_string(),
        witness: vec![],
        value: "v".to_string(),
        index: "0".to_string(),
        leaves_len: 2,
        part: 1,
        types: "codewords".to_string(),
    };
    let (next, out, restart) =
        reactor_step(state, &from(7002, 0, ConsensusMessage::CodewordMessage(c)), false, &table(), &vec![], &node_args()).unwrap();
    assert!(out.is_empty() && !restart);
    assert_eq!(next.level, 0);
}
