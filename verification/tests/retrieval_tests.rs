use rusting::message::PeerAddress;
use rusting::retrieval::{retrieve_step, RetrievalState};

fn peer(port: u16) -> PeerAddress {
    PeerAddress { host: "10.0.0.1".to_string(), port }
}

fn empty() -> RetrievalState {
    RetrievalState { codeword_table: vec![], committee_table: vec![], flag: false, recursion_finish: false }
}

#[test]
fn codeword_phase_closes_after_twice_the_committee() {
    let cw = "codewords".to_string();
    let mut state = empty();
    let mut closed = None;
    let mut steps = 0;
    for part in [1usize, 2] {
        for port in [7001u16, 7002] {
            let (next, done_cw, done_cm) = retrieve_step(state, part, peer(port), format!("[{}]", port), &cw, 1, 1, 2, 3);
            state = next;
            steps += 1;
            assert!(done_cm.is_none());
            if steps < 4 {
                assert!(done_cw.is_none());
            } else {
                closed = done_cw;
            }
        }
    }
    let table = closed.expect("four codewords close the phase");
    assert_eq!(table.len(), 2);
    assert_eq!(table[0].0, 1);
    assert_eq!(table[0].1.len(), 2);
    assert!(state.flag);
    assert!(state.codeword_table.is_empty());
}

#[test]
fn duplicates_and_other_levels_are_ignored() {
    let cw = "codewords".to_string();
    let (state, _, _) = retrieve_step(empty(), 1, peer(7001), "[1]".to_string(), &cw, 1, 1, 4, 3);
    let (state, _, _) = retrieve_step(state, 1, peer(7001), "[9]".to_string(), &cw, 1, 1, 4, 3);
    let (state, _, _) = retrieve_step(state, 1, peer(7002), "[2]".to_string(), &cw, 0, 1, 4, 3);
    assert_eq!(state.codeword_table.len(), 1);
    assert_eq!(state.codeword_table[0].1.len(), 1);
    assert_eq!(state.codeword_table[0].1[0].1, "[1]");
}

#[test]
fn committee_phase_follows_and_ends_the_recursion() {
    let cm = "committee".to_string();
    let mut state = empty();
    state.flag = true;
    let (state, _, none) = retrieve_step(state, 1, peer(7001), "[1]".to_string(), &cm, 2, 2, 1, 3);
    assert!(none.is_none());
    let (state, done_cw, done_cm) = retrieve_step(state, 2, peer(7001), "[2]".to_string(), &cm, 2, 2, 1, 3);
    assert!(done_cw.is_none());
    assert_eq!(done_cm.expect("closed").len(), 2);
    assert!(!state.flag);
    assert!(state.recursion_finish);
}
