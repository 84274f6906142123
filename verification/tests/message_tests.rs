use rusting::generic;
use rusting::message::{Accum, Codeword, CodewordRetrieve, Committee, Echo, Forward, Propose, Vote};

#[test]
fn message_fields_in_order() {
    assert_eq!(Echo::create_echo("s".into(), "v".into()).to_vec(), vec!["s", "v", "echo"]);
    assert_eq!(Forward::create_forward("s".into(), "v".into()).to_vec(), vec!["s", "v", "forward"]);
    let vote = Vote::create_vote("s".into(), 3, "v".into());
    assert_eq!(vote.no, 3);
    assert_eq!(vote.to_vec(), vec!["s", "v", "vote"]);
    assert_eq!(Accum::create_accum("s".into(), "v".into()).to_vec(), vec!["s", "v", "accum"]);
    assert_eq!(Propose::create_propose("s".into(), "v".into()).to_vec(), vec!["s", "v", "propose"]);
    let c = Codeword::create_codeword("".into(), "[1; 2]".into(), vec![1, 2, 3], "ab".into(), "0".into(), 4, 1, "codewords".into());
    assert_eq!(c.to_vec(), vec!["", "[1; 2]", "[1; 2; 3]", "ab", "0", "4", "codewords"]);
    let k = Committee::create_committee("".into(), "[1]".into(), vec![], "ab".into(), "1".into(), 2, 2);
    assert_eq!(k.types, "committee");
    let r = CodewordRetrieve::create_codeword_retrieve("sign".into(), "[1]".into(), 2, "committee".into());
    assert_eq!(r.types, "codewordretrieve");
}

#[test]
fn generic_messages() {
    let e = generic::Echo::create_echo("s".into(), "v".into());
    assert_eq!(e.to_vec(), vec!["s", "v", "echo"]);
    let a = generic::Accum::create_accum("s".into(), "v".into());
    assert_eq!(a.to_vec(), vec!["s", "v", "accum"]);
}
