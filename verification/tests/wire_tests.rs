use rusting::wire::{client_payload, payload_of_line, tag_sender};

#[test]
fn client_text_joins_fields_committee_and_id() {
    let value = vec!["sign".to_string(), "v1-v2".to_string(), "accum".to_string()];
    assert_eq!(client_payload(&value, 12, &"3".to_string()), "sign, v1-v2, accum, 12, 3");
    assert_eq!(client_payload(&vec![], 0, &"9".to_string()), ", 0, 9");
}

#[test]
fn server_waits_for_the_marker() {
    assert_eq!(payload_of_line(&"partial".to_string()), None);
    assert_eq!(payload_of_line(&"a, b, 1, 2EOF".to_string()), Some("a, b, 1, 2".to_string()));
    assert_eq!(payload_of_line(&"EOF".to_string()), Some(String::new()));
    assert_eq!(payload_of_line(&"xEOFyEOF".to_string()), Some("xy".to_string()));
}

#[test]
fn sender_tag() {
    assert_eq!(tag_sender(&"a, b".to_string(), &"10.0.0.1".to_string()), "a, b/10.0.0.1");
}
