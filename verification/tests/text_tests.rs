use rusting::text::{
    chars_of, contains_chars, count_chars, debug_bytes_chars, decimal_chars, first_word_chars,
    hex_decode_chars, join_chars, parse_bounded_chars, parse_byte_list_chars, replace_chars,
    split_chars, string_of, strip_chars, trim_chars,
};

fn cs(s: &str) -> Vec<char> {
    s.chars().collect()
}

fn text(v: &Vec<char>) -> String {
    v.iter().collect()
}

#[test]
fn split_behaves_like_str_split() {
    let parts = split_chars(&cs("a, b, , c"), &cs(", "));
    let got: Vec<String> = parts.iter().map(text).collect();
    assert_eq!(got, vec!["a", "b", "", "c"]);
    let parts = split_chars(&cs(""), &cs(","));
    assert_eq!(parts.len(), 1);
    assert_eq!(text(&parts[0]), "");
    let parts = split_chars(&cs("x,"), &cs(","));
    let got: Vec<String> = parts.iter().map(text).collect();
    assert_eq!(got, vec!["x", ""]);
}

#[test]
fn join_and_replace() {
    let parts = vec![cs("1"), cs("2"), cs("3")];
    assert_eq!(text(&join_chars(&parts, &cs(", "))), "1, 2, 3");
    assert_eq!(text(&replace_chars(&cs("[1, 2, 3]"), &cs(", "), &cs("; "))), "[1; 2; 3]");
    assert_eq!(text(&replace_chars(&cs("a,b,c"), &cs(","), &cs(";"))), "a;b;c");
    assert_eq!(text(&replace_chars(&cs("xEOF"), &cs("EOF"), &cs(""))), "x");
}

#[test]
fn trimming_and_stripping() {
    assert_eq!(text(&trim_chars(&cs("  12 \t"))), "12");
    assert_eq!(text(&trim_chars(&cs("   "))), "");
    assert_eq!(text(&strip_chars(&cs("[[1, 2]]"), '[', ']')), "1, 2");
}

#[test]
fn decimal_notation() {
    assert_eq!(text(&decimal_chars(0)), "0");
    assert_eq!(text(&decimal_chars(7)), "7");
    assert_eq!(text(&decimal_chars(1234)), "1234");
    assert_eq!(text(&decimal_chars(u64::MAX)), u64::MAX.to_string());
}

#[test]
fn parsing_numbers_like_from_str() {
    assert_eq!(parse_bounded_chars(&cs("255"), 10, 255), Some(255));
    assert_eq!(parse_bounded_chars(&cs("256"), 10, 255), None);
    assert_eq!(parse_bounded_chars(&cs("+5"), 10, 255), Some(5));
    assert_eq!(parse_bounded_chars(&cs("+"), 10, 255), None);
    assert_eq!(parse_bounded_chars(&cs(""), 10, 255), None);
    assert_eq!(parse_bounded_chars(&cs("12a"), 10, 255), None);
    assert_eq!(parse_bounded_chars(&cs(" 1"), 10, 255), None);
    assert_eq!(parse_bounded_chars(&cs("ff"), 16, 255), Some(255));
    assert_eq!(parse_bounded_chars(&cs("4294967295"), 10, u32::MAX as u64), Some(4294967295));
    assert_eq!(parse_bounded_chars(&cs("4294967296"), 10, u32::MAX as u64), None);
}

#[test]
fn hex_decoding() {
    assert_eq!(hex_decode_chars(&cs("0aff10")), Some(vec![10, 255, 16]));
    assert_eq!(hex_decode_chars(&cs("0AfF")), Some(vec![10, 255]));
    assert_eq!(hex_decode_chars(&cs("zz")), None);
    assert_eq!(hex_decode_chars(&cs("")), Some(vec![]));
}

#[test]
fn byte_lists() {
    assert_eq!(text(&debug_bytes_chars(&vec![1, 2, 3])), format!("{:?}", vec![1u8, 2, 3]));
    assert_eq!(text(&debug_bytes_chars(&vec![])), "[]");
    assert_eq!(parse_byte_list_chars(&cs("[1, 2, 3]")), Some(vec![1, 2, 3]));
    assert_eq!(parse_byte_list_chars(&cs("[1,2]")), Some(vec![1, 2]));
    assert_eq!(parse_byte_list_chars(&cs("[]")), None);
    assert_eq!(parse_byte_list_chars(&cs("[1, 300]")), None);
    let bytes = vec![0u8, 17, 255];
    assert_eq!(parse_byte_list_chars(&debug_bytes_chars(&bytes)), Some(bytes));
}

#[test]
fn counting_and_searching() {
    let words = vec![cs("a"), cs("b"), cs("a")];
    assert_eq!(count_chars(&words, &cs("a")), 2);
    assert_eq!(count_chars(&words, &cs("c")), 0);
    assert!(contains_chars(&cs("1.2.3.4 5.6.7.8"), &cs("5.6.7.8")));
    assert!(!contains_chars(&cs("1.2.3.4"), &cs("5.6")));
    assert!(contains_chars(&cs("abc"), &cs("")));
    assert_eq!(text(&first_word_chars(&cs("value 1.2.3.4:7001"))), "value");
    assert_eq!(text(&first_word_chars(&cs("single"))), "single");
}

#[test]
fn strings_and_chars() {
    assert_eq!(chars_of("héllo"), vec!['h', 'é', 'l', 'l', 'o']);
    assert_eq!(string_of(&vec!['o', 'k']), "ok");
}
