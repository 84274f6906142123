//! The text framing between nodes: a client sends a message's fields with
//! its committee id and its own id, followed by the end marker `EOF`; the
//! server reads up to the marker, drops it, and tags the text with the
//! sender's address.
use vstd::prelude::*;
use crate::merkle::strings_view;
use crate::text::{
    chars_of, contains_chars, contains_seq, decimal, decimal_chars, join, join_chars,
    lemma_find_from_is, lemma_find_from_none, matches_at, replace, replace_chars, split, string_of,
};

verus! {

/// The separator of fields: `, `.
pub open spec fn comma_space() -> Seq<char> {
    seq![',', ' ']
}

/// The end marker of a message: `EOF`.
pub open spec fn end_marker() -> Seq<char> {
    seq!['E', 'O', 'F']
}

/// The text a client sends for a message: its fields joined by `, `, then
/// the committee id and the sender's id, each after a further `, `.
pub open spec fn payload(value: Seq<Seq<char>>, committee_id: u32, id: Seq<char>) -> Seq<char> {
    join(seq![join(value, comma_space()), decimal(committee_id as nat), id], comma_space())
}

fn comma_space_chars() -> (r: Vec<char>)
    ensures
        r@ == comma_space(),
{
    let mut r: Vec<char> = Vec::new();
    r.push(',');
    r.push(' ');
    assert(r@ =~= comma_space());
    r
}

fn end_marker_chars() -> (r: Vec<char>)
    ensures
        r@ == end_marker(),
{
    let mut r: Vec<char> = Vec::new();
    r.push('E');
    r.push('O');
    r.push('F');
    assert(r@ =~= end_marker());
    r
}

/// The text a client sends for the message `value` of committee
/// `committee_id`, from the node `id` (the marker is sent after it).
pub fn client_payload(value: &Vec<String>, committee_id: u32, id: &String) -> (r: String)
    ensures
        r@ == payload(strings_view(value@), committee_id, id@),
{
    let sep = comma_space_chars();
    let mut fields: Vec<Vec<char>> = Vec::new();
    let mut i: usize = 0;
    while i < value.len()
        invariant
            i <= value@.len(),
            crate::text::views(fields@) == strings_view(value@).subrange(0, i as int),
        decreases value.len() - i,
    {
        let ghost before = fields@;
        fields.push(chars_of(value[i].as_str()));
        assert(crate::text::views(fields@) =~= crate::text::views(before).push(value@[i as int]@));
        assert(strings_view(value@).subrange(0, i + 1) =~= strings_view(value@).subrange(0, i as int).push(value@[i as int]@));
        i = i + 1;
    }
    assert(strings_view(value@).subrange(0, i as int) =~= strings_view(value@));
    let value_string = join_chars(&fields, &sep);
    let mut three: Vec<Vec<char>> = Vec::new();
    three.push(value_string);
    three.push(decimal_chars(committee_id as u64));
    three.push(chars_of(id.as_str()));
    let r = join_chars(&three, &sep);
    assert(crate::text::views(three@) =~= seq![
        join(strings_view(value@), comma_space()),
        decimal(committee_id as nat),
        id@,
    ]);
    string_of(&r)
}

/// The message a server takes from a line it read: the line without its end
/// marker, once the marker has come; nothing before.
pub fn payload_of_line(line: &String) -> (r: Option<String>)
    ensures
        contains_seq(line@, end_marker()) ==> (r matches Some(p) && p@ == replace(line@, end_marker(), Seq::empty())),
        !contains_seq(line@, end_marker()) ==> r is None,
{
    let text = chars_of(line.as_str());
    let marker = end_marker_chars();
    if contains_chars(&text, &marker) {
        let empty: Vec<char> = Vec::new();
        assert(empty@ =~= Seq::<char>::empty());
        Some(string_of(&replace_chars(&text, &marker, &empty)))
    } else {
        None
    }
}

/// The received message tagged with its sender: the message, `/`, and the
/// sender's address.
pub fn tag_sender(message: &String, ip_address: &String) -> (r: String)
    ensures
        r@ == message@ + seq!['/'] + ip_address@,
{
    let mut text = chars_of(message.as_str());
    text.push('/');
    let ip = chars_of(ip_address.as_str());
    let mut i: usize = 0;
    while i < ip.len()
        invariant
            i <= ip@.len(),
            text@ == message@ + seq!['/'] + ip@.subrange(0, i as int),
        decreases ip.len() - i,
    {
        text.push(ip[i]);
        i = i + 1;
    }
    assert(ip@.subrange(0, i as int) =~= ip@);
    string_of(&text)
}

/// The framing is transparent: a server that reads a message followed by the
/// end marker takes the message back exactly, as long as the message does
/// not itself hold the marker.
pub proof fn lemma_framing(p: Seq<char>)
    requires
        !contains_seq(p, end_marker()),
    ensures
        contains_seq(p + end_marker(), end_marker()),
        replace(p + end_marker(), end_marker(), Seq::empty()) == p,
{
    let sep = end_marker();
    let s = p + sep;
    let n = p.len() as int;
    assert(s.subrange(n, n + 3) =~= sep);
    assert(matches_at(s, sep, n));
    assert forall|j: int| 0 <= j < n implies !matches_at(s, sep, j) by {
        if matches_at(s, sep, j) {
            if j + 3 <= n {
                assert(p.subrange(j, j + 3) =~= s.subrange(j, j + 3));
                assert(matches_at(p, sep, j));
            } else if j == n - 1 {
                assert(s.subrange(j, j + 3)[1] == s[n]);
            } else {
                assert(s.subrange(j, j + 3)[2] == s[n]);
            }
        }
    }
    lemma_find_from_is(s, sep, 0, n);
    let rest = s.subrange(n + 3, s.len() as int);
    assert(rest =~= Seq::<char>::empty());
    assert forall|j: int| 0 <= j implies !matches_at(rest, sep, j) by {}
    lemma_find_from_none(rest, sep, 0);
    assert(split(rest, sep) == seq![rest]);
    assert(s.subrange(0, n) =~= p);
    assert(split(s, sep) == seq![p] + seq![rest]);
    assert(seq![p] + seq![rest] =~= seq![p, rest]);
    assert(seq![p, rest].drop_last() =~= seq![p]);
    assert(join(seq![p], Seq::<char>::empty()) == p);
    assert(join(seq![p, rest], Seq::<char>::empty()) == p + Seq::<char>::empty() + rest);
    assert(p + Seq::<char>::empty() + rest =~= p);
}

} // verus!
