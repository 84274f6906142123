//! What an adversarial node does: now and then (about once in a committee's
//! size) it replaces the accumulation value it reports by random letters and
//! digits of the same shape.
use vstd::prelude::*;
use vstd::utf8::encode_utf8;
use rand::Rng;
use crate::text::{chars_of, split, split_chars, str_equal, string_of, views};

verus! {

/// `rand::thread_rng().gen::<usize>()`: a random `usize`; nothing is known
/// of its value.
#[verifier::external_body]
fn random_usize() -> (n: usize) {
    rand::thread_rng().gen::<usize>()
}

/// An ASCII letter or digit.
pub open spec fn is_alphanumeric(c: char) -> bool {
    ('A' <= c <= 'Z') || ('a' <= c <= 'z') || ('0' <= c <= '9')
}

/// `thread_rng().sample(rand::distributions::Alphanumeric) as char`: a
/// random one of the 62 ASCII letters and digits.
#[verifier::external_body]
fn random_alphanumeric() -> (c: char)
    ensures
        is_alphanumeric(c),
{
    rand::thread_rng().sample(rand::distributions::Alphanumeric) as char
}

/// A draw hits when it is a multiple of the number of nodes.
pub open spec fn draw_hit(n1: usize, num_nodes: usize) -> bool {
    n1 % num_nodes == 0
}

/// Whether a draw hits: it is a multiple of the number of nodes.
pub fn draw_hits(n1: usize, num_nodes: usize) -> (r: bool)
    requires
        num_nodes > 0,
    ensures
        r == draw_hit(n1, num_nodes),
{
    n1 % num_nodes == 0
}

/// Decides at random whether to act, with a chance of about one in
/// `num_nodes`: a random `usize` is drawn and tested with `draw_hits`. The
/// decision is that of some draw; with a single node every draw hits.
pub fn create_prob(num_nodes: usize) -> (r: bool)
    requires
        num_nodes > 0,
    ensures
        exists|n1: usize| r == #[trigger] draw_hit(n1, num_nodes),
        num_nodes == 1 ==> r,
{
    let n1 = random_usize();
    let r = draw_hits(n1, num_nodes);
    assert(r == draw_hit(n1, num_nodes));
    r
}

/// Random text of ASCII letters and digits, one for each byte of `input`.
pub fn generate_random_string(input: String) -> (r: String)
    ensures
        r@.len() == encode_utf8(input@).len(),
        forall|i: int| 0 <= i < r@.len() ==> is_alphanumeric(#[trigger] r@[i]),
{
    let s = input.as_str();
    let bytes = s.as_bytes();
    let length = bytes.len();
    assert(s@ == input@);
    assert(bytes@ == encode_utf8(input@));
    let mut out: Vec<char> = Vec::new();
    let mut i: usize = 0;
    while i < length
        invariant
            i <= length,
            out@.len() == i,
            forall|k: int| 0 <= k < i ==> is_alphanumeric(#[trigger] out@[k]),
        decreases length - i,
    {
        out.push(random_alphanumeric());
        i = i + 1;
    }
    string_of(&out)
}

/// Replaces both sides of an accumulation pair `a-b` by random text of the
/// same byte lengths, keeping the `-` between them.
pub fn modify_accum(input: String) -> (r: String)
    requires
        split(input@, seq!['-']).len() >= 2,
    ensures
        exists|a: Seq<char>, b: Seq<char>|
            {
                &&& r@ == a + seq!['-'] + b
                &&& a.len() == encode_utf8(split(input@, seq!['-'])[0]).len()
                &&& b.len() == encode_utf8(split(input@, seq!['-'])[1]).len()
                &&& forall|i: int| 0 <= i < a.len() ==> is_alphanumeric(#[trigger] a[i])
                &&& forall|i: int| 0 <= i < b.len() ==> is_alphanumeric(#[trigger] b[i])
            },
{
    let text = chars_of(input.as_str());
    let mut dash: Vec<char> = Vec::new();
    dash.push('-');
    assert(dash@ =~= seq!['-']);
    let parts = split_chars(&text, &dash);
    assert(views(parts@)[0] == parts@[0]@ && views(parts@)[1] == parts@[1]@);
    let p1 = generate_random_string(string_of(&parts[0]));
    let p2 = generate_random_string(string_of(&parts[1]));
    let mut out = chars_of(p1.as_str());
    out.push('-');
    let tail = chars_of(p2.as_str());
    let mut i: usize = 0;
    while i < tail.len()
        invariant
            i <= tail@.len(),
            out@ == p1@ + seq!['-'] + tail@.subrange(0, i as int),
        decreases tail.len() - i,
    {
        out.push(tail[i]);
        i = i + 1;
    }
    assert(tail@.subrange(0, i as int) =~= p2@);
    string_of(&out)
}

/// Tampers with a message given as its fields: an accumulation message (its
/// last field `accum`) gets its value field, the second, replaced as
/// `modify_accum` does; any other message is left as it is.
pub fn modify_string(input_str: Vec<String>) -> (r: Vec<String>)
    requires
        input_str@.len() >= 1,
        input_str@.last()@ == "accum"@ ==> input_str@.len() >= 2 && split(input_str@[1]@, seq!['-']).len() >= 2,
    ensures
        input_str@.last()@ != "accum"@ ==> r@ == input_str@,
        input_str@.last()@ == "accum"@ ==> {
            &&& r@.len() == input_str@.len()
            &&& forall|k: int| 0 <= k < r@.len() && k != 1 ==> #[trigger] r@[k] == input_str@[k]
            &&& exists|a: Seq<char>, b: Seq<char>|
                {
                    &&& r@[1]@ == a + seq!['-'] + b
                    &&& a.len() == encode_utf8(split(input_str@[1]@, seq!['-'])[0]).len()
                    &&& b.len() == encode_utf8(split(input_str@[1]@, seq!['-'])[1]).len()
                    &&& forall|i: int| 0 <= i < a.len() ==> is_alphanumeric(#[trigger] a[i])
                    &&& forall|i: int| 0 <= i < b.len() ==> is_alphanumeric(#[trigger] b[i])
                }
        },
{
    let mut input_str = input_str;
    let last = input_str.len() - 1;
    if str_equal(input_str[last].as_str(), "accum") {
        let modified = modify_accum(input_str[1].clone());
        input_str.set(1, modified);
    }
    input_str
}

} // verus!
