//! Collecting retrieved codewords: the codewords of each part, put in the
//! order of their senders' ids and read back as bytes, ready for decoding.
use vstd::prelude::*;
use crate::message::PeerAddress;
use crate::text::{
    debug_bytes, parse_byte_list, chars_of, parse_bounded, parse_bounded_chars, split, split_chars, strip_chars, strip_leading,
    strip_trailing, trim, trim_chars, views,
};

verus! {

/// The bytes that the readable pieces give, in order: each piece trimmed and
/// read as a decimal `u8`; pieces that do not read are skipped.
pub open spec fn kept_bytes(parts: Seq<Seq<char>>) -> Seq<u8>
    decreases parts.len(),
{
    if parts.len() == 0 {
        Seq::empty()
    } else {
        let rest = kept_bytes(parts.drop_last());
        match parse_bounded(trim(parts.last()), 10, 255) {
            Some(v) => rest.push(v as u8),
            None => rest,
        }
    }
}

/// The bytes of a retrieved codeword `[1, 2, 3]`: `[` stripped from the
/// front and `]` from the back, the rest split at commas, the readable
/// pieces kept.
pub open spec fn retrieved_bytes(s: Seq<char>) -> Seq<u8> {
    kept_bytes(split(strip_trailing(strip_leading(s, '['), ']'), seq![',']))
}

/// Reads a retrieved codeword.
pub fn retrieved_bytes_of(s: &String) -> (r: Vec<u8>)
    ensures
        r@ == retrieved_bytes(s@),
{
    let text = chars_of(s.as_str());
    let inner = strip_chars(&text, '[', ']');
    let mut comma: Vec<char> = Vec::new();
    comma.push(',');
    assert(comma@ =~= seq![',']);
    let parts = split_chars(&inner, &comma);
    let ghost sp = views(parts@);
    assert(sp == split(strip_trailing(strip_leading(s@, '['), ']'), seq![',']));
    let mut out: Vec<u8> = Vec::new();
    let mut i: usize = 0;
    while i < parts.len()
        invariant
            i <= parts.len(),
            sp == views(parts@),
            out@ == kept_bytes(sp.subrange(0, i as int)),
        decreases parts.len() - i,
    {
        let t = trim_chars(&parts[i]);
        assert(t@ == trim(sp[i as int]));
        assert(sp.subrange(0, i + 1).drop_last() =~= sp.subrange(0, i as int));
        match parse_bounded_chars(&t, 10, 255) {
            Some(v) => {
                out.push(v as u8);
            },
            None => {},
        }
        i = i + 1;
    }
    assert(sp.subrange(0, i as int) =~= sp);
    out
}

/// The sender order of an address: its port less 7000.
pub open spec fn sender_order(a: PeerAddress) -> int {
    a.port - 7000
}

/// The number of values in `s` below `o`.
pub open spec fn count_below(s: Seq<int>, o: int) -> nat
    decreases s.len(),
{
    if s.len() == 0 {
        0
    } else {
        count_below(s.drop_last(), o) + if s.last() < o {
            1nat
        } else {
            0nat
        }
    }
}

/// The number of values in `s` equal to `o`.
pub open spec fn count_equal(s: Seq<int>, o: int) -> nat
    decreases s.len(),
{
    if s.len() == 0 {
        0
    } else {
        count_equal(s.drop_last(), o) + if s.last() == o {
            1nat
        } else {
            0nat
        }
    }
}

proof fn lemma_count_split(s: Seq<int>, x: int, y: int)
    requires
        x < y,
    ensures
        count_below(s, y) >= count_below(s, x) + count_equal(s, x),
    decreases s.len(),
{
    if s.len() > 0 {
        lemma_count_split(s.drop_last(), x, y);
    }
}

proof fn lemma_count_total(s: Seq<int>, x: int)
    ensures
        count_below(s, x) + count_equal(s, x) <= s.len(),
    decreases s.len(),
{
    if s.len() > 0 {
        lemma_count_total(s.drop_last(), x);
    }
}

proof fn lemma_count_present(s: Seq<int>, k: int)
    requires
        0 <= k < s.len(),
    ensures
        count_equal(s, s[k]) >= 1,
    decreases s.len(),
{
    if k < s.len() - 1 {
        assert(s.drop_last()[k] == s[k]);
        lemma_count_present(s.drop_last(), k);
    }
}

/// The sender orders of the entries.
pub open spec fn orders_of(entries: Seq<(PeerAddress, String)>) -> Seq<int> {
    Seq::new(entries.len(), |k: int| sender_order(entries[k].0))
}

/// The entries come from distinct senders with ports of at least 7000.
pub open spec fn entries_ok(entries: Seq<(PeerAddress, String)>) -> bool {
    &&& forall|k: int| 0 <= k < entries.len() ==> (#[trigger] entries[k]).0.port >= 7000
    &&& forall|a: int, b: int|
        0 <= a < b < entries.len() ==> (#[trigger] entries[a]).0.port != (#[trigger] entries[b]).0.port
}

/// The codewords of one part in the order of their senders: the codeword of
/// the entry whose sender has the `k`-th smallest order stands at `k`.
pub open spec fn ordered_codewords(entries: Seq<(PeerAddress, String)>, r: Seq<Seq<u8>>) -> bool {
    &&& r.len() == entries.len()
    &&& forall|k: int|
        0 <= k < entries.len() ==> r[count_below(orders_of(entries), #[trigger] sender_order(entries[k].0)) as int]
            == retrieved_bytes(entries[k].1@)
}

/// The number of senders with a smaller order.
fn rank_of(entries: &Vec<(PeerAddress, String)>, j: usize) -> (r: usize)
    requires
        j < entries@.len(),
    ensures
        r == count_below(orders_of(entries@), sender_order(entries@[j as int].0)),
{
    let o = entries[j].0.port;
    let ghost orders = orders_of(entries@);
    let mut n: usize = 0;
    let mut i: usize = 0;
    while i < entries.len()
        invariant
            i <= entries@.len(),
            orders == orders_of(entries@),
            o == entries@[j as int].0.port,
            n == count_below(orders.subrange(0, i as int), o - 7000),
            n <= i,
        decreases entries.len() - i,
    {
        assert(orders.subrange(0, i + 1).drop_last() =~= orders.subrange(0, i as int));
        if entries[i].0.port < o {
            n = n + 1;
        }
        i = i + 1;
    }
    assert(orders.subrange(0, i as int) =~= orders);
    n
}

/// The codewords of one part, in the order of their senders.
fn order_part(entries: &Vec<(PeerAddress, String)>) -> (r: Vec<Vec<u8>>)
    requires
        entries_ok(entries@),
    ensures
        ordered_codewords(entries@, r@.map_values(|v: Vec<u8>| v@)),
{
    let n = entries.len();
    let ghost orders = orders_of(entries@);
    let mut r: Vec<Vec<u8>> = Vec::new();
    let mut i: usize = 0;
    while i < n
        invariant
            i <= n,
            n == entries@.len(),
            r@.len() == i,
        decreases n - i,
    {
        r.push(Vec::new());
        i = i + 1;
    }
    let mut j: usize = 0;
    while j < n
        invariant
            j <= n,
            n == entries@.len(),
            r@.len() == n,
            orders == orders_of(entries@),
            entries_ok(entries@),
            forall|k: int|
                0 <= k < j ==> r@[count_below(orders, #[trigger] sender_order(entries@[k].0)) as int]@
                    == retrieved_bytes(entries@[k].1@),
        decreases n - j,
    {
        let rank = rank_of(entries, j);
        proof {
            lemma_count_present(orders, j as int);
            lemma_count_total(orders, orders[j as int]);
        }
        let bytes = retrieved_bytes_of(&entries[j].1);
        let ghost before = r@;
        r.set(rank, bytes);
        proof {
            assert forall|k: int| 0 <= k < j + 1 implies r@[count_below(orders, #[trigger] sender_order(entries@[k].0)) as int]@
                == retrieved_bytes(entries@[k].1@) by {
                lemma_count_present(orders, k);
                lemma_count_total(orders, orders[k]);
                if k < j {
                    let ok = orders[k];
                    let oj = orders[j as int];
                    assert(entries@[k].0.port != entries@[j as int].0.port);
                    if ok < oj {
                        lemma_count_split(orders, ok, oj);
                        lemma_count_present(orders, k);
                    } else {
                        lemma_count_split(orders, oj, ok);
                        lemma_count_present(orders, j as int);
                    }
                    assert(count_below(orders, ok) != count_below(orders, oj));
                }
            }
        }
        j = j + 1;
    }
    proof {
        let rv = r@.map_values(|v: Vec<u8>| v@);
        assert forall|k: int| 0 <= k < entries@.len() implies rv[count_below(orders_of(entries@), #[trigger] sender_order(entries@[k].0)) as int]
            == retrieved_bytes(entries@[k].1@) by {
            lemma_count_present(orders, k);
            lemma_count_total(orders, orders[k]);
        }
    }
    r
}

/// For each part, the codewords retrieved from the committee, ordered by
/// their senders' ids (port less 7000) and read back as bytes, ready for
/// decoding; the parts keep their order.
pub fn codeword_retrieve(retrieved: Vec<(usize, Vec<(PeerAddress, String)>)>, _committee_length: usize) -> (r: Vec<(usize, Vec<Vec<u8>>)>)
    requires
        forall|p: int| 0 <= p < retrieved@.len() ==> entries_ok((#[trigger] retrieved@[p]).1@),
    ensures
        r@.len() == retrieved@.len(),
        forall|p: int|
            0 <= p < r@.len() ==> (#[trigger] r@[p]).0 == retrieved@[p].0 && ordered_codewords(
                retrieved@[p].1@,
                r@[p].1@.map_values(|v: Vec<u8>| v@),
            ),
{
    let mut out: Vec<(usize, Vec<Vec<u8>>)> = Vec::new();
    let mut p: usize = 0;
    while p < retrieved.len()
        invariant
            p <= retrieved@.len(),
            out@.len() == p,
            forall|q: int| 0 <= q < retrieved@.len() ==> entries_ok((#[trigger] retrieved@[q]).1@),
            forall|q: int|
                0 <= q < p ==> (#[trigger] out@[q]).0 == retrieved@[q].0 && ordered_codewords(
                    retrieved@[q].1@,
                    out@[q].1@.map_values(|v: Vec<u8>| v@),
                ),
        decreases retrieved.len() - p,
    {
        let part = order_part(&retrieved[p].1);
        out.push((retrieved[p].0, part));
        p = p + 1;
    }
    out
}


/// Where every piece reads, all of them are kept.
proof fn lemma_kept_all(parts: Seq<Seq<char>>)
    requires
        forall|k: int| 0 <= k < parts.len() ==> parse_bounded(trim(#[trigger] parts[k]), 10, 255) is Some,
    ensures
        kept_bytes(parts) == Seq::new(parts.len(), |k: int| parse_bounded(trim(parts[k]), 10, 255)->0 as u8),
    decreases parts.len(),
{
    if parts.len() > 0 {
        let p = parts.drop_last();
        assert forall|k: int| 0 <= k < p.len() implies parse_bounded(trim(#[trigger] p[k]), 10, 255) is Some by {
            assert(p[k] == parts[k]);
        }
        lemma_kept_all(p);
        assert(parse_bounded(trim(parts.last()), 10, 255) is Some);
        assert(kept_bytes(parts) =~= Seq::new(parts.len(), |k: int| parse_bounded(trim(parts[k]), 10, 255)->0 as u8));
    }
}

/// A codeword that reads as a byte list is retrieved as those bytes.
pub proof fn lemma_retrieved_byte_list(s: Seq<char>)
    requires
        parse_byte_list(s) is Some,
    ensures
        retrieved_bytes(s) == parse_byte_list(s)->0,
{
    lemma_kept_all(split(strip_trailing(strip_leading(s, '['), ']'), seq![',']));
}

/// The bytes of a codeword come back when it is retrieved: the data that
/// a member forwards, written `[1, 2, 3]`, is read back exactly.
pub proof fn lemma_retrieved_debug_bytes(w: Seq<u8>)
    ensures
        retrieved_bytes(debug_bytes(w)) == w,
{
    if w.len() >= 1 {
        crate::text_facts::lemma_parse_debug_bytes(w);
        lemma_retrieved_byte_list(debug_bytes(w));
    } else {
        let d = debug_bytes(w);
        assert(d =~= seq!['[', ']']);
        crate::text::lemma_strip_leading_at(d, '[', 1);
        let t = d.subrange(1, 2);
        assert(t =~= seq![']']);
        crate::text::lemma_strip_trailing_at(t, ']', 0);
        let e = t.subrange(0, 0);
        assert(e =~= Seq::<char>::empty());
        crate::text_facts::lemma_split_whole(e, seq![',']);
        let parts = split(e, seq![',']);
        assert(parts =~= seq![e]);
        assert(trim(e) =~= e);
        assert(parse_bounded(e, 10, 255) is None);
        assert(parts.drop_last() =~= Seq::<Seq<char>>::empty());
        assert(parts.last() == e);
        assert(kept_bytes(parts.drop_last()) == Seq::<u8>::empty());
        assert(parse_bounded(trim(parts.last()), 10, 255) is None);
        assert(kept_bytes(parts) == Seq::<u8>::empty());
        assert(w =~= Seq::<u8>::empty());
    }
}

} // verus!
