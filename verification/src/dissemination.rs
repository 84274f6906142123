//! The receiving side of codeword dissemination: a member checks each
//! codeword it receives against its accumulation value and answers a valid
//! one with a retrieve message to the whole committee; a committee of two
//! reads the data straight from the codeword.
use vstd::prelude::*;
use crate::codeword::{
    check_codeword, codeword_parts_ok, codeword_record, codeword_verdict, honest_parts, lemma_codeword_record,
    lemma_honest_parts_ok, record_fields, record_ok, unescape,
};
use crate::message::witness_text;
use crate::merkle::{lemma_proof_len_positive, proof_len};
use crate::text::{contains_seq, hex_lower, join, parse_byte_list};
use crate::codeword::{codeword_fields, field_sep, lemma_codeword_record_any_kind};
use crate::message::Codeword;
use crate::reactor::escaped;
use crate::text_facts::{lemma_debug_bytes_swap, lemma_parse_debug_bytes, lemma_parse_decimal};
use crate::merkle::{chunks32, leaf_hashes, merkle_root, proof_helpers, strings_view};
use crate::message::{CodewordRetrieve, ConsensusMessage, NetworkMessage};
use crate::pvss_agreement::encode_leaves;
use crate::text_facts::{lacks, lemma_comma_swap, lemma_debug_bytes_lacks, lemma_decimal_digits, lemma_digits_lack, lemma_hex_roundtrip};
use crate::pvss_agreement::{encoder_size, shards_of};
use crate::reactor::{accumulation_value, args_ok, broadcast_message, codeword_message_ok, entries_ok, sent_to_committee};
use crate::text::{
    decimal, chars_of, owned, parse_bounded, parse_bounded_chars, replace_chars, split, split_chars, str_equal,
    strip_chars, strip_leading, strip_trailing, views,
};

verus! {

/// The pieces of a codeword `[1; 2; 3]` as a committee of two reads it:
/// `[` trimmed from both ends, then `]`, the rest split at `; `.
pub open spec fn pair_pieces(codewords: Seq<char>) -> Seq<Seq<char>> {
    let a = strip_trailing(strip_leading(codewords, '['), '[');
    split(strip_trailing(strip_leading(a, ']'), ']'), seq![';', ' '])
}

/// Every piece reads as a decimal `u8`.
pub open spec fn pair_bytes_ok(codewords: Seq<char>) -> bool {
    forall|k: int| 0 <= k < pair_pieces(codewords).len() ==> parse_bounded(
        #[trigger] pair_pieces(codewords)[k],
        10,
        255,
    ) is Some
}

/// The bytes that the pieces read as.
pub open spec fn pair_bytes(codewords: Seq<char>) -> Seq<u8> {
    Seq::new(
        pair_pieces(codewords).len(),
        |k: int| parse_bounded(pair_pieces(codewords)[k], 10, 255)->0 as u8,
    )
}

/// Reads the data from a codeword as a committee of two does.
pub fn pair_data(codewords: &String) -> (r: Vec<u8>)
    requires
        pair_bytes_ok(codewords@),
    ensures
        r@ == pair_bytes(codewords@),
{
    let text = chars_of(codewords.as_str());
    let a = strip_chars(&text, '[', '[');
    let b = strip_chars(&a, ']', ']');
    let mut sep: Vec<char> = Vec::new();
    sep.push(';');
    sep.push(' ');
    assert(sep@ =~= seq![';', ' ']);
    let parts = split_chars(&b, &sep);
    let ghost sp = pair_pieces(codewords@);
    assert(views(parts@) == sp);
    let mut out: Vec<u8> = Vec::new();
    let mut i: usize = 0;
    while i < parts.len()
        invariant
            i <= parts.len(),
            sp == views(parts@),
            sp == pair_pieces(codewords@),
            pair_bytes_ok(codewords@),
            out@.len() == i,
            forall|k: int| 0 <= k < i ==> parse_bounded(sp[k], 10, 255) == Some(out@[k] as nat),
        decreases parts.len() - i,
    {
        assert(sp[i as int] == parts@[i as int]@);
        assert(parse_bounded(sp[i as int], 10, 255) is Some);
        let v = match parse_bounded_chars(&parts[i], 10, 255) {
            Some(v) => v,
            None => {
                assert(false);
                0
            },
        };
        out.push(v as u8);
        i = i + 1;
    }
    assert(out@ =~= pair_bytes(codewords@));
    out
}

/// Whether the list holds the string `v`.
pub fn list_contains(list: &Vec<String>, v: &String) -> (r: bool)
    ensures
        r == strings_view(list@).contains(v@),
{
    let mut i: usize = 0;
    while i < list.len()
        invariant
            i <= list@.len(),
            forall|k: int| 0 <= k < i ==> list@[k]@ != v@,
        decreases list.len() - i,
    {
        if str_equal(list[i].as_str(), v.as_str()) {
            assert(strings_view(list@)[i as int] == v@);
            return true;
        }
        i = i + 1;
    }
    assert forall|k: int| 0 <= k < strings_view(list@).len() implies strings_view(list@)[k] != v@ by {
        assert(strings_view(list@)[k] == list@[k]@);
    }
    false
}

/// Whether a codeword for the accumulation value `value` was already taken
/// in the phase: codeword messages are looked up in the first list,
/// committee messages in the second.
pub open spec fn already_seen(
    communication_type: Seq<char>,
    codeword_list: Seq<Seq<char>>,
    committee_list: Seq<Seq<char>>,
    value: Seq<char>,
) -> bool {
    if communication_type == "codewords"@ {
        codeword_list.contains(value)
    } else {
        committee_list.contains(value)
    }
}

/// The answer to a valid codeword: a retrieve message, signed `sign`,
/// carrying the codeword, its part and the kind of phase, to the committee.
pub open spec fn retrieve_message_ok(
    m: NetworkMessage,
    entries: Seq<Seq<char>>,
    args: Seq<Seq<char>>,
    level: usize,
    codeword: Seq<char>,
    part: usize,
    communication_type: Seq<char>,
) -> bool {
    &&& sent_to_committee(m, entries, args, level)
    &&& m.message matches ConsensusMessage::CodewordRetrieveMessage(x) && x.sign@ == "sign"@
        && x.codewords@ == codeword && x.part == part && x.communication_type@ == communication_type
        && x.types@ == "codewordretrieve"@
}

/// Handles a received codeword (or committee) message. A committee of two
/// reads the data from the codeword and answers nothing. Otherwise, unless
/// a codeword for the same accumulation value was already taken, the
/// codeword (with `,` restored) is checked against the value with its
/// witness, and a valid one is answered with a retrieve message to the
/// committee. The two lists come back as they were given.
pub fn codeword_helper(
    communication_type: String,
    ip_address: &Vec<String>,
    codewords: String,
    witness: Vec<u8>,
    value: String,
    index: String,
    leaves_len: usize,
    part: usize,
    args: &Vec<String>,
    check_first_codeword_list: Vec<String>,
    check_first_committee_list: Vec<String>,
    level: usize,
) -> (r: (Vec<u8>, Vec<String>, Vec<String>, Option<NetworkMessage>))
    requires
        ip_address@.len() != 2 && !already_seen(
            communication_type@,
            strings_view(check_first_codeword_list@),
            strings_view(check_first_committee_list@),
            value@,
        ) ==> entries_ok(strings_view(ip_address@)) && args_ok(strings_view(args@)),
        ip_address@.len() == 2 ==> pair_bytes_ok(codewords@),
        ip_address@.len() != 2 && !already_seen(
            communication_type@,
            strings_view(check_first_codeword_list@),
            strings_view(check_first_committee_list@),
            value@,
        ) ==> codeword_parts_ok(witness@, value@, index@),
    ensures
        r.1 == check_first_codeword_list,
        r.2 == check_first_committee_list,
        ip_address@.len() == 2 ==> r.0@ == pair_bytes(codewords@) && r.3 is None,
        ip_address@.len() != 2 ==> r.0@ == Seq::<u8>::empty(),
        ip_address@.len() != 2 ==> (r.3 is Some <==> !already_seen(
            communication_type@,
            strings_view(check_first_codeword_list@),
            strings_view(check_first_committee_list@),
            value@,
        ) && codeword_verdict(unescape(codewords@), witness@, value@, index@, leaves_len)),
        r.3 matches Some(m) ==> retrieve_message_ok(
            m,
            strings_view(ip_address@),
            strings_view(args@),
            level,
            unescape(codewords@),
            part,
            communication_type@,
        ),
        forall|words: Seq<Seq<char>>, i: int|
            ip_address@.len() != 2 && !already_seen(
                communication_type@,
                strings_view(check_first_codeword_list@),
                strings_view(check_first_committee_list@),
                value@,
            ) && #[trigger] honest_parts(words, i, unescape(codewords@), witness@, value@, index@, leaves_len)
                ==> r.3 is Some,
{
    if ip_address.len() == 2 {
        let data = pair_data(&codewords);
        return (data, check_first_codeword_list, check_first_committee_list, None);
    }
    let data: Vec<u8> = Vec::new();
    let seen = if str_equal(communication_type.as_str(), "codewords") {
        list_contains(&check_first_codeword_list, &value)
    } else {
        list_contains(&check_first_committee_list, &value)
    };
    if seen {
        return (data, check_first_codeword_list, check_first_committee_list, None);
    }
    let mut semicolon: Vec<char> = Vec::new();
    semicolon.push(';');
    let mut comma: Vec<char> = Vec::new();
    comma.push(',');
    assert(semicolon@ =~= seq![';']);
    assert(comma@ =~= seq![',']);
    let codeword = replace_chars(&chars_of(codewords.as_str()), &semicolon, &comma);
    let (ok, checked) = check_codeword(codeword, witness, &chars_of(value.as_str()), &chars_of(index.as_str()), leaves_len);
    if !ok {
        return (data, check_first_codeword_list, check_first_committee_list, None);
    }
    let retrieve = CodewordRetrieve::create_codeword_retrieve(
        owned("sign"),
        checked[0].clone(),
        part,
        communication_type,
    );
    let m = broadcast_message(ip_address, args, ConsensusMessage::CodewordRetrieveMessage(retrieve), level);
    (data, check_first_codeword_list, check_first_committee_list, Some(m))
}


/// Every codeword that the encoder writes is a byte list, so it holds no `;`.
pub proof fn lemma_codewords_lack_semicolon(data: Seq<u8>, committee_size: nat, medium: Seq<char>, i: int)
    requires
        0 <= i < encode_leaves(data, committee_size, medium).len(),
    ensures
        lacks(encode_leaves(data, committee_size, medium)[i], ';'),
{
    let n = encoder_size(committee_size, medium);
    if n == 2 {
        lemma_debug_bytes_lacks(data, ';');
    } else {
        let sh = shards_of(data, n, n / 2);
        lemma_debug_bytes_lacks(sh[i], ';');
    }
}

/// What dissemination sends checks out. Take the codewords that the encoder
/// writes for `data`, the witnesses that `deliver_encode` returns with them,
/// and the accumulation value that `reactor_init` computes. Then the `i`-th
/// message that `codeword_init` builds from them carries, once `,` is
/// restored in its codeword, the honest parts of the `i`-th codeword, so
/// `codeword_helper` answers it unless its value was already taken; and its
/// codeword, value and index hold no comma, so its record reads back too.
pub proof fn lemma_sent_codeword_honest(
    m: NetworkMessage,
    i: int,
    entries: Seq<Seq<char>>,
    args: Seq<Seq<char>>,
    level: usize,
    data: Seq<u8>,
    committee_size: nat,
    medium: Seq<char>,
    witnesses: Seq<Seq<u8>>,
    part: usize,
    types: Seq<char>,
)
    requires
        0 <= i < witnesses.len(),
        witnesses.len() == encode_leaves(data, committee_size, medium).len(),
        encode_leaves(data, committee_size, medium).len() <= usize::MAX,
        forall|k: int|
            0 <= k < witnesses.len() ==> (#[trigger] witnesses[k]).len() % 32 == 0 && chunks32(witnesses[k])
                == proof_helpers(leaf_hashes(encode_leaves(data, committee_size, medium)), seq![k as usize]),
        merkle_root(leaf_hashes(encode_leaves(data, committee_size, medium))).len() == 32,
        codeword_message_ok(
            m,
            i,
            entries,
            args,
            level,
            accumulation_value(data, committee_size, medium),
            encode_leaves(data, committee_size, medium).len() as usize,
            encode_leaves(data, committee_size, medium),
            witnesses,
            part,
            types,
        ),
    ensures
        m.message matches ConsensusMessage::CodewordMessage(c) && honest_parts(
            encode_leaves(data, committee_size, medium),
            i,
            unescape(c.codewords@),
            c.witness@,
            c.value@,
            c.index@,
            c.leaves_len,
        ) && lacks(c.codewords@, ',') && lacks(c.value@, ',') && lacks(c.index@, ','),
{
    let words = encode_leaves(data, committee_size, medium);
    lemma_codewords_lack_semicolon(data, committee_size, medium, i);
    lemma_comma_swap(words[i]);
    lemma_hex_roundtrip(merkle_root(leaf_hashes(words)));
    lemma_decimal_digits(i as nat);
    lemma_digits_lack(decimal(i as nat), ',');
    assert(witnesses[i].len() % 32 == 0);
}

/// A codeword that dissemination ships checks out where it arrives and is
/// restored to its text. Take the codewords that the encoder writes for
/// `data` for a committee of at least two, the witnesses that
/// `deliver_encode` returns with them, and the `i`-th message that
/// `codeword_init` builds from them. The record that `Codeword::to_vec`
/// makes of it, joined with `, ` (with any further fields that hold no
/// comma), can be read by `verify_codeword`; its fields carry the honest
/// parts of the `i`-th codeword, so `verify_codeword` finds it valid, and
/// the codeword it gives back is the `i`-th codeword itself.
pub proof fn lemma_shipped_codeword_verifies(
    m: NetworkMessage,
    i: int,
    entries: Seq<Seq<char>>,
    args: Seq<Seq<char>>,
    level: usize,
    data: Seq<u8>,
    committee_size: nat,
    medium: Seq<char>,
    witnesses: Seq<Seq<u8>>,
    part: usize,
    types: Seq<char>,
    extra: Seq<Seq<char>>,
)
    requires
        0 <= i < witnesses.len(),
        witnesses.len() == encode_leaves(data, committee_size, medium).len(),
        2 <= encode_leaves(data, committee_size, medium).len() <= usize::MAX,
        forall|k: int|
            0 <= k < witnesses.len() ==> (#[trigger] witnesses[k]).len() % 32 == 0 && chunks32(witnesses[k])
                == proof_helpers(leaf_hashes(encode_leaves(data, committee_size, medium)), seq![k as usize])
                && witnesses[k].len() == 32 * proof_len(encode_leaves(data, committee_size, medium).len(), k as nat),
        merkle_root(leaf_hashes(encode_leaves(data, committee_size, medium))).len() == 32,
        codeword_message_ok(
            m,
            i,
            entries,
            args,
            level,
            accumulation_value(data, committee_size, medium),
            encode_leaves(data, committee_size, medium).len() as usize,
            encode_leaves(data, committee_size, medium),
            witnesses,
            part,
            types,
        ),
        lacks(types, ','),
        forall|k: int| 0 <= k < extra.len() ==> lacks(#[trigger] extra[k], ','),
    ensures
        m.message matches ConsensusMessage::CodewordMessage(c) && ({
            let f = record_fields(codeword_record(c, extra));
            &&& record_ok(codeword_record(c, extra))
            &&& unescape(f[1]) == encode_leaves(data, committee_size, medium)[i]
            &&& honest_parts(
                encode_leaves(data, committee_size, medium),
                i,
                unescape(f[1]),
                parse_byte_list(unescape(f[2]))->0,
                f[3],
                f[4],
                parse_bounded(f[5], 10, usize::MAX as nat)->0 as usize,
            )
        }),
{
    let words = encode_leaves(data, committee_size, medium);
    lemma_sent_codeword_honest(m, i, entries, args, level, data, committee_size, medium, witnesses, part, types);
    let c = m.message->CodewordMessage_0;
    lemma_proof_len_positive(words.len(), i as nat);
    assert(witnesses[i].len() == 32 * proof_len(words.len(), i as nat));
    assert(c.witness@.len() >= 1);
    assert(lacks(c.sign@, ','));
    lemma_codeword_record(c, extra);
    lemma_honest_parts_ok(words, i, unescape(c.codewords@), c.witness@, c.value@, c.index@, c.leaves_len);
    let f = record_fields(codeword_record(c, extra));
    assert(f[1] == c.codewords@);
    assert(f[2] == witness_text(c.witness@));
    assert(f[3] == c.value@ && f[4] == c.index@ && f[5] == decimal(c.leaves_len as nat));
    lemma_debug_bytes_swap(c.witness@);
    lemma_parse_debug_bytes(c.witness@);
    lemma_parse_decimal(c.leaves_len as nat, usize::MAX as nat);
}

/// Any codeword built from what `deliver_encode` returns checks out where
/// it arrives and is restored to its text, whatever its sign (short of a
/// `, `) and its kind. Take the codewords that the encoder writes for `data`
/// for a committee of at least two, the witnesses returned with them, and a
/// codeword message whose codeword is the `i`-th codeword with `;` for `,`,
/// whose witness is the `i`-th witness, whose value is the root of the tree
/// over the codewords (as `get_root` writes it), whose index is `i` and
/// whose tree size is the number of codewords. The record that
/// `Codeword::to_vec` makes of it, joined with `, `, can be read by
/// `verify_codeword`, carries the honest parts of the `i`-th codeword (so
/// `verify_codeword` finds it valid), and gives back the `i`-th codeword.
pub proof fn lemma_delivered_codeword_verifies(
    c: Codeword,
    i: int,
    data: Seq<u8>,
    committee_size: nat,
    medium: Seq<char>,
    witnesses: Seq<Seq<u8>>,
)
    requires
        0 <= i < witnesses.len(),
        witnesses.len() == encode_leaves(data, committee_size, medium).len(),
        2 <= encode_leaves(data, committee_size, medium).len() <= usize::MAX,
        forall|k: int|
            0 <= k < witnesses.len() ==> (#[trigger] witnesses[k]).len() % 32 == 0 && chunks32(witnesses[k])
                == proof_helpers(leaf_hashes(encode_leaves(data, committee_size, medium)), seq![k as usize])
                && witnesses[k].len() == 32 * proof_len(encode_leaves(data, committee_size, medium).len(), k as nat),
        merkle_root(leaf_hashes(encode_leaves(data, committee_size, medium))).len() == 32,
        !contains_seq(c.sign@, field_sep()),
        c.codewords@ == escaped(encode_leaves(data, committee_size, medium)[i]),
        c.witness@ == witnesses[i],
        c.value@ == hex_lower(merkle_root(leaf_hashes(encode_leaves(data, committee_size, medium)))),
        c.index@ == decimal(i as nat),
        c.leaves_len == encode_leaves(data, committee_size, medium).len(),
    ensures
        ({
            let f = record_fields(join(codeword_fields(c), field_sep()));
            &&& record_ok(join(codeword_fields(c), field_sep()))
            &&& unescape(f[1]) == encode_leaves(data, committee_size, medium)[i]
            &&& honest_parts(
                encode_leaves(data, committee_size, medium),
                i,
                unescape(f[1]),
                parse_byte_list(unescape(f[2]))->0,
                f[3],
                f[4],
                parse_bounded(f[5], 10, usize::MAX as nat)->0 as usize,
            )
        }),
{
    let words = encode_leaves(data, committee_size, medium);
    lemma_codewords_lack_semicolon(data, committee_size, medium, i);
    lemma_comma_swap(words[i]);
    lemma_hex_roundtrip(merkle_root(leaf_hashes(words)));
    lemma_decimal_digits(i as nat);
    lemma_digits_lack(decimal(i as nat), ',');
    lemma_proof_len_positive(words.len(), i as nat);
    assert(witnesses[i].len() == 32 * proof_len(words.len(), i as nat));
    lemma_hex_lacks_comma(merkle_root(leaf_hashes(words)));
    lemma_codeword_record_any_kind(c);
    lemma_honest_parts_ok(words, i, unescape(c.codewords@), c.witness@, c.value@, c.index@, c.leaves_len);
    let f = record_fields(join(codeword_fields(c), field_sep()));
    assert(f[1] == codeword_fields(c)[1]);
    assert(f[2] == codeword_fields(c)[2]);
    assert(f[3] == codeword_fields(c)[3]);
    assert(f[4] == codeword_fields(c)[4]);
    assert(f[5] == codeword_fields(c)[5]);
    lemma_debug_bytes_swap(c.witness@);
    lemma_parse_debug_bytes(c.witness@);
    lemma_parse_decimal(c.leaves_len as nat, usize::MAX as nat);
}

/// Lower-case hexadecimal holds no comma.
proof fn lemma_hex_lacks_comma(b: Seq<u8>)
    ensures
        lacks(hex_lower(b), ','),
{
    assert forall|k: int| 0 <= k < hex_lower(b).len() implies hex_lower(b)[k] != ',' by {
        crate::text_facts::lemma_hex_digit((b[k / 2] / 16) as nat);
        crate::text_facts::lemma_hex_digit((b[k / 2] % 16) as nat);
    }
}

} // verus!
