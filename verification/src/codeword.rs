//! Checking a received codeword against the accumulation value it claims to
//! belong to, using its Merkle witness.
use vstd::prelude::*;
use crate::merkle::{chunks32, leaf_hash, leaf_hashes, merkle_proof, merkle_root, merkle_verify, proof_helpers};
use crate::text::{all_ascii, chars_of, decimal, hex_decode, hex_decode_chars, hex_lower, parse_bounded, parse_bounded_chars, parse_byte_list, parse_byte_list_chars, replace, replace_chars, split, split_chars, string_of, views};
use crate::text::{join, contains_seq, matches_at};
use crate::text_facts::{
    lacks, lemma_debug_bytes_swap, lemma_decimal_digits, lemma_digits_lack, lemma_hex_roundtrip,
    lemma_join_append, lemma_join_suffix, lemma_parse_debug_bytes, lemma_parse_decimal, lemma_split_join,
};
use crate::wire::payload;
use crate::message::{witness_text, Codeword};

verus! {

/// The separator between the fields of a record: a comma and a space.
pub open spec fn field_sep() -> Seq<char> {
    seq![',', ' ']
}

/// The fields of a record.
pub open spec fn record_fields(record: Seq<char>) -> Seq<Seq<char>> {
    split(record, field_sep())
}

/// A field with every `;` turned back into `,`.
pub open spec fn unescape(field: Seq<char>) -> Seq<char> {
    replace(field, seq![';'], seq![','])
}

/// The inputs on which checking a codeword with these parts runs to the end:
/// the accumulation value is ASCII hexadecimal for exactly 32 bytes, the
/// witness is a whole number of 32-byte hashes and the index is a `usize`.
pub open spec fn codeword_parts_ok(witness: Seq<u8>, value: Seq<char>, index: Seq<char>) -> bool {
    &&& all_ascii(value)
    &&& hex_decode(value) is Some
    &&& hex_decode(value)->0.len() == 32
    &&& witness.len() % 32 == 0
    &&& parse_bounded(index, 10, usize::MAX as nat) is Some
}

/// The verdict on a codeword with these parts: the witness, read as 32-byte
/// hashes, proves the codeword's leaf at the index against the root read
/// from the accumulation value, in a tree of `leaves_len` leaves.
pub open spec fn codeword_verdict(
    codeword: Seq<char>,
    witness: Seq<u8>,
    value: Seq<char>,
    index: Seq<char>,
    leaves_len: usize,
) -> bool {
    merkle_verify(
        chunks32(witness),
        hex_decode(value)->0,
        seq![parse_bounded(index, 10, usize::MAX as nat)->0 as usize],
        seq![leaf_hash(codeword)],
        leaves_len,
    )
}

/// The parts of the `i`-th of `words` as dissemination sends them: the
/// codeword itself, its witness (whole 32-byte helper hashes of its leaf), the
/// accumulation value (the hexadecimal root over all the codewords, 32 bytes
/// long), its index in decimal and the number of codewords.
pub open spec fn honest_parts(
    words: Seq<Seq<char>>,
    i: int,
    codeword: Seq<char>,
    witness: Seq<u8>,
    value: Seq<char>,
    index: Seq<char>,
    leaves_len: usize,
) -> bool {
    &&& 0 <= i < words.len()
    &&& codeword == words[i]
    &&& witness.len() % 32 == 0
    &&& chunks32(witness) == proof_helpers(leaf_hashes(words), seq![i as usize])
    &&& value == hex_lower(merkle_root(leaf_hashes(words)))
    &&& merkle_root(leaf_hashes(words)).len() == 32
    &&& index == decimal(i as nat)
    &&& leaves_len == words.len()
}

/// Honest parts can be checked: the value decodes to the root, the index
/// reads back, and the witness is made of whole hashes.
pub proof fn lemma_honest_parts_ok(
    words: Seq<Seq<char>>,
    i: int,
    codeword: Seq<char>,
    witness: Seq<u8>,
    value: Seq<char>,
    index: Seq<char>,
    leaves_len: usize,
)
    requires
        honest_parts(words, i, codeword, witness, value, index, leaves_len),
    ensures
        codeword_parts_ok(witness, value, index),
        hex_decode(value) == Some(merkle_root(leaf_hashes(words))),
        parse_bounded(index, 10, usize::MAX as nat) == Some(i as nat),
{
    lemma_hex_roundtrip(merkle_root(leaf_hashes(words)));
    lemma_parse_decimal(i as nat, usize::MAX as nat);
}

/// A record that `verify_codeword` reads to the end: at least six fields;
/// the witness field a byte list of whole 32-byte hashes; the accumulation
/// value and the index as `codeword_parts_ok` asks; the tree size a `usize`.
pub open spec fn record_ok(record: Seq<char>) -> bool {
    let f = record_fields(record);
    &&& f.len() >= 6
    &&& parse_byte_list(unescape(f[2])) is Some
    &&& codeword_parts_ok(parse_byte_list(unescape(f[2]))->0, f[3], f[4])
    &&& parse_bounded(f[5], 10, usize::MAX as nat) is Some
}

/// The verdict on a record, with the codeword it carries.
pub open spec fn record_verdict(record: Seq<char>) -> bool {
    let f = record_fields(record);
    codeword_verdict(
        unescape(f[1]),
        parse_byte_list(unescape(f[2]))->0,
        f[3],
        f[4],
        parse_bounded(f[5], 10, usize::MAX as nat)->0 as usize,
    )
}

/// Whether every character is ASCII.
fn chars_ascii(s: &Vec<char>) -> (r: bool)
    ensures
        r == all_ascii(s@),
{
    let mut i: usize = 0;
    while i < s.len()
        invariant
            i <= s.len(),
            forall|k: int| 0 <= k < i ==> (s@[k] as u32) < 128,
        decreases s.len() - i,
    {
        if (s[i] as u32) >= 128 {
            return false;
        }
        i = i + 1;
    }
    true
}

/// The characters `;` and `,` as one-character sequences.
fn semicolon_and_comma() -> (r: (Vec<char>, Vec<char>))
    ensures
        r.0@ == seq![';'],
        r.1@ == seq![','],
{
    let mut a: Vec<char> = Vec::new();
    a.push(';');
    let mut b: Vec<char> = Vec::new();
    b.push(',');
    assert(a@ =~= seq![';']);
    assert(b@ =~= seq![',']);
    (a, b)
}

/// Checks a codeword (with `,` already restored) against the accumulation
/// value with its witness; returns the verdict and the codeword.
pub fn check_codeword(codeword: Vec<char>, witness: Vec<u8>, value: &Vec<char>, index: &Vec<char>, leaves_len: usize) -> (r: (bool, Vec<String>))
    requires
        codeword_parts_ok(witness@, value@, index@),
    ensures
        r.0 == codeword_verdict(codeword@, witness@, value@, index@, leaves_len),
        forall|words: Seq<Seq<char>>, i: int|
            #[trigger] honest_parts(words, i, codeword@, witness@, value@, index@, leaves_len) ==> r.0,
        r.1@.len() == 1,
        r.1@[0]@ == codeword@,
{
    let root_bytes = match hex_decode_chars(value) {
        Some(b) => b,
        None => {
            assert(false);
            Vec::new()
        },
    };
    let mut root: [u8; 32] = [0u8; 32];
    let mut k: usize = 0;
    while k < 32
        invariant
            root_bytes@.len() == 32,
            k <= 32,
            forall|j: int| 0 <= j < k ==> root@[j] == root_bytes@[j],
        decreases 32 - k,
    {
        root[k] = root_bytes[k];
        k = k + 1;
    }
    assert(root@ =~= root_bytes@);
    let idx = match parse_bounded_chars(index, 10, usize::MAX as u64) {
        Some(v) => v as usize,
        None => {
            assert(false);
            0
        },
    };
    let mut indices_to_prove: Vec<usize> = Vec::new();
    indices_to_prove.push(idx);
    let text = string_of(&codeword);
    let mut codewords: Vec<String> = Vec::new();
    codewords.push(text.clone());
    let proof = merkle_proof(witness, indices_to_prove, codewords.clone(), root, leaves_len);
    proof {
        assert(indices_to_prove@ =~= seq![parse_bounded(index@, 10, usize::MAX as nat)->0 as usize]);
        assert forall|words: Seq<Seq<char>>, i: int|
            #[trigger] honest_parts(words, i, codeword@, witness@, value@, index@, leaves_len) implies proof by {
            lemma_honest_parts_ok(words, i, codeword@, witness@, value@, index@, leaves_len);
            let leaves = leaf_hashes(words);
            assert(leaves[i] == leaf_hash(words[i]));
            assert(indices_to_prove@ =~= seq![i as usize]);
            assert(root@ == merkle_root(leaves));
            assert(proof_helpers(leaves, seq![i as usize]) == chunks32(witness@));
        }
    }
    (proof, codewords)
}

/// Checks the codeword carried by the first record of `output`: the fields,
/// separated by `, `, are sign, codeword, witness, accumulation value, index
/// and number of leaves, with `;` standing for `,` inside the codeword and
/// the witness. Returns the verdict and the codeword.
pub fn verify_codeword(output: Vec<String>) -> (r: (bool, Vec<String>))
    requires
        output@.len() >= 1,
        record_ok(output@[0]@),
    ensures
        r.0 == record_verdict(output@[0]@),
        r.1@.len() == 1,
        r.1@[0]@ == unescape(record_fields(output@[0]@)[1]),
        forall|words: Seq<Seq<char>>, i: int|
            #[trigger] honest_parts(
                words,
                i,
                unescape(record_fields(output@[0]@)[1]),
                parse_byte_list(unescape(record_fields(output@[0]@)[2]))->0,
                record_fields(output@[0]@)[3],
                record_fields(output@[0]@)[4],
                parse_bounded(record_fields(output@[0]@)[5], 10, usize::MAX as nat)->0 as usize,
            ) ==> r.0,
{
    let record = chars_of(output[0].as_str());
    let mut sep: Vec<char> = Vec::new();
    sep.push(',');
    sep.push(' ');
    assert(sep@ =~= field_sep());
    let parts = split_chars(&record, &sep);
    let ghost f = record_fields(record@);
    assert(views(parts@) == f);
    assert(parts@[1]@ == f[1] && parts@[2]@ == f[2] && parts@[3]@ == f[3]);
    assert(parts@[4]@ == f[4] && parts@[5]@ == f[5]);
    let (semicolon, comma) = semicolon_and_comma();
    let codeword = replace_chars(&parts[1], &semicolon, &comma);
    let witness_str = replace_chars(&parts[2], &semicolon, &comma);
    if !chars_ascii(&parts[3]) {
        assert(false);
    }
    let witness = match parse_byte_list_chars(&witness_str) {
        Some(w) => w,
        None => {
            assert(false);
            Vec::new()
        },
    };
    let merkle_len = match parse_bounded_chars(&parts[5], 10, usize::MAX as u64) {
        Some(v) => v as usize,
        None => {
            assert(false);
            0
        },
    };
    check_codeword(codeword, witness, &parts[3], &parts[4], merkle_len)
}


/// The fields of a codeword message as `Codeword::to_vec` gives them.
pub open spec fn codeword_fields(c: Codeword) -> Seq<Seq<char>> {
    seq![
        c.sign@,
        c.codewords@,
        witness_text(c.witness@),
        c.value@,
        c.index@,
        decimal(c.leaves_len as nat),
        c.types@,
    ]
}

/// A record that carries a codeword message: its fields, and any further
/// fields after them, joined with `, `.
pub open spec fn codeword_record(c: Codeword, extra: Seq<Seq<char>>) -> Seq<char> {
    join(codeword_fields(c) + extra, field_sep())
}

/// `verify_codeword` reads back what `Codeword::to_vec` writes: where no
/// text field (nor any further field) holds a comma and the witness is not
/// empty, the record splits into the message's fields, it can be read
/// exactly when its parts can be checked, and its verdict is that on the
/// message's codeword (with `,` restored), witness, value, index and tree
/// size.
pub proof fn lemma_codeword_record(c: Codeword, extra: Seq<Seq<char>>)
    requires
        c.witness@.len() >= 1,
        lacks(c.sign@, ','),
        lacks(c.codewords@, ','),
        lacks(c.value@, ','),
        lacks(c.index@, ','),
        lacks(c.types@, ','),
        forall|k: int| 0 <= k < extra.len() ==> lacks(#[trigger] extra[k], ','),
    ensures
        record_fields(codeword_record(c, extra)) == codeword_fields(c) + extra,
        record_ok(codeword_record(c, extra)) == codeword_parts_ok(c.witness@, c.value@, c.index@),
        record_verdict(codeword_record(c, extra)) == codeword_verdict(
            unescape(c.codewords@),
            c.witness@,
            c.value@,
            c.index@,
            c.leaves_len,
        ),
{
    let f = codeword_fields(c) + extra;
    lemma_debug_bytes_swap(c.witness@);
    lemma_decimal_digits(c.leaves_len as nat);
    lemma_digits_lack(decimal(c.leaves_len as nat), ',');
    assert forall|k: int| 0 <= k < f.len() implies lacks(#[trigger] f[k], ',') by {
        if k >= 7 {
            assert(f[k] == extra[k - 7]);
        }
    }
    lemma_split_join(f, field_sep());
    lemma_parse_debug_bytes(c.witness@);
    lemma_parse_decimal(c.leaves_len as nat, usize::MAX as nat);
    assert(unescape(f[2]) == crate::text::debug_bytes(c.witness@));
}

/// What a server receives for a codeword message, its fields sent with the
/// committee id and the sender's id and tagged with the sender's address,
/// is checked as the message itself: under the conditions of
/// `lemma_codeword_record`, with no comma in the sender's id or address.
pub proof fn lemma_received_codeword(c: Codeword, committee_id: u32, id: Seq<char>, ip: Seq<char>)
    requires
        c.witness@.len() >= 1,
        lacks(c.sign@, ','),
        lacks(c.codewords@, ','),
        lacks(c.value@, ','),
        lacks(c.index@, ','),
        lacks(c.types@, ','),
        lacks(id, ','),
        lacks(ip, ','),
    ensures
        ({
            let received = payload(codeword_fields(c), committee_id, id) + seq!['/'] + ip;
            &&& record_ok(received) == codeword_parts_ok(c.witness@, c.value@, c.index@)
            &&& record_verdict(received) == codeword_verdict(
                unescape(c.codewords@),
                c.witness@,
                c.value@,
                c.index@,
                c.leaves_len,
            )
        }),
{
    let d = decimal(committee_id as nat);
    let extra = seq![d, id + seq!['/'] + ip];
    lemma_join_append(codeword_fields(c), seq![d, id], field_sep());
    assert(seq![join(codeword_fields(c), field_sep()), d, id] =~= seq![join(codeword_fields(c), field_sep())] + seq![d, id]);
    lemma_join_append(seq![join(codeword_fields(c), field_sep())], seq![d, id], field_sep());
    assert(join(seq![join(codeword_fields(c), field_sep())], field_sep()) == join(codeword_fields(c), field_sep()));
    let all = codeword_fields(c) + seq![d, id];
    lemma_join_suffix(seq!['/'] + ip, all, field_sep());
    assert(all.last() == id);
    assert(id + (seq!['/'] + ip) =~= id + seq!['/'] + ip);
    assert(all.update(all.len() - 1, all.last() + (seq!['/'] + ip)) =~= codeword_fields(c) + extra);
    assert(payload(codeword_fields(c), committee_id, id) + seq!['/'] + ip =~= join(all, field_sep()) + (seq!['/'] + ip));
    lemma_decimal_digits(committee_id as nat);
    lemma_digits_lack(d, ',');
    assert(lacks(id + seq!['/'] + ip, ','));
    assert forall|k: int| 0 <= k < extra.len() implies lacks(#[trigger] extra[k], ',') by {}
    lemma_codeword_record(c, extra);
}


/// A text without a comma holds no `, `.
proof fn lemma_lacks_comma_sep(x: Seq<char>)
    requires
        lacks(x, ','),
    ensures
        !contains_seq(x, field_sep()),
{
    assert forall|j: int| !matches_at(x, field_sep(), j) by {
        if matches_at(x, field_sep(), j) {
            assert(x.subrange(j, j + 2)[0] == ',');
            assert(x[j] == ',');
        }
    }
}

/// `verify_codeword` reads back what `Codeword::to_vec` writes, joined with
/// `, `, whatever the kind field holds: where the sign holds no `, `, the
/// codeword, value and index hold no comma and the witness is not empty,
/// the record's first six fields are the message's, it can be read exactly
/// when its parts can be checked, and its verdict is that on the message's
/// codeword (with `,` restored), witness, value, index and tree size.
pub proof fn lemma_codeword_record_any_kind(c: Codeword)
    requires
        c.witness@.len() >= 1,
        !contains_seq(c.sign@, field_sep()),
        lacks(c.codewords@, ','),
        lacks(c.value@, ','),
        lacks(c.index@, ','),
    ensures
        record_fields(join(codeword_fields(c), field_sep())).len() >= 6,
        forall|k: int| 0 <= k < 6 ==> record_fields(join(codeword_fields(c), field_sep()))[k] == #[trigger] codeword_fields(c)[k],
        record_ok(join(codeword_fields(c), field_sep())) == codeword_parts_ok(c.witness@, c.value@, c.index@),
        record_verdict(join(codeword_fields(c), field_sep())) == codeword_verdict(
            unescape(c.codewords@),
            c.witness@,
            c.value@,
            c.index@,
            c.leaves_len,
        ),
{
    let p = codeword_fields(c);
    lemma_debug_bytes_swap(c.witness@);
    lemma_decimal_digits(c.leaves_len as nat);
    lemma_digits_lack(decimal(c.leaves_len as nat), ',');
    lemma_lacks_comma_sep(c.codewords@);
    lemma_lacks_comma_sep(witness_text(c.witness@));
    lemma_lacks_comma_sep(c.value@);
    lemma_lacks_comma_sep(c.index@);
    lemma_lacks_comma_sep(decimal(c.leaves_len as nat));
    assert(field_sep() =~= seq![',', ' ']);
    assert forall|k: int| 0 <= k < p.len() - 1 implies !contains_seq(#[trigger] p[k], seq![',', ' ']) by {}
    crate::text_facts::lemma_split_join_comma(p);
    lemma_parse_debug_bytes(c.witness@);
    lemma_parse_decimal(c.leaves_len as nat, usize::MAX as nat);
    let f = record_fields(join(p, field_sep()));
    assert(f[1] == p[1] && f[2] == p[2] && f[3] == p[3] && f[4] == p[4] && f[5] == p[5]);
    assert(unescape(f[2]) == crate::text::debug_bytes(c.witness@));
}
} // verus!
