//! Committee selection: after the codewords of the two shares came back,
//! either the recursion goes on with binary agreement on the pair of
//! shares, or, at the bottom, each qualified share is disseminated again to
//! the committee.
use vstd::prelude::*;
use vstd::arithmetic::power2::{pow2, lemma_pow2_unfold};
use vstd::utf8::{decode_utf8, valid_utf8};
use std::collections::HashMap;
use crate::deliver::{deliver_encode, witness_of};
use crate::gba::BA_setup;
use crate::merkle::{create_tree, get_root, strings_view};
use crate::message::{ConsensusMessage, NetworkMessage};
use crate::pvss_agreement::{encode_leaves, encoder, encoder_accepts, slice_bytes};
use crate::reactor::{accumulation_value, args_ok, committee_init, committee_message_ok, entries_ok, sent_to_committee, witness_views};
use crate::text::{chars_of, extend_chars, owned, string_of};

verus! {

/// The text that `String::from_utf8_lossy` makes of `bytes`.
pub uninterp spec fn utf8_lossy(bytes: Seq<u8>) -> Seq<char>;

/// `String::from_utf8_lossy(bytes).to_string()`. Its result is named; the
/// one fact stated beside the name is that of the documentation: valid
/// UTF-8 is decoded as it is (invalid sequences, which become U+FFFD, are
/// not described).
#[verifier::external_body]
fn lossy_text(bytes: &[u8]) -> (s: String)
    ensures
        s@ == utf8_lossy(bytes@),
        valid_utf8(bytes@) ==> s@ == decode_utf8(bytes@),
{
    String::from_utf8_lossy(bytes).to_string()
}

/// Whether `n` is `2` to the power `level`.
pub fn is_level_size(n: usize, level: usize) -> (r: bool)
    ensures
        r == (n as nat == pow2(level as nat)),
{
    let mut m: usize = n;
    let mut i: usize = 0;
    while i < level
        invariant
            i <= level,
            n as nat == pow2(level as nat) <==> m as nat == pow2((level - i) as nat),
        decreases level - i,
    {
        proof {
            lemma_pow2_unfold((level - i) as nat);
            vstd::arithmetic::power2::lemma_pow2_pos((level - i - 1) as nat);
        }
        if m % 2 != 0 {
            assert(m as nat != pow2((level - i) as nat));
            return false;
        }
        m = m / 2;
        i = i + 1;
    }
    proof {
        vstd::arithmetic::power2::lemma2_to64();
    }
    m == 1
}

/// Whether `x` is in `qual`.
pub fn holds_u32(qual: &Vec<u32>, x: u32) -> (r: bool)
    ensures
        r == qual@.contains(x),
{
    let mut i: usize = 0;
    while i < qual.len()
        invariant
            i <= qual@.len(),
            forall|k: int| 0 <= k < i ==> qual@[k] != x,
        decreases qual.len() - i,
    {
        if qual[i] == x {
            return true;
        }
        i = i + 1;
    }
    false
}

/// The text of share `part` in the agreed pair: the share read as text if
/// the share qualified, else `bot`.
pub open spec fn share_text(qual: Seq<u32>, part: u32, share: Seq<u8>) -> Seq<char> {
    if qual.contains(part) {
        utf8_lossy(share)
    } else {
        "bot"@
    }
}

/// The value that binary agreement runs on: the texts of the two shares,
/// joined by `-`.
pub open spec fn selection_value(qual: Seq<u32>, w1: Seq<u8>, w2: Seq<u8>) -> Seq<char> {
    share_text(qual, 1, w1) + seq!['-'] + share_text(qual, 2, w2)
}

/// The shares that the committee phase disseminates, in the order of
/// `qual`: share 1 for each entry `1` when it is not empty, share 2 for each
/// entry `2` when it is not empty.
pub open spec fn selected_parts(qual: Seq<u32>, w1: Seq<u8>, w2: Seq<u8>) -> Seq<usize>
    decreases qual.len(),
{
    if qual.len() == 0 {
        Seq::empty()
    } else {
        let rest = selected_parts(qual.drop_last(), w1, w2);
        if qual.last() == 1 && w1.len() != 0 {
            rest.push(1)
        } else if qual.last() == 2 && w2.len() != 0 {
            rest.push(2)
        } else {
            rest
        }
    }
}

/// The witnesses of all the codewords, in order.
pub open spec fn witness_list(words: Seq<Seq<char>>) -> Seq<Seq<u8>> {
    Seq::new(words.len(), |k: int| witness_of(words, k))
}

/// One committee message per member for the share `w`: the `k`-th codeword
/// of the share with its witness to the `k`-th member, under the share's
/// accumulation value.
pub open spec fn committee_batch_ok(
    batch: Seq<NetworkMessage>,
    w: Seq<u8>,
    part: usize,
    entries: Seq<Seq<char>>,
    args: Seq<Seq<char>>,
    level: usize,
) -> bool {
    let words = encode_leaves(w, entries.len(), Seq::empty());
    &&& batch.len() == entries.len()
    &&& forall|k: int|
        0 <= k < batch.len() ==> committee_message_ok(
            #[trigger] batch[k],
            k,
            entries,
            args,
            level,
            accumulation_value(w, entries.len(), Seq::empty()),
            entries.len() as usize,
            words,
            witness_list(words),
            part,
        )
}

/// Disseminates the share `w` to the committee as share `part`.
fn committee_batch(w: &Vec<u8>, part: usize, ip_address: &Vec<String>, args: &Vec<String>, level: usize) -> (r: Vec<NetworkMessage>)
    requires
        entries_ok(strings_view(ip_address@)),
        args_ok(strings_view(args@)),
        encoder_accepts(w@.len(), ip_address@.len() as nat, Seq::empty()),
    ensures
        committee_batch_ok(r@, w@, part, strings_view(ip_address@), strings_view(args@), level),
{
    proof {
        reveal_strlit("");
        reveal_strlit("dev_init");
    }
    let blank = owned("");
    assert(blank@ =~= Seq::<char>::empty());
    let (codeword_vec, witnesses_vec, merkle_len) = deliver_encode(w.as_slice(), owned("_"), ip_address.len(), blank);
    let medium = owned("");
    assert(medium@ =~= Seq::<char>::empty());
    let leaves = encoder(w.as_slice(), ip_address.len(), medium);
    let merkle_tree = create_tree(leaves);
    let acc_value = get_root(merkle_tree);
    let ghost words = encode_leaves(w@, ip_address@.len() as nat, Seq::empty());
    proof {
        assert(strings_view(codeword_vec@) == words);
        assert(witness_views(witnesses_vec@) =~= witness_list(words));
    }
    committee_init(ip_address, args, acc_value, merkle_len, codeword_vec, witnesses_vec, part, level)
}

/// Committee selection at the end of the codeword phase. Where the
/// committee's size is `2^level` (or `two_BA_check` is already set), each
/// qualified, non-empty share is disseminated again to the committee, one
/// batch per entry of `qual`; otherwise binary agreement starts on the pair
/// of share texts, and the one batch holds its echo.
#[allow(non_snake_case)]
pub fn committee_selection(
    qual: Vec<u32>,
    pvss_data: HashMap<usize, Vec<u8>>,
    ip_address: &Vec<String>,
    args: &Vec<String>,
    two_BA_check: bool,
    level: usize,
) -> (r: Vec<Vec<NetworkMessage>>)
    requires
        entries_ok(strings_view(ip_address@)),
        args_ok(strings_view(args@)),
        pvss_data@.contains_key(1),
        pvss_data@.contains_key(2),
        (two_BA_check || ip_address@.len() == pow2(level as nat)) ==> {
            &&& (qual@.contains(1) && pvss_data@[1]@.len() != 0 ==> encoder_accepts(
                pvss_data@[1]@.len(),
                ip_address@.len() as nat,
                Seq::empty(),
            ))
            &&& (qual@.contains(2) && pvss_data@[2]@.len() != 0 ==> encoder_accepts(
                pvss_data@[2]@.len(),
                ip_address@.len() as nat,
                Seq::empty(),
            ))
        },
    ensures
        !(two_BA_check || ip_address@.len() == pow2(level as nat)) ==> {
            &&& r@.len() == 1
            &&& r@[0]@.len() == 1
            &&& sent_to_committee(r@[0]@[0], strings_view(ip_address@), strings_view(args@), level)
            &&& r@[0]@[0].message matches ConsensusMessage::EchoMessage(e) && e.sign@ == Seq::<char>::empty()
                && e.value@ == selection_value(qual@, pvss_data@[1]@, pvss_data@[2]@) && e.types@
                == "echo"@
        },
        (two_BA_check || ip_address@.len() == pow2(level as nat)) ==> {
            let parts = selected_parts(qual@, pvss_data@[1]@, pvss_data@[2]@);
            &&& r@.len() == parts.len()
            &&& forall|b: int|
                0 <= b < r@.len() ==> committee_batch_ok(
                    (#[trigger] r@[b])@,
                    if parts[b] == 1 {
                        pvss_data@[1]@
                    } else {
                        pvss_data@[2]@
                    },
                    parts[b],
                    strings_view(ip_address@),
                    strings_view(args@),
                    level,
                )
        },
{
    broadcast use vstd::std_specs::hash::group_hash_axioms;
    let w1 = match pvss_data.get(&1) {
        Some(w) => slice_bytes(w, 0, w.len()),
        None => {
            assert(false);
            Vec::new()
        },
    };
    let w2 = match pvss_data.get(&2) {
        Some(w) => slice_bytes(w, 0, w.len()),
        None => {
            assert(false);
            Vec::new()
        },
    };
    assert(w1@ =~= pvss_data@[1]@);
    assert(w2@ =~= pvss_data@[2]@);
    let two_ba = two_BA_check || is_level_size(ip_address.len(), level);
    if !two_ba {
        let v1 = if holds_u32(&qual, 1) {
            lossy_text(w1.as_slice())
        } else {
            owned("bot")
        };
        let v2 = if holds_u32(&qual, 2) {
            lossy_text(w2.as_slice())
        } else {
            owned("bot")
        };
        let mut text = chars_of(v1.as_str());
        text.push('-');
        extend_chars(&mut text, &chars_of(v2.as_str()));
        let value = string_of(&text);
        let m = BA_setup(ip_address, args, value, level);
        let mut batch: Vec<NetworkMessage> = Vec::new();
        batch.push(m);
        let mut r: Vec<Vec<NetworkMessage>> = Vec::new();
        r.push(batch);
        return r;
    }
    let mut r: Vec<Vec<NetworkMessage>> = Vec::new();
    let mut i: usize = 0;
    while i < qual.len()
        invariant
            i <= qual@.len(),
            two_ba,
            w1@ == pvss_data@[1]@,
            w2@ == pvss_data@[2]@,
            entries_ok(strings_view(ip_address@)),
            args_ok(strings_view(args@)),
            qual@.contains(1) && w1@.len() != 0 ==> encoder_accepts(w1@.len(), ip_address@.len() as nat, Seq::empty()),
            qual@.contains(2) && w2@.len() != 0 ==> encoder_accepts(w2@.len(), ip_address@.len() as nat, Seq::empty()),
            r@.len() == selected_parts(qual@.subrange(0, i as int), w1@, w2@).len(),
            forall|b: int|
                0 <= b < r@.len() ==> committee_batch_ok(
                    (#[trigger] r@[b])@,
                    if selected_parts(qual@.subrange(0, i as int), w1@, w2@)[b] == 1 {
                        w1@
                    } else {
                        w2@
                    },
                    selected_parts(qual@.subrange(0, i as int), w1@, w2@)[b],
                    strings_view(ip_address@),
                    strings_view(args@),
                    level,
                ),
        decreases qual.len() - i,
    {
        let ghost prefix = qual@.subrange(0, i as int);
        let ghost next = qual@.subrange(0, i + 1);
        assert(next.drop_last() =~= prefix);
        assert(next.last() == qual@[i as int]);
        let ghost before = r@;
        if qual[i] == 1 && w1.len() != 0 {
            assert(qual@.contains(1));
            let batch = committee_batch(&w1, 1, ip_address, args, level);
            r.push(batch);
        } else if qual[i] == 2 && w2.len() != 0 {
            assert(qual@.contains(2));
            let batch = committee_batch(&w2, 2, ip_address, args, level);
            r.push(batch);
        }
        proof {
            let sp = selected_parts(next, w1@, w2@);
            assert forall|b: int| 0 <= b < r@.len() implies committee_batch_ok(
                (#[trigger] r@[b])@,
                if sp[b] == 1 { w1@ } else { w2@ },
                sp[b],
                strings_view(ip_address@),
                strings_view(args@),
                level,
            ) by {
                if b < before.len() {
                    assert(r@[b] == before[b]);
                    assert(sp[b] == selected_parts(prefix, w1@, w2@)[b]);
                }
            }
        }
        i = i + 1;
    }
    assert(qual@.subrange(0, qual@.len() as int) =~= qual@);
    r
}

} // verus!
