//! The decisions of the reactor, the per-node state machine that runs the
//! recursive beacon protocol: committee addresses, the recursive halving of
//! committees, and the messages each phase sends.
use vstd::prelude::*;
use crate::merkle::{create_tree, get_root, leaf_hashes, merkle_root, strings_view};
use crate::accum::{accum_check, accum_result, accum_texts_ok};
use crate::pvss_agreement::{encode_leaves, encoder, encoder_accepts};
use crate::message::{Accum, Codeword, Committee, ConsensusMessage, InternalState, NetworkMessage, PeerAddress, Propose, Vote};
use crate::text::{contains_chars, contains_seq, count_chars, count_of, first_word, first_word_chars, hex_lower, chars_of, decimal, decimal_chars, owned, parse_bounded, parse_bounded_chars, replace, replace_chars, split, split_chars, string_of, views};

verus! {

/// The pieces of a committee entry `id-ip`.
pub open spec fn entry_parts(e: Seq<char>) -> Seq<Seq<char>> {
    split(e, seq!['-'])
}

/// A committee entry `id-ip` whose id is a `u32` and whose port, 7000 plus
/// the id, is a valid port.
pub open spec fn entry_ok(e: Seq<char>) -> bool {
    &&& entry_parts(e).len() >= 2
    &&& parse_bounded(entry_parts(e)[0], 10, u32::MAX as nat) is Some
    &&& 7000 + parse_bounded(entry_parts(e)[0], 10, u32::MAX as nat)->0 <= u16::MAX
}

/// The host of an entry.
pub open spec fn entry_host(e: Seq<char>) -> Seq<char> {
    entry_parts(e)[1]
}

/// The port of an entry: 7000 plus its id.
pub open spec fn entry_port(e: Seq<char>) -> nat {
    7000 + parse_bounded(entry_parts(e)[0], 10, u32::MAX as nat)->0
}

/// The address that an entry names.
pub open spec fn addresses_match(a: Seq<PeerAddress>, entries: Seq<Seq<char>>) -> bool {
    &&& a.len() == entries.len()
    &&& forall|i: int|
        0 <= i < a.len() ==> (#[trigger] a[i]).host@ == entry_host(entries[i]) && a[i].port
            == entry_port(entries[i])
}

/// Every entry is well formed.
pub open spec fn entries_ok(entries: Seq<Seq<char>>) -> bool {
    forall|i: int| 0 <= i < entries.len() ==> entry_ok(#[trigger] entries[i])
}

/// The address of a committee entry `id-ip`: the host `ip` with port 7000
/// plus `id`.
pub fn entry_address(entry: &String) -> (a: PeerAddress)
    requires
        entry_ok(entry@),
    ensures
        a.host@ == entry_host(entry@),
        a.port == entry_port(entry@),
{
    let e = chars_of(entry.as_str());
    let mut dash: Vec<char> = Vec::new();
    dash.push('-');
    assert(dash@ =~= seq!['-']);
    let parts = split_chars(&e, &dash);
    assert(views(parts@)[0] == parts@[0]@ && views(parts@)[1] == parts@[1]@);
    let id = match parse_bounded_chars(&parts[0], 10, u32::MAX as u64) {
        Some(v) => v,
        None => {
            assert(false);
            0
        },
    };
    PeerAddress { host: string_of(&parts[1]), port: (7000 + id) as u16 }
}

/// The addresses of the committee entries, in order.
pub fn committee_addresses(ip_address: &Vec<String>) -> (a: Vec<PeerAddress>)
    requires
        entries_ok(strings_view(ip_address@)),
    ensures
        addresses_match(a@, strings_view(ip_address@)),
{
    let ghost entries = strings_view(ip_address@);
    let mut sockets: Vec<PeerAddress> = Vec::new();
    let mut i: usize = 0;
    while i < ip_address.len()
        invariant
            i <= ip_address@.len(),
            entries == strings_view(ip_address@),
            entries_ok(entries),
            addresses_match(sockets@, entries.subrange(0, i as int)),
        decreases ip_address.len() - i,
    {
        assert(entry_ok(entries[i as int]));
        let a = entry_address(&ip_address[i]);
        sockets.push(a);
        i = i + 1;
    }
    assert(entries.subrange(0, i as int) =~= entries);
    sockets
}

/// The node's arguments name its id (`args[2]`, a `u32` whose port, 7000
/// plus the id, is valid) and its host (`args[6]`).
pub open spec fn args_ok(args: Seq<Seq<char>>) -> bool {
    &&& args.len() >= 7
    &&& parse_bounded(args[2], 10, u32::MAX as nat) is Some
    &&& 7000 + parse_bounded(args[2], 10, u32::MAX as nat)->0 <= u16::MAX
}

/// The node's own port: 7000 plus its id.
pub open spec fn own_port(args: Seq<Seq<char>>) -> nat {
    7000 + parse_bounded(args[2], 10, u32::MAX as nat)->0
}

/// The node's own address: its host `args[6]` with port 7000 plus its id
/// `args[2]`.
pub fn sender_address(args: &Vec<String>) -> (a: PeerAddress)
    requires
        args_ok(strings_view(args@)),
    ensures
        a.host == args@[6],
        a.port == own_port(strings_view(args@)),
{
    let id_text = chars_of(args[2].as_str());
    let id = match parse_bounded_chars(&id_text, 10, u32::MAX as u64) {
        Some(v) => v,
        None => {
            assert(false);
            0
        },
    };
    PeerAddress { host: args[6].clone(), port: (7000 + id) as u16 }
}

/// The state for a level: the level and the committee's addresses.
pub fn set_state(ip_address: &Vec<String>, level: usize) -> (state: InternalState)
    requires
        entries_ok(strings_view(ip_address@)),
    ensures
        state.level == level,
        addresses_match(state.addresses@, strings_view(ip_address@)),
{
    InternalState { level: level, addresses: committee_addresses(ip_address) }
}

/// `n` is a power of two.
pub open spec fn is_pow2(n: nat) -> bool
    decreases n,
{
    if n == 0 {
        false
    } else if n == 1 {
        true
    } else {
        n % 2 == 0 && is_pow2(n / 2)
    }
}

/// The halves that the recursive split of `s` visits, in pre-order: first
/// the left halves, then the right halves, each list starting with the
/// halves of `s` itself.
pub open spec fn halves(s: Seq<String>) -> (Seq<Seq<String>>, Seq<Seq<String>>)
    decreases s.len(),
{
    if s.len() <= 2 {
        (Seq::empty(), Seq::empty())
    } else {
        let mid = s.len() / 2;
        let l = s.subrange(0, mid as int);
        let r = s.subrange(mid as int, s.len() as int);
        (
            seq![l] + halves(l).0 + halves(r).0,
            seq![r] + halves(l).1 + halves(r).1,
        )
    }
}

/// The views of a sequence of string vectors.
pub open spec fn vec_views(v: Seq<Vec<String>>) -> Seq<Seq<String>> {
    v.map_values(|x: Vec<String>| x@)
}

/// Splits the committee `input` in halves, recursively, down to pairs, and
/// appends the left halves to `left_half` and the right halves to
/// `right_half` in the order of a pre-order walk.
pub fn split_vec_recursively(input: &[String], left_half: &mut Vec<Vec<String>>, right_half: &mut Vec<Vec<String>>)
    requires
        is_pow2(input@.len()),
        input@.len() >= 2,
    ensures
        vec_views(final(left_half)@) == vec_views(old(left_half)@) + halves(input@).0,
        vec_views(final(right_half)@) == vec_views(old(right_half)@) + halves(input@).1,
    decreases input@.len(),
{
    let length = input.len();
    if length == 2 {
        proof {
            assert(vec_views(left_half@) =~= vec_views(old(left_half)@) + halves(input@).0);
            assert(vec_views(right_half@) =~= vec_views(old(right_half)@) + halves(input@).1);
        }
        return;
    }
    let mid = input.len() / 2;
    let ghost s = input@;
    let mut left_slice: Vec<String> = Vec::new();
    let mut right_slice: Vec<String> = Vec::new();
    let mut i: usize = 0;
    while i < length
        invariant
            length == input@.len(),
            s == input@,
            mid == length / 2,
            i <= length,
            left_slice@ == s.subrange(0, if i < mid { i as int } else { mid as int }),
            right_slice@ == s.subrange(mid as int, if i < mid { mid as int } else { i as int }),
        decreases length - i,
    {
        let item = input[i].clone();
        if i < mid {
            left_slice.push(item);
            assert(left_slice@ =~= s.subrange(0, i + 1));
        } else {
            right_slice.push(item);
            assert(right_slice@ =~= s.subrange(mid as int, i + 1));
        }
        i = i + 1;
    }
    let ghost lv = left_half@;
    let ghost rv = right_half@;
    left_half.push(left_slice.clone());
    right_half.push(right_slice.clone());
    proof {
        assert(vec_views(left_half@) =~= vec_views(lv).push(left_slice@));
        assert(vec_views(right_half@) =~= vec_views(rv).push(right_slice@));
        assert(is_pow2(length as nat / 2));
    }
    split_vec_recursively(left_slice.as_slice(), left_half, right_half);
    split_vec_recursively(right_slice.as_slice(), left_half, right_half);
    proof {
        let l = s.subrange(0, mid as int);
        let r = s.subrange(mid as int, s.len() as int);
        assert(vec_views(left_half@) =~= vec_views(lv) + halves(s).0);
        assert(vec_views(right_half@) =~= vec_views(rv) + halves(s).1);
    }
}

/// `m` goes from the node to every member of the committee `entries` at
/// `level`.
pub open spec fn sent_to_committee(m: NetworkMessage, entries: Seq<Seq<char>>, args: Seq<Seq<char>>, level: usize) -> bool {
    &&& m.sender.host@ == args[6]
    &&& m.sender.port == own_port(args)
    &&& addresses_match(m.addresses@, entries)
    &&& m.level == level
}

/// The message `message` from the node to every member of the committee.
pub fn broadcast_message(ip_address: &Vec<String>, args: &Vec<String>, message: ConsensusMessage, level: usize) -> (m: NetworkMessage)
    requires
        entries_ok(strings_view(ip_address@)),
        args_ok(strings_view(args@)),
    ensures
        sent_to_committee(m, strings_view(ip_address@), strings_view(args@), level),
        m.message == message,
{
    let sockets = committee_addresses(ip_address);
    let sender = sender_address(args);
    NetworkMessage { sender: sender, addresses: sockets, message: message, level: level }
}

/// The accumulation value `acc_value_zl`, signed `sign`, to the committee.
pub fn accum_init(acc_value_zl: String, ip_address: &Vec<String>, args: &Vec<String>, level: usize) -> (m: NetworkMessage)
    requires
        entries_ok(strings_view(ip_address@)),
        args_ok(strings_view(args@)),
    ensures
        sent_to_committee(m, strings_view(ip_address@), strings_view(args@), level),
        m.message matches ConsensusMessage::AccumMessage(a) && a.sign@ == "sign"@ && a.value
            == acc_value_zl && a.types@ == "accum"@,
{
    let accum = Accum::create_accum(owned("sign"), acc_value_zl);
    broadcast_message(ip_address, args, ConsensusMessage::AccumMessage(accum), level)
}

/// A vote for `v` in voting round `no`, unsigned, to the committee.
pub fn forward_helper(ip_address: &Vec<String>, args: &Vec<String>, v: String, no: usize, level: usize) -> (m: NetworkMessage)
    requires
        entries_ok(strings_view(ip_address@)),
        args_ok(strings_view(args@)),
    ensures
        sent_to_committee(m, strings_view(ip_address@), strings_view(args@), level),
        m.message matches ConsensusMessage::VoteMessage(x) && x.sign@ == Seq::<char>::empty()
            && x.value == v && x.no == no && x.types@ == "vote"@,
{
    let vote = Vote::create_vote(owned(""), no, v);
    proof {
        reveal_strlit("");
    }
    broadcast_message(ip_address, args, ConsensusMessage::VoteMessage(vote), level)
}

/// A proposal of `v`, unsigned, to the committee.
pub fn propose_helper(ip_address: &Vec<String>, args: &Vec<String>, v: String, level: usize) -> (m: NetworkMessage)
    requires
        entries_ok(strings_view(ip_address@)),
        args_ok(strings_view(args@)),
    ensures
        sent_to_committee(m, strings_view(ip_address@), strings_view(args@), level),
        m.message matches ConsensusMessage::ProposeMessage(x) && x.sign@ == Seq::<char>::empty()
            && x.value == v && x.types@ == "propose"@,
{
    let propose = Propose::create_propose(owned(""), v);
    proof {
        reveal_strlit("");
    }
    broadcast_message(ip_address, args, ConsensusMessage::ProposeMessage(propose), level)
}

/// A codeword as sent: every `,` written `;`.
pub open spec fn escaped(codeword: Seq<char>) -> Seq<char> {
    replace(codeword, seq![','], seq![';'])
}

/// The `i`-th message of `codeword_init`: the `i`-th codeword (escaped) with
/// its witness, for the `i`-th member only.
pub open spec fn codeword_message_ok(
    m: NetworkMessage,
    i: int,
    entries: Seq<Seq<char>>,
    args: Seq<Seq<char>>,
    level: usize,
    value: Seq<char>,
    merkle_len: usize,
    codewords: Seq<Seq<char>>,
    witnesses: Seq<Seq<u8>>,
    part: usize,
    types: Seq<char>,
) -> bool {
    &&& m.sender.host@ == args[6]
    &&& m.sender.port == own_port(args)
    &&& addresses_match(m.addresses@, seq![entries[i]])
    &&& m.level == level
    &&& m.message matches ConsensusMessage::CodewordMessage(c) && c.sign@ == Seq::<char>::empty()
        && c.codewords@ == escaped(codewords[i]) && c.witness@ == witnesses[i] && c.value@
        == value && c.index@ == decimal(i as nat) && c.leaves_len == merkle_len && c.part == part
        && c.types@ == types
}

/// The view of each byte vector.
pub open spec fn witness_views(w: Seq<Vec<u8>>) -> Seq<Seq<u8>> {
    w.map_values(|x: Vec<u8>| x@)
}

/// The escaped `i`-th codeword, its index as text, and the one-member
/// committee of the `i`-th entry.
fn codeword_pieces(ip_address: &Vec<String>, codeword_vec: &Vec<String>, i: usize) -> (r: (String, String, Vec<String>))
    requires
        i < ip_address@.len(),
        i < codeword_vec@.len(),
    ensures
        r.0@ == escaped(codeword_vec@[i as int]@),
        r.1@ == decimal(i as nat),
        strings_view(r.2@) == seq![ip_address@[i as int]@],
{
    let mut comma: Vec<char> = Vec::new();
    comma.push(',');
    let mut semicolon: Vec<char> = Vec::new();
    semicolon.push(';');
    assert(comma@ =~= seq![',']);
    assert(semicolon@ =~= seq![';']);
    let leaf = replace_chars(&chars_of(codeword_vec[i].as_str()), &comma, &semicolon);
    let index_text = string_of(&decimal_chars(i as u64));
    let mut subset: Vec<String> = Vec::new();
    subset.push(ip_address[i].clone());
    assert(strings_view(subset@) =~= seq![ip_address@[i as int]@]);
    (string_of(&leaf), index_text, subset)
}

/// One message per witness: the `i`-th codeword with the `i`-th witness, to
/// the `i`-th member of the committee. An adversarial node (`args[8]` is
/// `1`) sends the honest codewords too: a reshuffle of the codewords by such
/// a node is not part of this library.
pub fn codeword_init(
    ip_address: &Vec<String>,
    level: usize,
    args: &Vec<String>,
    value: String,
    merkle_len: usize,
    codeword_vec: Vec<String>,
    witnesses_vec: Vec<Vec<u8>>,
    part: usize,
    types: String,
) -> (network_vec: Vec<NetworkMessage>)
    requires
        entries_ok(strings_view(ip_address@)),
        args_ok(strings_view(args@)),
        witnesses_vec@.len() <= ip_address@.len(),
        witnesses_vec@.len() <= codeword_vec@.len(),
    ensures
        network_vec@.len() == witnesses_vec@.len(),
        forall|i: int|
            0 <= i < network_vec@.len() ==> codeword_message_ok(
                #[trigger] network_vec@[i],
                i,
                strings_view(ip_address@),
                strings_view(args@),
                level,
                value@,
                merkle_len,
                strings_view(codeword_vec@),
                witness_views(witnesses_vec@),
                part,
                types@,
            ),
{
    let mut network_vec: Vec<NetworkMessage> = Vec::new();
    let mut index: usize = 0;
    while index < witnesses_vec.len()
        invariant
            index <= witnesses_vec@.len(),
            witnesses_vec@.len() <= ip_address@.len(),
            witnesses_vec@.len() <= codeword_vec@.len(),
            entries_ok(strings_view(ip_address@)),
            args_ok(strings_view(args@)),
            network_vec@.len() == index,
            forall|i: int|
                0 <= i < index ==> codeword_message_ok(
                    #[trigger] network_vec@[i],
                    i,
                    strings_view(ip_address@),
                    strings_view(args@),
                    level,
                    value@,
                    merkle_len,
                    strings_view(codeword_vec@),
                    witness_views(witnesses_vec@),
                    part,
                    types@,
                ),
        decreases witnesses_vec.len() - index,
    {
        let (leaf, index_text, subset) = codeword_pieces(ip_address, &codeword_vec, index);
        proof {
            assert(entries_ok(strings_view(subset@))) by {
                assert(entry_ok(strings_view(ip_address@)[index as int]));
            }
        }
        let w = crate::pvss_agreement::slice_bytes(&witnesses_vec[index], 0, witnesses_vec[index].len());
        proof {
            assert(w@ =~= witness_views(witnesses_vec@)[index as int]);
            assert(strings_view(ip_address@)[index as int] == ip_address@[index as int]@);
            assert(strings_view(codeword_vec@)[index as int] == codeword_vec@[index as int]@);
        }
        let codeword = Codeword::create_codeword(
            owned(""),
            leaf,
            w,
            value.clone(),
            index_text,
            merkle_len,
            part,
            types.clone(),
        );
        let m = broadcast_message(&subset, args, ConsensusMessage::CodewordMessage(codeword), level);
        proof {
            reveal_strlit("");
            let e = strings_view(ip_address@);
            assert(addresses_match(m.addresses@, seq![e[index as int]]));
            assert(m.message matches ConsensusMessage::CodewordMessage(c) && c.sign@ == Seq::<char>::empty());
            assert(m.message matches ConsensusMessage::CodewordMessage(c) && c.codewords@ == escaped(strings_view(codeword_vec@)[index as int]));
            assert(m.message matches ConsensusMessage::CodewordMessage(c) && c.witness@ == witness_views(witnesses_vec@)[index as int]);
            assert(m.message matches ConsensusMessage::CodewordMessage(c) && c.value@ == value@ && c.types@ == types@);
            assert(codeword_message_ok(
                m,
                index as int,
                strings_view(ip_address@),
                strings_view(args@),
                level,
                value@,
                merkle_len,
                strings_view(codeword_vec@),
                witness_views(witnesses_vec@),
                part,
                types@,
            ));
        }
        let ghost before = network_vec@;
        network_vec.push(m);
        proof {
            assert forall|i: int| 0 <= i < index + 1 implies codeword_message_ok(
                #[trigger] network_vec@[i],
                i,
                strings_view(ip_address@),
                strings_view(args@),
                level,
                value@,
                merkle_len,
                strings_view(codeword_vec@),
                witness_views(witnesses_vec@),
                part,
                types@,
            ) by {
                if i < index {
                    assert(network_vec@[i] == before[i]);
                }
            }
        }
        index = index + 1;
    }
    network_vec
}

/// The `i`-th message of `committee_init`: as for `codeword_init`, carried
/// as a committee message.
pub open spec fn committee_message_ok(
    m: NetworkMessage,
    i: int,
    entries: Seq<Seq<char>>,
    args: Seq<Seq<char>>,
    level: usize,
    value: Seq<char>,
    merkle_len: usize,
    codewords: Seq<Seq<char>>,
    witnesses: Seq<Seq<u8>>,
    part: usize,
) -> bool {
    &&& m.sender.host@ == args[6]
    &&& m.sender.port == own_port(args)
    &&& addresses_match(m.addresses@, seq![entries[i]])
    &&& m.level == level
    &&& m.message matches ConsensusMessage::CommitteeMessage(c) && c.sign@ == Seq::<char>::empty()
        && c.codewords@ == escaped(codewords[i]) && c.witness@ == witnesses[i] && c.value@
        == value && c.index@ == decimal(i as nat) && c.leaves_len == merkle_len && c.part == part
        && c.types@ == "committee"@
}

/// One committee message per witness: the `i`-th codeword with the `i`-th
/// witness, to the `i`-th member of the committee. An adversarial node
/// (`args[8]` is `1`) sends the honest codewords too: a reshuffle of the
/// codewords by such a node is not part of this library.
pub fn committee_init(
    ip_address: &Vec<String>,
    args: &Vec<String>,
    value: String,
    merkle_len: usize,
    codeword_vec: Vec<String>,
    witnesses_vec: Vec<Vec<u8>>,
    part: usize,
    level: usize,
) -> (network_vec: Vec<NetworkMessage>)
    requires
        entries_ok(strings_view(ip_address@)),
        args_ok(strings_view(args@)),
        witnesses_vec@.len() <= ip_address@.len(),
        witnesses_vec@.len() <= codeword_vec@.len(),
    ensures
        network_vec@.len() == witnesses_vec@.len(),
        forall|i: int|
            0 <= i < network_vec@.len() ==> committee_message_ok(
                #[trigger] network_vec@[i],
                i,
                strings_view(ip_address@),
                strings_view(args@),
                level,
                value@,
                merkle_len,
                strings_view(codeword_vec@),
                witness_views(witnesses_vec@),
                part,
            ),
{
    let mut network_vec: Vec<NetworkMessage> = Vec::new();
    let mut index: usize = 0;
    while index < witnesses_vec.len()
        invariant
            index <= witnesses_vec@.len(),
            witnesses_vec@.len() <= ip_address@.len(),
            witnesses_vec@.len() <= codeword_vec@.len(),
            entries_ok(strings_view(ip_address@)),
            args_ok(strings_view(args@)),
            network_vec@.len() == index,
            forall|i: int|
                0 <= i < index ==> committee_message_ok(
                    #[trigger] network_vec@[i],
                    i,
                    strings_view(ip_address@),
                    strings_view(args@),
                    level,
                    value@,
                    merkle_len,
                    strings_view(codeword_vec@),
                    witness_views(witnesses_vec@),
                    part,
                ),
        decreases witnesses_vec.len() - index,
    {
        let (leaf, index_text, subset) = codeword_pieces(ip_address, &codeword_vec, index);
        proof {
            assert(entries_ok(strings_view(subset@))) by {
                assert(entry_ok(strings_view(ip_address@)[index as int]));
            }
        }
        let w = crate::pvss_agreement::slice_bytes(&witnesses_vec[index], 0, witnesses_vec[index].len());
        proof {
            assert(w@ =~= witness_views(witnesses_vec@)[index as int]);
            assert(strings_view(ip_address@)[index as int] == ip_address@[index as int]@);
            assert(strings_view(codeword_vec@)[index as int] == codeword_vec@[index as int]@);
        }
        let committee = Committee::create_committee(
            owned(""),
            leaf,
            w,
            value.clone(),
            index_text,
            merkle_len,
            part,
        );
        let m = broadcast_message(&subset, args, ConsensusMessage::CommitteeMessage(committee), level);
        proof {
            reveal_strlit("");
            let e = strings_view(ip_address@);
            assert(addresses_match(m.addresses@, seq![e[index as int]]));
            assert(m.message matches ConsensusMessage::CommitteeMessage(c) && c.sign@ == Seq::<char>::empty());
            assert(m.message matches ConsensusMessage::CommitteeMessage(c) && c.codewords@ == escaped(strings_view(codeword_vec@)[index as int]));
            assert(m.message matches ConsensusMessage::CommitteeMessage(c) && c.witness@ == witness_views(witnesses_vec@)[index as int]);
            assert(m.message matches ConsensusMessage::CommitteeMessage(c) && c.value@ == value@);
            assert(committee_message_ok(
                m,
                index as int,
                strings_view(ip_address@),
                strings_view(args@),
                level,
                value@,
                merkle_len,
                strings_view(codeword_vec@),
                witness_views(witnesses_vec@),
                part,
            ));
        }
        let ghost before = network_vec@;
        network_vec.push(m);
        proof {
            assert forall|i: int| 0 <= i < index + 1 implies committee_message_ok(
                #[trigger] network_vec@[i],
                i,
                strings_view(ip_address@),
                strings_view(args@),
                level,
                value@,
                merkle_len,
                strings_view(codeword_vec@),
                witness_views(witnesses_vec@),
                part,
            ) by {
                if i < index {
                    assert(network_vec@[i] == before[i]);
                }
            }
        }
        index = index + 1;
    }
    network_vec
}

/// The accumulation value of the data for a committee: the hexadecimal Merkle
/// root over its codewords.
pub open spec fn accumulation_value(data: Seq<u8>, committee_size: nat, medium: Seq<char>) -> Seq<char> {
    hex_lower(merkle_root(leaf_hashes(encode_leaves(data, committee_size, medium))))
}

/// The accumulation value of the PVSS data for the committee, and the state
/// for the level.
pub fn reactor_init(pvss_data: Vec<u8>, ip_address: &Vec<String>, level: usize, medium: String) -> (r: (String, InternalState))
    requires
        encoder_accepts(pvss_data@.len(), ip_address@.len() as nat, medium@),
        entries_ok(strings_view(ip_address@)),
    ensures
        r.0@ == accumulation_value(pvss_data@, ip_address@.len() as nat, medium@),
        merkle_root(leaf_hashes(encode_leaves(pvss_data@, ip_address@.len() as nat, medium@))).len() == 32,
        r.1.level == level,
        addresses_match(r.1.addresses@, strings_view(ip_address@)),
{
    let committee_length = ip_address.len();
    let leaves = encoder(pvss_data.as_slice(), committee_length, medium);
    let merkle_tree = create_tree(leaves);
    let acc_value_zl = get_root(merkle_tree);
    let state = set_state(ip_address, level);
    (acc_value_zl, state)
}

/// The first words of the strings.
pub open spec fn first_words(strings: Seq<Seq<char>>) -> Seq<Seq<char>> {
    Seq::new(strings.len(), |i: int| first_word(strings[i]))
}

/// `j` is the first position holding a word that occurs most often.
pub open spec fn first_most_frequent_at(words: Seq<Seq<char>>, j: int) -> bool {
    &&& 0 <= j < words.len()
    &&& forall|k: int| 0 <= k < words.len() ==> count_of(words, #[trigger] words[k]) <= count_of(words, words[j])
    &&& forall|k: int| 0 <= k < j ==> count_of(words, #[trigger] words[k]) < count_of(words, words[j])
}

/// The first of the most frequent words (empty when there are none).
pub open spec fn most_frequent(words: Seq<Seq<char>>) -> Seq<char> {
    if exists|j: int| first_most_frequent_at(words, j) {
        words[choose|j: int| first_most_frequent_at(words, j)]
    } else {
        Seq::empty()
    }
}

/// Of the proposals, returns the value (first word) proposed most often,
/// and whether it was proposed by at least half of them.
pub fn find_most_frequent_propose_value(strings: Vec<String>) -> (r: (String, bool))
    ensures
        r.0@ == most_frequent(first_words(strings_view(strings@))),
        r.1 == (count_of(first_words(strings_view(strings@)), r.0@) >= strings@.len() / 2),
{
    let ghost words = first_words(strings_view(strings@));
    let mut word_vec: Vec<Vec<char>> = Vec::new();
    let mut i: usize = 0;
    while i < strings.len()
        invariant
            i <= strings@.len(),
            words == first_words(strings_view(strings@)),
            views(word_vec@) == words.subrange(0, i as int),
        decreases strings.len() - i,
    {
        let w = first_word_chars(&chars_of(strings[i].as_str()));
        let ghost before = word_vec@;
        word_vec.push(w);
        proof {
            assert(views(word_vec@) =~= views(before).push(w@));
            assert(words.subrange(0, i + 1) =~= words.subrange(0, i as int).push(words[i as int]));
        }
        i = i + 1;
    }
    assert(words.subrange(0, i as int) =~= words);
    let total_count = strings.len();
    if word_vec.len() == 0 {
        proof {
            assert(!exists|j: int| first_most_frequent_at(words, j));
            assert(count_of(words, Seq::<char>::empty()) == 0);
        }
        return (String::new(), true);
    }
    let mut best: usize = 0;
    let mut max_count: usize = count_chars(&word_vec, &word_vec[0]);
    assert(views(word_vec@)[0] == word_vec@[0]@);
    let mut j: usize = 1;
    while j < word_vec.len()
        invariant
            1 <= j <= word_vec@.len(),
            best < j,
            views(word_vec@) == words,
            max_count == count_of(words, words[best as int]),
            forall|k: int| 0 <= k < j ==> count_of(words, #[trigger] words[k]) <= max_count,
            forall|k: int| 0 <= k < best ==> count_of(words, #[trigger] words[k]) < max_count,
        decreases word_vec.len() - j,
    {
        let c = count_chars(&word_vec, &word_vec[j]);
        assert(views(word_vec@)[j as int] == word_vec@[j as int]@);
        if c > max_count {
            max_count = c;
            best = j;
        }
        j = j + 1;
    }
    proof {
        assert(first_most_frequent_at(words, best as int));
        let c = choose|x: int| first_most_frequent_at(words, x);
        assert(c == best) by {
            if c < best {
            } else if c > best {
                assert(count_of(words, words[best as int]) < count_of(words, words[c]));
            }
        }
    }
    assert(views(word_vec@)[best as int] == word_vec@[best as int]@);
    let winner = string_of(&word_vec[best]);
    (winner, max_count >= total_count / 2)
}

/// The position of a reporting node in the node list: its port less 7000,
/// the port read from `value ip:port`.
pub open spec fn sender_order(val: Seq<char>) -> int {
    parse_bounded(split(split(val, seq![' '])[1], seq![':'])[1], 10, u32::MAX as nat)->0 - 7000
}

/// The line of the node list for a report, if the list has one (the list is
/// numbered from 1).
pub open spec fn report_line(val: Seq<char>, lines: Seq<Seq<char>>) -> Option<Seq<char>> {
    let c = sender_order(val);
    if 1 <= c <= lines.len() {
        Some(lines[c - 1])
    } else {
        None
    }
}

/// A report `value ip:port` whose port is a `u32` of at least 7000 (above
/// 7000 if the node list is not empty), and whose line of the node list, if
/// there is one, has a field for the level.
pub open spec fn report_ok(val: Seq<char>, lines: Seq<Seq<char>>, level: nat) -> bool {
    let w = split(val, seq![' ']);
    &&& w.len() >= 2
    &&& split(w[1], seq![':']).len() >= 2
    &&& parse_bounded(split(w[1], seq![':'])[1], 10, u32::MAX as nat) is Some
    &&& sender_order(val) >= 0
    &&& lines.len() > 0 ==> sender_order(val) >= 1
    &&& report_line(val, lines) matches Some(line) ==> split(line, seq![' ']).len() > level + 1
}

/// The report belongs to the left committee at the level: the level's field
/// of its line contains `l`.
pub open spec fn report_is_left(val: Seq<char>, lines: Seq<Seq<char>>, level: nat) -> bool {
    report_line(val, lines) matches Some(line) && contains_seq(split(line, seq![' '])[level + 1 as int], seq!['l'])
}

/// The report belongs to the right committee at the level.
pub open spec fn report_is_right(val: Seq<char>, lines: Seq<Seq<char>>, level: nat) -> bool {
    report_line(val, lines) matches Some(line) && !contains_seq(split(line, seq![' '])[level + 1 as int], seq!['l'])
}

/// The reports of the left committee, in order.
pub open spec fn left_reports(vals: Seq<Seq<char>>, lines: Seq<Seq<char>>, level: nat) -> Seq<Seq<char>>
    decreases vals.len(),
{
    if vals.len() == 0 {
        Seq::empty()
    } else {
        let rest = left_reports(vals.drop_last(), lines, level);
        if report_is_left(vals.last(), lines, level) {
            rest.push(vals.last())
        } else {
            rest
        }
    }
}

/// The reports of the right committee, in order.
pub open spec fn right_reports(vals: Seq<Seq<char>>, lines: Seq<Seq<char>>, level: nat) -> Seq<Seq<char>>
    decreases vals.len(),
{
    if vals.len() == 0 {
        Seq::empty()
    } else {
        let rest = right_reports(vals.drop_last(), lines, level);
        if report_is_right(vals.last(), lines, level) {
            rest.push(vals.last())
        } else {
            rest
        }
    }
}

/// Which committee a report belongs to: `Some(true)` for left, `Some(false)`
/// for right, `None` when the node list has no line for it.
fn classify_report(val: &Vec<char>, lines: &Vec<String>, level: usize) -> (r: Option<bool>)
    requires
        report_ok(val@, strings_view(lines@), level as nat),
    ensures
        r == Some(true) <==> report_is_left(val@, strings_view(lines@), level as nat),
        r == Some(false) <==> report_is_right(val@, strings_view(lines@), level as nat),
{
    let mut space: Vec<char> = Vec::new();
    space.push(' ');
    let mut colon: Vec<char> = Vec::new();
    colon.push(':');
    assert(space@ =~= seq![' ']);
    assert(colon@ =~= seq![':']);
    let words = split_chars(val, &space);
    assert(views(words@)[1] == words@[1]@);
    let ip_port = split_chars(&words[1], &colon);
    assert(views(ip_port@)[1] == ip_port@[1]@);
    let port = match parse_bounded_chars(&ip_port[1], 10, u32::MAX as u64) {
        Some(p) => p,
        None => {
            assert(false);
            0
        },
    };
    let count = port - 7000;
    if count == 0 || count > lines.len() as u64 {
        return None;
    }
    let line = chars_of(lines[(count - 1) as usize].as_str());
    assert(strings_view(lines@)[count - 1] == lines@[count - 1]@);
    let fields = split_chars(&line, &space);
    assert(views(fields@).len() == fields@.len());
    let nfields = fields.len();
    assert(nfields > level + 1);
    assert(views(fields@)[level + 1] == fields@[level + 1]@);
    let mut ell: Vec<char> = Vec::new();
    ell.push('l');
    assert(ell@ =~= seq!['l']);
    Some(contains_chars(&fields[level + 1], &ell))
}

/// Splits the accumulation reports between the two committees of the level
/// by the node list `node_lines` (the report of the node on line `n` carries
/// port 7000 + `n`), and returns the value each committee agreed on.
pub fn accum_helper(accum_value: Vec<String>, node_lines: &Vec<String>, level: usize, committee_length: usize) -> (r: (String, String))
    requires
        forall|i: int|
            0 <= i < accum_value@.len() ==> report_ok(
                #[trigger] accum_value@[i]@,
                strings_view(node_lines@),
                level as nat,
            ),
        accum_texts_ok(left_reports(strings_view(accum_value@), strings_view(node_lines@), level as nat)),
        accum_texts_ok(right_reports(strings_view(accum_value@), strings_view(node_lines@), level as nat)),
    ensures
        r.0@ == accum_result(
            left_reports(strings_view(accum_value@), strings_view(node_lines@), level as nat),
            committee_length as nat,
        ),
        r.1@ == accum_result(
            right_reports(strings_view(accum_value@), strings_view(node_lines@), level as nat),
            committee_length as nat,
        ),
{
    let ghost vals = strings_view(accum_value@);
    let ghost lines = strings_view(node_lines@);
    let mut v1_vec: Vec<String> = Vec::new();
    let mut v2_vec: Vec<String> = Vec::new();
    let mut i: usize = 0;
    while i < accum_value.len()
        invariant
            i <= accum_value@.len(),
            vals == strings_view(accum_value@),
            lines == strings_view(node_lines@),
            forall|k: int|
                0 <= k < accum_value@.len() ==> report_ok(#[trigger] accum_value@[k]@, lines, level as nat),
            strings_view(v1_vec@) == left_reports(vals.subrange(0, i as int), lines, level as nat),
            strings_view(v2_vec@) == right_reports(vals.subrange(0, i as int), lines, level as nat),
        decreases accum_value.len() - i,
    {
        let val = chars_of(accum_value[i].as_str());
        proof {
            let sub = vals.subrange(0, i + 1);
            assert(sub.drop_last() =~= vals.subrange(0, i as int));
            assert(sub.last() == accum_value@[i as int]@);
            assert(report_ok(accum_value@[i as int]@, lines, level as nat));
        }
        let class = classify_report(&val, node_lines, level);
        let ghost b1 = v1_vec@;
        let ghost b2 = v2_vec@;
        match class {
            Some(true) => {
                v1_vec.push(accum_value[i].clone());
                assert(strings_view(v1_vec@) =~= strings_view(b1).push(val@));
            },
            Some(false) => {
                v2_vec.push(accum_value[i].clone());
                assert(strings_view(v2_vec@) =~= strings_view(b2).push(val@));
            },
            None => {},
        }
        i = i + 1;
    }
    assert(vals.subrange(0, i as int) =~= vals);
    let v1 = accum_check(v1_vec, committee_length);
    let v2 = accum_check(v2_vec, committee_length);
    (v1, v2)
}

} // verus!
