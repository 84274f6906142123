//! The agreement phases of the reactor at one level, as decisions on the
//! values received so far: how many messages close a phase, what the
//! forward and vote phases decide, which proposal is adopted, which
//! committee agrees next, and which shares are disseminated once the level
//! is done.
use vstd::prelude::*;
use vstd::arithmetic::power2::{pow2, lemma_pow2_unfold, lemma_pow2_strictly_increases};
use crate::deliver::deliver_encode;
use crate::merkle::{chunks32, leaf_hashes, merkle_root, proof_helpers, strings_view};
use crate::codeword::{honest_parts, unescape};
use crate::message::ConsensusMessage;
use crate::text_facts::lacks;
use crate::message::NetworkMessage;
use crate::pvss_agreement::{encode_leaves, encoder_accepts};
use crate::reactor::{
    accumulation_value, args_ok, codeword_init, codeword_message_ok, entries_ok, find_most_frequent_propose_value,
    first_words, most_frequent, witness_views,
};
use crate::selection::witness_list;
use crate::text::{chars_of, chars_equal, count_of, first_word, first_word_chars, owned, split, split_chars, str_equal, string_of, views};

verus! {

/// `2^level`, the number of members at the level.
pub fn level_members(level: usize) -> (r: usize)
    requires
        pow2(level as nat) <= usize::MAX,
    ensures
        r == pow2(level as nat),
{
    let mut r: usize = 1;
    let mut i: usize = 0;
    proof {
        vstd::arithmetic::power2::lemma2_to64();
    }
    while i < level
        invariant
            i <= level,
            r == pow2(i as nat),
            pow2(level as nat) <= usize::MAX,
        decreases level - i,
    {
        proof {
            lemma_pow2_unfold((i + 1) as nat);
            if i + 1 < level {
                lemma_pow2_strictly_increases((i + 1) as nat, level as nat);
            }
        }
        r = r * 2;
        i = i + 1;
    }
    r
}

/// The number of echoes that closes the echo phase: half the level's
/// members, a third once a proposal was reached.
pub fn echo_threshold(level: usize, propose_reached: bool) -> (r: usize)
    requires
        pow2(level as nat) <= usize::MAX,
    ensures
        r == if propose_reached { pow2(level as nat) / 3 } else { pow2(level as nat) / 2 },
{
    let n = level_members(level);
    if propose_reached {
        n / 3
    } else {
        n / 2
    }
}

/// The number of forwards that closes the forward phase: half the level's
/// members, a quarter once a proposal was reached.
pub fn forward_threshold(level: usize, propose_reached: bool) -> (r: usize)
    requires
        pow2(level as nat) <= usize::MAX,
    ensures
        r == if propose_reached { pow2(level as nat) / 4 } else { pow2(level as nat) / 2 },
{
    let n = level_members(level);
    if propose_reached {
        n / 4
    } else {
        n / 2
    }
}

/// The number of votes that closes a vote phase: one more than the forward
/// threshold.
pub fn vote_threshold(level: usize, propose_reached: bool) -> (r: usize)
    requires
        pow2(level as nat) <= usize::MAX,
    ensures
        r == if propose_reached { pow2(level as nat) / 4 + 1 } else { pow2(level as nat) / 2 + 1 },
{
    forward_threshold(level, propose_reached) + 1
}

/// All the values (`value sender`) share the first word of the first one.
pub open spec fn first_words_agree(values: Seq<Seq<char>>) -> bool {
    forall|k: int| 0 <= k < values.len() ==> first_word(#[trigger] values[k]) == first_word(values[0])
}

/// The forward phase: where the forwards received agree on their value and
/// the node forwarded in the echo phase, the value it votes for in the
/// first vote round.
pub fn forward_decision(forward_value: &Vec<String>, forward_check: bool) -> (r: Option<String>)
    requires
        forward_value@.len() >= 1,
    ensures
        r is Some <==> forward_check && first_words_agree(strings_view(forward_value@)),
        r matches Some(v) ==> v@ == first_word(forward_value@[0]@),
{
    let ghost vals = strings_view(forward_value@);
    let first = first_word_chars(&chars_of(forward_value[0].as_str()));
    assert(vals[0] == forward_value@[0]@);
    let mut all = true;
    let mut i: usize = 0;
    while i < forward_value.len()
        invariant
            i <= forward_value@.len(),
            vals == strings_view(forward_value@),
            first@ == first_word(vals[0]),
            all == forall|k: int| 0 <= k < i ==> first_word(#[trigger] vals[k]) == first_word(vals[0]),
        decreases forward_value.len() - i,
    {
        let w = first_word_chars(&chars_of(forward_value[i].as_str()));
        assert(vals[i as int] == forward_value@[i as int]@);
        if !chars_equal(&w, &first) {
            all = false;
        }
        i = i + 1;
    }
    if all && forward_check {
        Some(string_of(&first))
    } else {
        None
    }
}

/// A vote as received: `value sender`.
pub open spec fn vote_ok(v: Seq<char>) -> bool {
    split(v, seq![' ']).len() >= 2
}

/// The pairs (value, sender) of the votes received, in order.
pub fn vote_pairs(values: &Vec<String>) -> (r: Vec<(String, String)>)
    requires
        forall|k: int| 0 <= k < values@.len() ==> vote_ok(#[trigger] values@[k]@),
    ensures
        r@.len() == values@.len(),
        forall|k: int|
            0 <= k < r@.len() ==> (#[trigger] r@[k]).0@ == split(values@[k]@, seq![' '])[0] && r@[k].1@ == split(
                values@[k]@,
                seq![' '],
            )[1],
{
    let mut space: Vec<char> = Vec::new();
    space.push(' ');
    assert(space@ =~= seq![' ']);
    let mut r: Vec<(String, String)> = Vec::new();
    let mut i: usize = 0;
    while i < values.len()
        invariant
            i <= values@.len(),
            space@ == seq![' '],
            forall|k: int| 0 <= k < values@.len() ==> vote_ok(#[trigger] values@[k]@),
            r@.len() == i,
            forall|k: int|
                0 <= k < i ==> (#[trigger] r@[k]).0@ == split(values@[k]@, seq![' '])[0] && r@[k].1@ == split(
                    values@[k]@,
                    seq![' '],
                )[1],
        decreases values.len() - i,
    {
        let parts = split_chars(&chars_of(values[i].as_str()), &space);
        assert(vote_ok(values@[i as int]@));
        assert(views(parts@)[0] == parts@[0]@ && views(parts@)[1] == parts@[1]@);
        r.push((string_of(&parts[0]), string_of(&parts[1])));
        i = i + 1;
    }
    r
}

/// The output of the two vote rounds: the value of the first vote of the
/// first round, when the first vote of the second round is for the same
/// value.
pub fn output_generation(c1: &Vec<(String, String)>, c2: &Vec<(String, String)>) -> (r: Option<String>)
    requires
        c1@.len() > 0 ==> c2@.len() > 0,
    ensures
        r is Some <==> c1@.len() > 0 && c1@[0].0@ == c2@[0].0@,
        r matches Some(v) ==> v@ == c1@[0].0@,
{
    if c1.len() > 0 {
        if str_equal(c1[0].0.as_str(), c2[0].0.as_str()) {
            return Some(c1[0].0.clone());
        }
    }
    None
}

/// The value adopted at the end of the proposal phase: where the vote rounds
/// gave no output, the value proposed most often if at least half the
/// proposals are for it; otherwise the value agreed so far.
pub fn propose_decision(propose_value: Vec<String>, voted: bool, ba_v: String) -> (r: String)
    ensures
        r@ == if !voted && count_of(
            first_words(strings_view(propose_value@)),
            most_frequent(first_words(strings_view(propose_value@))),
        ) >= propose_value@.len() / 2 {
            most_frequent(first_words(strings_view(propose_value@)))
        } else {
            ba_v@
        },
{
    if !voted {
        let (most, is_majority) = find_most_frequent_propose_value(propose_value);
        if is_majority {
            return most;
        }
    }
    ba_v
}

/// The shares that qualify: share 1 unless `V1` is `bot` or empty, share 2
/// likewise for `V2`.
pub fn qualify(v1: &String, v2: &String) -> (r: Vec<u32>)
    ensures
        r@ == (if v1@ != "bot"@ && v1@ != Seq::<char>::empty() { seq![1u32] } else { Seq::<u32>::empty() }) + (if v2@
            != "bot"@ && v2@ != Seq::<char>::empty() {
            seq![2u32]
        } else {
            Seq::<u32>::empty()
        }),
{
    proof {
        reveal_strlit("");
        assert(""@ =~= Seq::<char>::empty());
    }
    let q1 = !str_equal(v1.as_str(), "bot") && !str_equal(v1.as_str(), "");
    let q2 = !str_equal(v2.as_str(), "bot") && !str_equal(v2.as_str(), "");
    let mut r: Vec<u32> = Vec::new();
    if q1 {
        r.push(1);
    }
    if q2 {
        r.push(2);
    }
    assert(r@ =~= (if q1 { seq![1u32] } else { Seq::<u32>::empty() }) + (if q2 { seq![2u32] } else { Seq::<u32>::empty() }));
    r
}

/// The shares the node disseminates, in the order of `qual`: share 1 for
/// each entry `1` when `V1` is the node's accumulation value, share 2 for
/// each entry `2` when `V2` is.
pub open spec fn own_parts(qual: Seq<u32>, v1: Seq<char>, v2: Seq<char>, acc: Seq<char>) -> Seq<usize>
    decreases qual.len(),
{
    if qual.len() == 0 {
        Seq::empty()
    } else {
        let rest = own_parts(qual.drop_last(), v1, v2, acc);
        if qual.last() == 1 && v1 == acc {
            rest.push(1)
        } else if qual.last() == 2 && v2 == acc {
            rest.push(2)
        } else {
            rest
        }
    }
}

/// The codeword messages of one share: its `k`-th codeword with its witness
/// to the `k`-th member, under the value `value`, tagged `types`.
pub open spec fn propose_batch_ok(
    batch: Seq<NetworkMessage>,
    data: Seq<u8>,
    part: usize,
    entries: Seq<Seq<char>>,
    args: Seq<Seq<char>>,
    level: usize,
    value: Seq<char>,
    types: Seq<char>,
) -> bool {
    let words = encode_leaves(data, entries.len(), Seq::empty());
    &&& batch.len() == entries.len()
    &&& forall|k: int|
        0 <= k < batch.len() ==> codeword_message_ok(
            #[trigger] batch[k],
            k,
            entries,
            args,
            level,
            value,
            entries.len() as usize,
            words,
            witness_list(words),
            part,
            types,
        )
    &&& forall|k: int|
        0 <= k < words.len() ==> (#[trigger] witness_list(words)[k]).len() % 32 == 0 && chunks32(
            witness_list(words)[k],
        ) == proof_helpers(leaf_hashes(words), seq![k as usize])
}

/// The dissemination of the node's data: for each qualified share whose
/// agreed value is the node's own accumulation value, the node's data is
/// disseminated to the committee as that share under that value, one batch
/// per such entry of `qual`, its messages tagged `types`.
pub fn disseminate_qualified(
    qual: &Vec<u32>,
    v1: &String,
    v2: &String,
    acc_value_zl: &String,
    pvss_data: &Vec<u8>,
    ip_address: &Vec<String>,
    args: &Vec<String>,
    level: usize,
    types: &String,
) -> (r: Vec<Vec<NetworkMessage>>)
    requires
        entries_ok(strings_view(ip_address@)),
        args_ok(strings_view(args@)),
        encoder_accepts(pvss_data@.len(), ip_address@.len() as nat, Seq::empty()),
    ensures
        r@.len() == own_parts(qual@, v1@, v2@, acc_value_zl@).len(),
        forall|b: int|
            0 <= b < r@.len() ==> propose_batch_ok(
                (#[trigger] r@[b])@,
                pvss_data@,
                own_parts(qual@, v1@, v2@, acc_value_zl@)[b],
                strings_view(ip_address@),
                strings_view(args@),
                level,
                acc_value_zl@,
                types@,
            ),
{
    let mut r: Vec<Vec<NetworkMessage>> = Vec::new();
    let mut i: usize = 0;
    while i < qual.len()
        invariant
            i <= qual@.len(),
            entries_ok(strings_view(ip_address@)),
            args_ok(strings_view(args@)),
            encoder_accepts(pvss_data@.len(), ip_address@.len() as nat, Seq::empty()),
            r@.len() == own_parts(qual@.subrange(0, i as int), v1@, v2@, acc_value_zl@).len(),
            forall|b: int|
                0 <= b < r@.len() ==> propose_batch_ok(
                    (#[trigger] r@[b])@,
                    pvss_data@,
                    own_parts(qual@.subrange(0, i as int), v1@, v2@, acc_value_zl@)[b],
                    strings_view(ip_address@),
                    strings_view(args@),
                    level,
                    acc_value_zl@,
                    types@,
                ),
        decreases qual.len() - i,
    {
        let ghost prefix = qual@.subrange(0, i as int);
        let ghost next = qual@.subrange(0, i + 1);
        assert(next.drop_last() =~= prefix);
        assert(next.last() == qual@[i as int]);
        let ghost before = r@;
        let val = qual[i];
        if val == 1 && str_equal(v1.as_str(), acc_value_zl.as_str()) {
            let batch = share_batch(v1, pvss_data, 1, ip_address, args, level, types);
            r.push(batch);
        } else if val == 2 && str_equal(v2.as_str(), acc_value_zl.as_str()) {
            let batch = share_batch(v2, pvss_data, 2, ip_address, args, level, types);
            r.push(batch);
        }
        proof {
            let op = own_parts(next, v1@, v2@, acc_value_zl@);
            assert forall|b: int| 0 <= b < r@.len() implies propose_batch_ok(
                (#[trigger] r@[b])@,
                pvss_data@,
                op[b],
                strings_view(ip_address@),
                strings_view(args@),
                level,
                acc_value_zl@,
                types@,
            ) by {
                if b < before.len() {
                    assert(r@[b] == before[b]);
                    assert(op[b] == own_parts(prefix, v1@, v2@, acc_value_zl@)[b]);
                }
            }
        }
        i = i + 1;
    }
    assert(qual@.subrange(0, qual@.len() as int) =~= qual@);
    r
}

/// The codeword messages of the node's data as share `part`, under the
/// agreed value `value`, tagged `types`.
fn share_batch(
    value: &String,
    pvss_data: &Vec<u8>,
    part: usize,
    ip_address: &Vec<String>,
    args: &Vec<String>,
    level: usize,
    types: &String,
) -> (r: Vec<NetworkMessage>)
    requires
        entries_ok(strings_view(ip_address@)),
        args_ok(strings_view(args@)),
        encoder_accepts(pvss_data@.len(), ip_address@.len() as nat, Seq::empty()),
    ensures
        propose_batch_ok(r@, pvss_data@, part, strings_view(ip_address@), strings_view(args@), level, value@, types@),
{
    let medium = owned("");
    proof {
        reveal_strlit("");
        reveal_strlit("dev_init");
    }
    assert(medium@ =~= Seq::<char>::empty());
    let (codeword_vec, witnesses_vec, merkle_len) = deliver_encode(pvss_data.as_slice(), value.clone(), ip_address.len(), medium);
    let ghost words = encode_leaves(pvss_data@, ip_address@.len() as nat, Seq::empty());
    proof {
        reveal_strlit("dev_init");
        assert(strings_view(codeword_vec@) == words);
        assert(witness_views(witnesses_vec@) =~= witness_list(words));
        assert forall|k: int| 0 <= k < words.len() implies (#[trigger] witness_list(words)[k]).len() % 32 == 0
            && chunks32(witness_list(words)[k]) == proof_helpers(leaf_hashes(words), seq![k as usize]) by {
            assert(witness_list(words)[k] == witnesses_vec@[k]@);
        }
    }
    codeword_init(ip_address, level, args, value.clone(), merkle_len, codeword_vec, witnesses_vec, part, types.clone())
}


/// What the node disseminates under its own accumulation value is accepted:
/// every message of a batch that `disseminate_qualified` sends carries, once `,` is restored in
/// its codeword, the honest parts of its codeword (so `codeword_helper`
/// answers it unless its value was already taken), and its codeword, value
/// and index hold no comma (so its record reads back too). The root being
/// 32 bytes long is what `reactor_init` states of the accumulation value.
pub proof fn lemma_propose_codeword_accepted(
    batch: Seq<NetworkMessage>,
    data: Seq<u8>,
    part: usize,
    entries: Seq<Seq<char>>,
    args: Seq<Seq<char>>,
    level: usize,
    types: Seq<char>,
    k: int,
)
    requires
        propose_batch_ok(batch, data, part, entries, args, level, accumulation_value(data, entries.len(), Seq::empty()), types),
        merkle_root(leaf_hashes(encode_leaves(data, entries.len(), Seq::empty()))).len() == 32,
        encode_leaves(data, entries.len(), Seq::empty()).len() == entries.len(),
        entries.len() <= usize::MAX,
        0 <= k < batch.len(),
    ensures
        batch[k].message matches ConsensusMessage::CodewordMessage(c) && honest_parts(
            encode_leaves(data, entries.len(), Seq::empty()),
            k,
            unescape(c.codewords@),
            c.witness@,
            c.value@,
            c.index@,
            c.leaves_len,
        ) && lacks(c.codewords@, ',') && lacks(c.value@, ',') && lacks(c.index@, ','),
{
    let words = encode_leaves(data, entries.len(), Seq::empty());
    let witnesses = witness_list(words);
    assert(codeword_message_ok(
        batch[k],
        k,
        entries,
        args,
        level,
        accumulation_value(data, entries.len(), Seq::empty()),
        entries.len() as usize,
        words,
        witnesses,
        part,
        types,
    ));
    crate::dissemination::lemma_sent_codeword_honest(
        batch[k],
        k,
        entries,
        args,
        level,
        data,
        entries.len(),
        Seq::empty(),
        witnesses,
        part,
        types,
    );
}

} // verus!
