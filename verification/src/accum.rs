//! Agreement on the accumulation value: the value that enough committee
//! members reported.
use vstd::prelude::*;
use crate::merkle::strings_view;
use crate::text::{chars_of, count_chars, count_of, decimal, join, owned, split, split_chars, string_of, views};
use crate::text_facts::{lacks, lemma_join_append, lemma_join_front, lemma_split_front};
use crate::wire::payload;
use crate::message::Accum;

verus! {

/// The accumulation value a message carries: its second field, fields being
/// separated by `, `.
pub open spec fn accum_field(text: Seq<char>) -> Seq<char> {
    split(text, seq![',', ' '])[1]
}

/// Every message has at least two fields.
pub open spec fn accum_texts_ok(texts: Seq<Seq<char>>) -> bool {
    forall|i: int| 0 <= i < texts.len() ==> split(#[trigger] texts[i], seq![',', ' ']).len() >= 2
}

/// The accumulation values of the messages, in order.
pub open spec fn accum_values(texts: Seq<Seq<char>>) -> Seq<Seq<char>> {
    Seq::new(texts.len(), |i: int| accum_field(texts[i]))
}

/// The value reached by a quorum of `threshold`: the first value (in message
/// order) reported at least `threshold` times, if any.
pub open spec fn quorum_value(values: Seq<Seq<char>>, threshold: nat) -> Option<Seq<char>> {
    if exists|j: int| 0 <= j < values.len() && count_of(values, #[trigger] values[j]) >= threshold {
        let j = choose|j: int|
            0 <= j < values.len() && count_of(values, #[trigger] values[j]) >= threshold && forall|k: int|
                0 <= k < j ==> count_of(values, #[trigger] values[k]) < threshold;
        Some(values[j])
    } else {
        None
    }
}

/// What `accum_check` returns for the messages: the quorum value, or `bot`.
pub open spec fn accum_result(texts: Seq<Seq<char>>, committee_length: nat) -> Seq<char> {
    match quorum_value(accum_values(texts), committee_length / 2) {
        Some(v) => v,
        None => "bot"@,
    }
}

/// Of the received messages, returns the accumulation value reported by at
/// least half the committee (`committee_length / 2` times), or `bot` when no
/// value is reported that often.
pub fn accum_check(received_texts: Vec<String>, committee_length: usize) -> (r: String)
    requires
        accum_texts_ok(strings_view(received_texts@)),
    ensures
        quorum_value(accum_values(strings_view(received_texts@)), (committee_length / 2) as nat)
            matches Some(v) ==> r@ == v,
        quorum_value(accum_values(strings_view(received_texts@)), (committee_length / 2) as nat)
            is None ==> r@ == "bot"@,
        r@ == accum_result(strings_view(received_texts@), committee_length as nat),
{
    let ghost texts = strings_view(received_texts@);
    let ghost values = accum_values(texts);
    let mut sep: Vec<char> = Vec::new();
    sep.push(',');
    sep.push(' ');
    assert(sep@ =~= seq![',', ' ']);
    let mut accum_values_vec: Vec<Vec<char>> = Vec::new();
    let mut i: usize = 0;
    while i < received_texts.len()
        invariant
            i <= received_texts@.len(),
            texts == strings_view(received_texts@),
            values == accum_values(texts),
            accum_texts_ok(texts),
            sep@ == seq![',', ' '],
            views(accum_values_vec@) == values.subrange(0, i as int),
        decreases received_texts.len() - i,
    {
        let text = chars_of(received_texts[i].as_str());
        let split_text = split_chars(&text, &sep);
        assert(split(texts[i as int], seq![',', ' ']).len() >= 2);
        assert(views(split_text@)[1] == split_text@[1]@);
        let ghost before = accum_values_vec@;
        accum_values_vec.push(split_text[1].clone());
        proof {
            assert(views(accum_values_vec@) =~= views(before).push(split_text@[1]@));
            assert(values.subrange(0, i + 1) =~= values.subrange(0, i as int).push(values[i as int]));
        }
        i = i + 1;
    }
    assert(values.subrange(0, i as int) =~= values);
    let threshold = committee_length / 2;
    let mut j: usize = 0;
    while j < accum_values_vec.len()
        invariant
            j <= accum_values_vec@.len(),
            views(accum_values_vec@) == values,
            values == accum_values(strings_view(received_texts@)),
            threshold == committee_length / 2,
            forall|k: int| 0 <= k < j ==> count_of(values, #[trigger] values[k]) < threshold,
        decreases accum_values_vec.len() - j,
    {
        let count = count_chars(&accum_values_vec, &accum_values_vec[j]);
        assert(views(accum_values_vec@)[j as int] == accum_values_vec@[j as int]@);
        if count >= threshold {
            proof {
                let jj = j as int;
                assert(count_of(values, values[jj]) >= threshold);
                let c = choose|x: int|
                    0 <= x < values.len() && count_of(values, #[trigger] values[x]) >= threshold
                        && forall|k: int| 0 <= k < x ==> count_of(values, #[trigger] values[k]) < threshold;
                assert(c == jj) by {
                    if c < jj {
                    } else if c > jj {
                        assert(count_of(values, values[jj]) < threshold);
                    }
                }
            }
            return string_of(&accum_values_vec[j]);
        }
        j = j + 1;
    }
    owned("bot")
}


/// Values that all agree occur as often as there are values.
proof fn lemma_count_all(values: Seq<Seq<char>>, v: Seq<char>)
    requires
        forall|k: int| 0 <= k < values.len() ==> values[k] == v,
    ensures
        count_of(values, v) == values.len(),
    decreases values.len(),
{
    if values.len() > 0 {
        lemma_count_all(values.drop_last(), v);
    }
}

/// Unanimity decides: when every message reports `v` and there are at
/// least half a committee of them (and at least one), the result is `v`.
pub proof fn lemma_unanimous_accum(texts: Seq<Seq<char>>, committee_length: nat, v: Seq<char>)
    requires
        texts.len() >= 1,
        texts.len() >= committee_length / 2,
        forall|k: int| 0 <= k < texts.len() ==> accum_field(#[trigger] texts[k]) == v,
    ensures
        accum_result(texts, committee_length) == v,
{
    let values = accum_values(texts);
    assert forall|k: int| 0 <= k < values.len() implies values[k] == v by {
        assert(values[k] == accum_field(texts[k]));
    }
    lemma_count_all(values, v);
    assert(count_of(values, values[0]) >= committee_length / 2);
    let j = choose|j: int|
        0 <= j < values.len() && count_of(values, #[trigger] values[j]) >= committee_length / 2
            && forall|k: int| 0 <= k < j ==> count_of(values, #[trigger] values[k]) < committee_length / 2;
    assert(j == 0) by {
        if j > 0 {
            assert(count_of(values, values[0]) < committee_length / 2);
        }
    }
}

/// What a server receives for an accumulation message, its fields sent with
/// the committee id and the sender's id and tagged with the sender's
/// address, carries the message's value: where neither the sign nor the
/// value holds a comma, the second field is the value.
pub proof fn lemma_received_accum(a: Accum, committee_id: u32, id: Seq<char>, ip: Seq<char>)
    requires
        lacks(a.sign@, ','),
        lacks(a.value@, ','),
    ensures
        ({
            let received = payload(seq![a.sign@, a.value@, a.types@], committee_id, id) + seq!['/'] + ip;
            &&& split(received, seq![',', ' ']).len() >= 2
            &&& accum_field(received) == a.value@
        }),
{
    let sep = seq![',', ' '];
    let f = seq![a.sign@, a.value@, a.types@];
    let d = decimal(committee_id as nat);
    let whole = join(f, sep);
    lemma_join_append(seq![whole], seq![d, id], sep);
    assert(seq![whole, d, id] =~= seq![whole] + seq![d, id]);
    let tail = sep + join(seq![d, id], sep) + seq!['/'] + ip;
    assert(f =~= seq![a.sign@] + seq![a.value@, a.types@]);
    lemma_join_front(a.sign@, seq![a.value@, a.types@], sep);
    assert(seq![a.value@, a.types@] =~= seq![a.value@] + seq![a.types@]);
    lemma_join_front(a.value@, seq![a.types@], sep);
    let received = payload(f, committee_id, id) + seq!['/'] + ip;
    let r2 = a.types@ + tail;
    let r1 = a.value@ + sep + r2;
    assert(received =~= a.sign@ + sep + r1);
    lemma_split_front(a.sign@, sep, r1);
    lemma_split_front(a.value@, sep, r2);
    crate::text::lemma_split_len(r2, sep);
}

} // verus!
