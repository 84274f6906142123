//! Graded agreement: counting the echoes that support a value.
use vstd::prelude::*;
use crate::merkle::strings_view;
use crate::message::{ConsensusMessage, Echo, Forward, NetworkMessage};
use crate::reactor::{args_ok, broadcast_message, entries_ok, sent_to_committee};
use crate::text::{owned, chars_of, contains_chars, contains_seq, first_word, first_word_chars, string_of};

verus! {

/// The first words of the echoes that contain `v`, in order.
pub open spec fn echo_support(outputs: Seq<Seq<char>>, v: Seq<char>) -> Seq<Seq<char>>
    decreases outputs.len(),
{
    if outputs.len() == 0 {
        Seq::empty()
    } else {
        let rest = echo_support(outputs.drop_last(), v);
        let w = first_word(outputs.last());
        if contains_seq(w, v) {
            rest.push(w)
        } else {
            rest
        }
    }
}

/// Counts the echoes whose first word contains the value `V`, and returns
/// the count with those first words.
#[allow(non_snake_case)]
pub fn check_echo_major_v(echo_phase_output: Vec<String>, V: String) -> (r: (usize, Vec<String>))
    ensures
        strings_view(r.1@) == echo_support(strings_view(echo_phase_output@), V@),
        r.0 == r.1@.len(),
{
    let ghost outputs = strings_view(echo_phase_output@);
    let val = chars_of(V.as_str());
    let mut count: usize = 0;
    let mut pi: Vec<String> = Vec::new();
    let mut i: usize = 0;
    while i < echo_phase_output.len()
        invariant
            i <= echo_phase_output@.len(),
            outputs == strings_view(echo_phase_output@),
            val@ == V@,
            strings_view(pi@) == echo_support(outputs.subrange(0, i as int), V@),
            count == pi@.len(),
            count <= i,
        decreases echo_phase_output.len() - i,
    {
        proof {
            let sub = outputs.subrange(0, i + 1);
            assert(sub.drop_last() =~= outputs.subrange(0, i as int));
            assert(sub.last() == echo_phase_output@[i as int]@);
        }
        let output = chars_of(echo_phase_output[i].as_str());
        let word = first_word_chars(&output);
        if contains_chars(&word, &val) {
            count = count + 1;
            let ghost before = pi@;
            pi.push(string_of(&word));
            proof {
                assert(strings_view(pi@) =~= strings_view(before).push(word@));
            }
        }
        i = i + 1;
    }
    assert(outputs.subrange(0, i as int) =~= outputs);
    (count, pi)
}

/// The echo of the value `V`, unsigned, from the node to the committee of
/// the level: the start of graded agreement.
#[allow(non_snake_case)]
pub fn gba_setup(ip_address: &Vec<String>, args: &Vec<String>, V: String, level: usize) -> (m: NetworkMessage)
    requires
        entries_ok(strings_view(ip_address@)),
        args_ok(strings_view(args@)),
    ensures
        sent_to_committee(m, strings_view(ip_address@), strings_view(args@), level),
        m.message matches ConsensusMessage::EchoMessage(e) && e.sign@ == Seq::<char>::empty()
            && e.value == V && e.types@ == "echo"@,
{
    let echo = Echo::create_echo(owned(""), V);
    proof {
        reveal_strlit("");
    }
    broadcast_message(ip_address, args, ConsensusMessage::EchoMessage(echo), level)
}

/// The forward phase: when at least half the committee echoed the value
/// (`count` echoes, `pi` their first words), the forward of the first word
/// of `pi[0]` to the committee; else nothing.
pub fn forward_phase(count: usize, pi: &Vec<String>, ip_address: &Vec<String>, args: &Vec<String>, level: usize) -> (r: Option<NetworkMessage>)
    requires
        count >= ip_address@.len() / 2 ==> entries_ok(strings_view(ip_address@)) && args_ok(
            strings_view(args@),
        ) && pi@.len() > 0,
    ensures
        r is Some <==> count >= ip_address@.len() / 2,
        r matches Some(m) ==> sent_to_committee(m, strings_view(ip_address@), strings_view(args@), level),
        r matches Some(m) ==> (m.message matches ConsensusMessage::ForwardMessage(f) && f.sign@
            == Seq::<char>::empty() && f.value@ == first_word(pi@[0]@) && f.types@ == "forward"@),
{
    let b = ip_address.len() / 2;
    if count >= b {
        let v = first_word_chars(&chars_of(pi[0].as_str()));
        let forward = Forward::create_forward(owned(""), string_of(&v));
        proof {
            reveal_strlit("");
        }
        Some(broadcast_message(ip_address, args, ConsensusMessage::ForwardMessage(forward), level))
    } else {
        None
    }
}


/// Binary agreement on `V` starts with graded agreement: the echo of `V` to
/// the committee.
#[allow(non_snake_case)]
pub fn BA_setup(ip_address: &Vec<String>, args: &Vec<String>, V: String, level: usize) -> (m: NetworkMessage)
    requires
        entries_ok(strings_view(ip_address@)),
        args_ok(strings_view(args@)),
    ensures
        sent_to_committee(m, strings_view(ip_address@), strings_view(args@), level),
        m.message matches ConsensusMessage::EchoMessage(e) && e.sign@ == Seq::<char>::empty()
            && e.value == V && e.types@ == "echo"@,
{
    gba_setup(ip_address, args, V, level)
}

} // verus!
