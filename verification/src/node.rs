//! The node's state machine for the accumulation and agreement phases: the
//! state it keeps between messages, and the step that takes one received
//! message to the next state and the messages to send.
use vstd::prelude::*;
use vstd::arithmetic::power2::{pow2, lemma2_to64, lemma_pow2_strictly_increases};
use crate::buffer::{LevelStore, put_report, report_texts, reports_view, sender_key};
use crate::communication::peer_address_text;
use crate::dissemination::list_contains;
use crate::gba::{check_echo_major_v, echo_support, forward_phase, BA_setup};
use crate::merkle::strings_view;
use crate::message::{ConsensusMessage, NetworkMessage, PeerAddress};
use crate::phases::{
    disseminate_qualified, echo_threshold, first_words_agree, forward_decision, forward_threshold, level_members,
    output_generation, own_parts, propose_batch_ok, propose_decision, qualify, vote_pairs, vote_threshold,
};
use crate::pvss_agreement::encoder_accepts;
use crate::reactor::{
    accum_helper, accum_init, args_ok, entries_ok, entry_ok, entry_parts, forward_helper, halves, is_pow2,
    left_reports, propose_helper, reactor_init, report_is_left, report_is_right, report_ok, right_reports,
    sent_to_committee, split_vec_recursively, vec_views, accumulation_value, first_words, most_frequent,
};
use crate::accum::{accum_result, accum_texts_ok};
use crate::retrieval::{after_message, counts_fit, retrieval_fits, retrieve_step, table_count, table_view, EntryView, RetrievalState};
use crate::dissemination::{already_seen, codeword_helper, pair_bytes_ok, retrieve_message_ok};
use crate::codeword::{codeword_parts_ok, codeword_verdict, unescape};
use crate::text::{
    chars_of, count_of, first_word, matches_at, find_from, lemma_find_from, owned, parse_bounded, parse_bounded_chars,
    split, split_chars, str_equal, string_of, views,
};

verus! {

/// A report as the node records it: the value, a space, and the sender's
/// address `host:port`.
pub open spec fn sender_report(value: Seq<char>, sender: PeerAddress) -> Seq<char> {
    value + seq![' '] + sender.host@ + seq![':'] + crate::text::decimal(sender.port as nat)
}

/// Writes a report as the node records it.
pub fn report_of(value: &String, sender: &PeerAddress) -> (r: String)
    ensures
        r@ == sender_report(value@, *sender),
{
    let mut text = chars_of(value.as_str());
    text.push(' ');
    let addr = chars_of(peer_address_text(&sender.host, sender.port as u32).as_str());
    crate::text::extend_chars(&mut text, &addr);
    let r = string_of(&text);
    assert(r@ =~= sender_report(value@, *sender));
    r
}

/// Whether an entry `id-ip` is well formed.
pub fn entry_checked(e: &String) -> (r: bool)
    ensures
        r == entry_ok(e@),
{
    let mut dash: Vec<char> = Vec::new();
    dash.push('-');
    assert(dash@ =~= seq!['-']);
    let parts = split_chars(&chars_of(e.as_str()), &dash);
    assert(views(parts@) == entry_parts(e@));
    if parts.len() < 2 {
        return false;
    }
    assert(views(parts@)[0] == parts@[0]@);
    match parse_bounded_chars(&parts[0], 10, u32::MAX as u64) {
        Some(v) => 7000 + v <= 65535,
        None => false,
    }
}

/// Whether every entry of a committee is well formed.
pub fn entries_checked(v: &Vec<String>) -> (r: bool)
    ensures
        r == entries_ok(strings_view(v@)),
{
    let mut i: usize = 0;
    while i < v.len()
        invariant
            i <= v@.len(),
            forall|k: int| 0 <= k < i ==> entry_ok(#[trigger] strings_view(v@)[k]),
        decreases v.len() - i,
    {
        if !entry_checked(&v[i]) {
            assert(!entry_ok(strings_view(v@)[i as int]));
            return false;
        }
        i = i + 1;
    }
    true
}

/// Appends the strings of `src` to `dst`, in order.
pub fn append_strings(dst: &mut Vec<String>, src: &Vec<String>)
    ensures
        strings_view(final(dst)@) == strings_view(old(dst)@) + strings_view(src@),
{
    let ghost start = strings_view(dst@);
    let mut i: usize = 0;
    while i < src.len()
        invariant
            i <= src@.len(),
            strings_view(dst@) == start + strings_view(src@).subrange(0, i as int),
        decreases src.len() - i,
    {
        let t = src[i].clone();
        let ghost before = dst@;
        dst.push(t);
        proof {
            assert(strings_view(dst@) =~= strings_view(before).push(t@));
            assert(strings_view(src@).subrange(0, i + 1) =~= strings_view(src@).subrange(0, i as int).push(
                src@[i as int]@,
            ));
        }
        i = i + 1;
    }
    assert(strings_view(src@).subrange(0, i as int) =~= strings_view(src@));
}

/// The committees as lists of entries.
pub open spec fn committees_view(v: Seq<Seq<String>>) -> Seq<Seq<Seq<char>>> {
    v.map_values(|c: Seq<String>| strings_view(c))
}

/// The committees that hold the entry `own`, in order.
pub open spec fn with_member(cs: Seq<Seq<Seq<char>>>, own: Seq<char>) -> Seq<Seq<Seq<char>>>
    decreases cs.len(),
{
    if cs.len() == 0 {
        Seq::empty()
    } else if cs.last().contains(own) {
        with_member(cs.drop_last(), own).push(cs.last())
    } else {
        with_member(cs.drop_last(), own)
    }
}

/// Keeps the committees that hold the entry `own`.
pub fn retain_member(cs: Vec<Vec<String>>, own: &String) -> (r: Vec<Vec<String>>)
    ensures
        committees_view(vec_views(r@)) == with_member(committees_view(vec_views(cs@)), own@),
{
    let ghost all = committees_view(vec_views(cs@));
    let mut r: Vec<Vec<String>> = Vec::new();
    let mut i: usize = 0;
    while i < cs.len()
        invariant
            i <= cs@.len(),
            all == committees_view(vec_views(cs@)),
            committees_view(vec_views(r@)) == with_member(all.subrange(0, i as int), own@),
        decreases cs.len() - i,
    {
        let ghost sub = all.subrange(0, i + 1);
        assert(sub.drop_last() =~= all.subrange(0, i as int));
        assert(sub.last() == strings_view(cs@[i as int]@));
        if list_contains(&cs[i], own) {
            let c = cs[i].clone();
            let ghost before = r@;
            r.push(c);
            proof {
                assert(committees_view(vec_views(r@)) =~= committees_view(vec_views(before)).push(
                    strings_view(c@),
                ));
            }
        }
        i = i + 1;
    }
    assert(all.subrange(0, i as int) =~= all);
    r
}

/// Every committee of the list holds only well-formed entries and at least
/// one entry.
pub open spec fn committees_ok(cs: Seq<Seq<Seq<char>>>) -> bool {
    forall|k: int| 0 <= k < cs.len() ==> entries_ok(#[trigger] cs[k]) && cs[k].len() > 0
}

/// The halves of a committee of well-formed entries hold well-formed
/// entries, and at least one each.
pub proof fn lemma_halves_ok(s: Seq<String>)
    requires
        entries_ok(strings_view(s)),
    ensures
        committees_ok(committees_view(halves(s).0)),
        committees_ok(committees_view(halves(s).1)),
    decreases s.len(),
{
    if s.len() > 2 {
        let mid = s.len() / 2;
        let l = s.subrange(0, mid as int);
        let r = s.subrange(mid as int, s.len() as int);
        assert(entries_ok(strings_view(l))) by {
            assert forall|i: int| 0 <= i < l.len() implies entry_ok(#[trigger] strings_view(l)[i]) by {
                assert(strings_view(l)[i] == strings_view(s)[i]);
            }
        }
        assert(entries_ok(strings_view(r))) by {
            assert forall|i: int| 0 <= i < r.len() implies entry_ok(#[trigger] strings_view(r)[i]) by {
                assert(strings_view(r)[i] == strings_view(s)[i + mid]);
            }
        }
        lemma_halves_ok(l);
        lemma_halves_ok(r);
        let a = seq![l] + halves(l).0 + halves(r).0;
        let b = seq![r] + halves(l).1 + halves(r).1;
        assert forall|k: int| 0 <= k < a.len() implies entries_ok(#[trigger] committees_view(a)[k])
            && committees_view(a)[k].len() > 0 by {
            if k >= 1 && k < 1 + halves(l).0.len() {
                assert(a[k] == halves(l).0[k - 1]);
                assert(committees_view(halves(l).0)[k - 1] == strings_view(a[k]));
            } else if k >= 1 + halves(l).0.len() {
                assert(a[k] == halves(r).0[k - 1 - halves(l).0.len()]);
                assert(committees_view(halves(r).0)[k - 1 - halves(l).0.len()] == strings_view(a[k]));
            }
        }
        assert forall|k: int| 0 <= k < b.len() implies entries_ok(#[trigger] committees_view(b)[k])
            && committees_view(b)[k].len() > 0 by {
            if k >= 1 && k < 1 + halves(l).1.len() {
                assert(b[k] == halves(l).1[k - 1]);
                assert(committees_view(halves(l).1)[k - 1] == strings_view(b[k]));
            } else if k >= 1 + halves(l).1.len() {
                assert(b[k] == halves(r).1[k - 1 - halves(l).1.len()]);
                assert(committees_view(halves(r).1)[k - 1 - halves(l).1.len()] == strings_view(b[k]));
            }
        }
    }
}

/// Keeping the committees that hold an entry keeps them well formed.
pub proof fn lemma_with_member_ok(cs: Seq<Seq<Seq<char>>>, own: Seq<char>)
    requires
        committees_ok(cs),
    ensures
        committees_ok(with_member(cs, own)),
    decreases cs.len(),
{
    if cs.len() > 0 {
        lemma_with_member_ok(cs.drop_last(), own);
        assert(cs.last() == cs[cs.len() - 1]);
    }
}

/// `pow2(level)` fits in a `usize` below 32 levels.
pub proof fn lemma_level_members_fit(level: nat)
    requires
        level < 32,
    ensures
        pow2(level) <= usize::MAX,
{
    lemma2_to64();
    if level < 31 {
        lemma_pow2_strictly_increases(level, 31);
    }
}


/// The reports waiting in a store, level by level.
pub open spec fn store_map(s: LevelStore) -> Map<usize, Seq<((Seq<char>, u16), Seq<char>)>> {
    Map::new(|l: usize| true, |l: usize| s.waiting(l))
}

/// Vote pairs as plain values.
pub open spec fn pairs_view(v: Seq<(String, String)>) -> Seq<(Seq<char>, Seq<char>)> {
    v.map_values(|p: (String, String)| (p.0@, p.1@))
}

/// The (value, sender) pairs of votes: the first two space-separated words.
pub open spec fn vote_pairs_of(values: Seq<Seq<char>>) -> Seq<(Seq<char>, Seq<char>)> {
    Seq::new(values.len(), |k: int| (split(values[k], seq![' '])[0], split(values[k], seq![' '])[1]))
}

/// What the node keeps between messages in the accumulation and agreement
/// phases.
pub struct ReactorState {
    pub level: usize,
    pub ip_address: Vec<String>,
    pub accum_value: Vec<String>,
    pub echo_value: Vec<String>,
    pub forward_value: Vec<String>,
    pub vote1_value: Vec<String>,
    pub vote2_value: Vec<String>,
    pub propose_value: Vec<String>,
    pub storage_accum: LevelStore,
    pub storage_propose: LevelStore,
    pub c1: Vec<(String, String)>,
    pub c2: Vec<(String, String)>,
    pub v1: String,
    pub v2: String,
    pub ba_v: String,
    pub voted: bool,
    pub forward_check: bool,
    pub propose_reached: bool,
    pub ip_address_left: Vec<Vec<String>>,
    pub ip_address_right: Vec<Vec<String>>,
    pub ip_address_backup: Vec<String>,
    pub acc_value_zl: String,
    pub pvss_data: Vec<u8>,
    pub check_first_codeword_list: Vec<String>,
    pub check_first_committee_list: Vec<String>,
    pub retrieval: RetrievalState,
}

/// The node's state as plain values.
pub struct ReactorView {
    pub level: usize,
    pub ip_address: Seq<Seq<char>>,
    pub accum_value: Seq<Seq<char>>,
    pub echo_value: Seq<Seq<char>>,
    pub forward_value: Seq<Seq<char>>,
    pub vote1_value: Seq<Seq<char>>,
    pub vote2_value: Seq<Seq<char>>,
    pub propose_value: Seq<Seq<char>>,
    pub storage_accum: Map<usize, Seq<((Seq<char>, u16), Seq<char>)>>,
    pub storage_propose: Map<usize, Seq<((Seq<char>, u16), Seq<char>)>>,
    pub c1: Seq<(Seq<char>, Seq<char>)>,
    pub c2: Seq<(Seq<char>, Seq<char>)>,
    pub v1: Seq<char>,
    pub v2: Seq<char>,
    pub ba_v: Seq<char>,
    pub voted: bool,
    pub forward_check: bool,
    pub propose_reached: bool,
    pub left: Seq<Seq<Seq<char>>>,
    pub right: Seq<Seq<Seq<char>>>,
    pub backup: Seq<Seq<char>>,
    pub acc_value_zl: Seq<char>,
    pub pvss_data: Seq<u8>,
    pub codeword_list: Seq<Seq<char>>,
    pub committee_list: Seq<Seq<char>>,
    pub retrieved_codewords: Seq<(usize, Seq<EntryView>)>,
    pub retrieved_committee: Seq<(usize, Seq<EntryView>)>,
    pub retrieval_flag: bool,
    pub recursion_finish: bool,
}

impl View for ReactorState {
    type V = ReactorView;

    open spec fn view(&self) -> ReactorView {
        ReactorView {
            level: self.level,
            ip_address: strings_view(self.ip_address@),
            accum_value: strings_view(self.accum_value@),
            echo_value: strings_view(self.echo_value@),
            forward_value: strings_view(self.forward_value@),
            vote1_value: strings_view(self.vote1_value@),
            vote2_value: strings_view(self.vote2_value@),
            propose_value: strings_view(self.propose_value@),
            storage_accum: store_map(self.storage_accum),
            storage_propose: store_map(self.storage_propose),
            c1: pairs_view(self.c1@),
            c2: pairs_view(self.c2@),
            v1: self.v1@,
            v2: self.v2@,
            ba_v: self.ba_v@,
            voted: self.voted,
            forward_check: self.forward_check,
            propose_reached: self.propose_reached,
            left: committees_view(vec_views(self.ip_address_left@)),
            right: committees_view(vec_views(self.ip_address_right@)),
            backup: strings_view(self.ip_address_backup@),
            acc_value_zl: self.acc_value_zl@,
            pvss_data: self.pvss_data@,
            codeword_list: strings_view(self.check_first_codeword_list@),
            committee_list: strings_view(self.check_first_committee_list@),
            retrieved_codewords: table_view(self.retrieval.codeword_table@),
            retrieved_committee: table_view(self.retrieval.committee_table@),
            retrieval_flag: self.retrieval.flag,
            recursion_finish: self.retrieval.recursion_finish,
        }
    }
}

/// A report that the accumulation phase can count at `level`: well formed,
/// and one of the two halves' reports carries the `, `-separated fields.
pub open spec fn accum_text_ok(t: Seq<char>, lines: Seq<Seq<char>>, level: nat) -> bool {
    &&& report_ok(t, lines, level)
    &&& (report_is_left(t, lines, level) || report_is_right(t, lines, level)) ==> split(t, seq![',', ' ']).len() >= 2
}

impl ReactorState {
    /// The state is consistent: the level is one of `levels` (at most 32),
    /// the committees hold well-formed entries, the stores are well formed,
    /// and every accumulation report held or waiting can be counted at its
    /// level.
    pub open spec fn wf(self, levels: nat, lines: Seq<Seq<char>>) -> bool {
        &&& self.level < levels <= 32
        &&& entries_ok(self@.ip_address)
        &&& committees_ok(self@.left)
        &&& committees_ok(self@.right)
        &&& entries_ok(self@.backup)
        &&& self.storage_accum.wf()
        &&& self.storage_propose.wf()
        &&& forall|k: int| 0 <= k < self@.vote1_value.len() ==> split(#[trigger] self@.vote1_value[k], seq![' ']).len() >= 2
        &&& forall|k: int| 0 <= k < self@.vote2_value.len() ==> split(#[trigger] self@.vote2_value[k], seq![' ']).len() >= 2
        &&& forall|k: int|
            0 <= k < self@.accum_value.len() ==> accum_text_ok(#[trigger] self@.accum_value[k], lines, self.level as nat)
        &&& forall|l: usize, k: int|
            0 <= k < self.storage_accum.waiting(l).len() ==> accum_text_ok(
                (#[trigger] self.storage_accum.waiting(l)[k]).1,
                lines,
                l as nat,
            )
    }
}

/// The state and messages of a step as plain values.
pub open spec fn result_view(r: Option<(ReactorState, Vec<NetworkMessage>, bool)>) -> Option<
    (ReactorView, Seq<NetworkMessage>, bool),
> {
    match r {
        Some((s, out, restart)) => Some((s@, out@, restart)),
        None => None,
    }
}

/// Whether the node acts as an adversary (`args[8]` is `1`).
pub open spec fn adversarial(args: Seq<Seq<char>>) -> bool {
    args[8] == "1"@
}

/// The forward of `v` to the committee.
pub open spec fn forward_msg(m: NetworkMessage, entries: Seq<Seq<char>>, args: Seq<Seq<char>>, level: usize, v: Seq<char>) -> bool {
    &&& sent_to_committee(m, entries, args, level)
    &&& m.message matches ConsensusMessage::ForwardMessage(f) && f.sign@ == Seq::<char>::empty() && f.value@ == v
        && f.types@ == "forward"@
}

/// The vote for `v` in round `no` to the committee.
pub open spec fn vote_msg(m: NetworkMessage, entries: Seq<Seq<char>>, args: Seq<Seq<char>>, level: usize, v: Seq<char>, no: usize) -> bool {
    &&& sent_to_committee(m, entries, args, level)
    &&& m.message matches ConsensusMessage::VoteMessage(x) && x.sign@ == Seq::<char>::empty() && x.value@ == v
        && x.no == no && x.types@ == "vote"@
}

/// The proposal of `v` to the committee.
pub open spec fn propose_msg(m: NetworkMessage, entries: Seq<Seq<char>>, args: Seq<Seq<char>>, level: usize, v: Seq<char>) -> bool {
    &&& sent_to_committee(m, entries, args, level)
    &&& m.message matches ConsensusMessage::ProposeMessage(x) && x.sign@ == Seq::<char>::empty() && x.value@ == v
        && x.types@ == "propose"@
}

/// The echo of `v` to the committee: the start of graded agreement.
pub open spec fn echo_msg(m: NetworkMessage, entries: Seq<Seq<char>>, args: Seq<Seq<char>>, level: usize, v: Seq<char>) -> bool {
    &&& sent_to_committee(m, entries, args, level)
    &&& m.message matches ConsensusMessage::EchoMessage(e) && e.sign@ == Seq::<char>::empty() && e.value@ == v
        && e.types@ == "echo"@
}

/// The value that graded agreement runs on: `V1-V2`.
pub open spec fn agreed_pair(s: ReactorView) -> Seq<char> {
    s.v1 + seq!['-'] + s.v2
}

/// An echo received: recorded when it is for the node's level; once the
/// level's threshold of echoes arrived (a half of the level's members, a
/// third once a proposal phase ended) or time is up, the echoes that support
/// `V1-V2` are counted and cleared, and where they reach half the committee
/// the node forwards the first word of the first one. An adversary may skip
/// this before the first proposal phase ends.
pub open spec fn echo_step(
    s: ReactorView,
    value: Seq<char>,
    sender: PeerAddress,
    msg_level: usize,
    timed_out: bool,
    args: Seq<Seq<char>>,
    r: Option<(ReactorView, Seq<NetworkMessage>, bool)>,
) -> bool {
    let echoes = if msg_level == s.level { s.echo_value.push(sender_report(value, sender)) } else { s.echo_value };
    let threshold = if s.propose_reached { pow2(s.level as nat) / 3 } else { pow2(s.level as nat) / 2 };
    if !(echoes.len() == threshold || timed_out) {
        r == Some((ReactorView { echo_value: echoes, ..s }, Seq::<NetworkMessage>::empty(), true))
    } else {
        let pi = echo_support(echoes, agreed_pair(s));
        let cleared = ReactorView { echo_value: Seq::empty(), ..s };
        let may_skip = adversarial(args) && !s.propose_reached;
        let fwd = pi.len() >= s.ip_address.len() / 2;
        if may_skip && s.ip_address.len() == 0 {
            r is None
        } else {
            ||| may_skip && r == Some((cleared, Seq::<NetworkMessage>::empty(), true))
            ||| fwd && pi.len() == 0 && r is None
            ||| !(fwd && pi.len() == 0) && match r {
                Some((s2, out, restart)) => restart && s2 == ReactorView { forward_check: fwd, ..cleared } && (if fwd {
                    out.len() == 1 && forward_msg(out[0], s.ip_address, args, s.level, first_word(pi[0]))
                } else {
                    out.len() == 0
                }),
                None => false,
            }
        }
    }
}

/// A forward received: recorded when it is for the node's level; once the
/// level's threshold arrived (a half of the members, a quarter once a
/// proposal phase ended) or time is up, the forwards are cleared, and where
/// the node forwarded in the echo phase and all of them carry the same first
/// word, it votes for that word in the first round. An adversary may skip the
/// vote.
pub open spec fn forward_step(
    s: ReactorView,
    value: Seq<char>,
    sender: PeerAddress,
    msg_level: usize,
    timed_out: bool,
    args: Seq<Seq<char>>,
    r: Option<(ReactorView, Seq<NetworkMessage>, bool)>,
) -> bool {
    let fwds = if msg_level == s.level { s.forward_value.push(sender_report(value, sender)) } else { s.forward_value };
    let threshold = if s.propose_reached { pow2(s.level as nat) / 4 } else { pow2(s.level as nat) / 2 };
    if !(fwds.len() == threshold || timed_out) {
        r == Some((ReactorView { forward_value: fwds, ..s }, Seq::<NetworkMessage>::empty(), true))
    } else if fwds.len() == 0 {
        r is None
    } else {
        let cleared = ReactorView { forward_value: Seq::empty(), ..s };
        let vote = s.forward_check && first_words_agree(fwds);
        if !vote {
            r == Some((cleared, Seq::<NetworkMessage>::empty(), true))
        } else if adversarial(args) && s.ip_address.len() == 0 {
            r is None
        } else {
            ||| adversarial(args) && r == Some((cleared, Seq::<NetworkMessage>::empty(), true))
            ||| match r {
                Some((s2, out, restart)) => restart && s2 == cleared && out.len() == 1 && vote_msg(
                    out[0],
                    s.ip_address,
                    args,
                    s.level,
                    first_word(fwds[0]),
                    1,
                ),
                None => false,
            }
        }
    }
}

/// Whether `n` is a power of two.
pub fn pow2_checked(n: usize) -> (r: bool)
    ensures
        r == is_pow2(n as nat),
    decreases n,
{
    if n == 0 {
        false
    } else if n == 1 {
        true
    } else if n % 2 != 0 {
        false
    } else {
        pow2_checked(n / 2)
    }
}

/// Draws whether an adversarial node skips its next message; `None` where
/// there is no committee to draw over.
fn adversary_skips(adversary: bool, committee_size: usize) -> (r: Option<bool>)
    ensures
        r is None <==> adversary && committee_size == 0,
        r matches Some(b) ==> (b ==> adversary),
{
    if !adversary {
        Some(false)
    } else if committee_size == 0 {
        None
    } else {
        Some(crate::adversary::create_prob(committee_size))
    }
}

/// The text `V1-V2`.
fn pair_text(v1: &String, v2: &String) -> (r: String)
    ensures
        r@ == v1@ + seq!['-'] + v2@,
{
    let mut t = chars_of(v1.as_str());
    t.push('-');
    crate::text::extend_chars(&mut t, &chars_of(v2.as_str()));
    let r = string_of(&t);
    assert(r@ =~= v1@ + seq!['-'] + v2@);
    r
}

/// Handles an echo (see `echo_step`).
fn on_echo(
    s: ReactorState,
    value: &String,
    sender: &PeerAddress,
    msg_level: usize,
    timed_out: bool,
    args: &Vec<String>,
    Ghost(levels): Ghost<nat>,
    Ghost(lines): Ghost<Seq<Seq<char>>>,
) -> (r: Option<(ReactorState, Vec<NetworkMessage>, bool)>)
    requires
        s.wf(levels, lines),
        args_ok(strings_view(args@)),
        args@.len() >= 9,
    ensures
        echo_step(s@, value@, *sender, msg_level, timed_out, strings_view(args@), result_view(r)),
        r matches Some((s2, _, _)) ==> s2.wf(levels, lines),
{
    let mut s = s;
    let ghost s0 = s@;
    if msg_level == s.level {
        let t = report_of(value, sender);
        s.echo_value.push(t);
        proof {
            assert(strings_view(s.echo_value@) =~= s0.echo_value.push(sender_report(value@, *sender)));
        }
    }
    proof {
        lemma_level_members_fit(s.level as nat);
    }
    let threshold = echo_threshold(s.level, s.propose_reached);
    if !(s.echo_value.len() == threshold || timed_out) {
        proof {
            assert(s@ == ReactorView { echo_value: s@.echo_value, ..s0 });
        }
        return Some((s, Vec::new(), true));
    }
    let v = pair_text(&s.v1, &s.v2);
    let echoes = s.echo_value;
    s.echo_value = Vec::new();
    let ghost cleared = s@;
    assert(strings_view(s.echo_value@) =~= Seq::<Seq<char>>::empty());
    assert(cleared == ReactorView { echo_value: Seq::empty(), ..s0 });
    let (count, pi) = check_echo_major_v(echoes, v);
    let adversary = str_equal(args[8].as_str(), "1");
    assert(adversary == adversarial(strings_view(args@)));
    let may_skip = adversary && !s.propose_reached;
    match adversary_skips(may_skip, s.ip_address.len()) {
        None => {
            return None;
        },
        Some(true) => {
            return Some((s, Vec::new(), true));
        },
        Some(false) => {},
    }
    let fwd = count >= s.ip_address.len() / 2;
    if fwd && pi.len() == 0 {
        return None;
    }
    s.forward_check = fwd;
    let mut out: Vec<NetworkMessage> = Vec::new();
    match forward_phase(count, &pi, &s.ip_address, args, s.level) {
        Some(m) => {
            out.push(m);
        },
        None => {},
    }
    proof {
        if pi@.len() > 0 {
            assert(strings_view(pi@)[0] == pi@[0]@);
        }
    }
    Some((s, out, true))
}

/// Handles a forward (see `forward_step`).
fn on_forward(
    s: ReactorState,
    value: &String,
    sender: &PeerAddress,
    msg_level: usize,
    timed_out: bool,
    args: &Vec<String>,
    Ghost(levels): Ghost<nat>,
    Ghost(lines): Ghost<Seq<Seq<char>>>,
) -> (r: Option<(ReactorState, Vec<NetworkMessage>, bool)>)
    requires
        s.wf(levels, lines),
        args_ok(strings_view(args@)),
        args@.len() >= 9,
    ensures
        forward_step(s@, value@, *sender, msg_level, timed_out, strings_view(args@), result_view(r)),
        r matches Some((s2, _, _)) ==> s2.wf(levels, lines),
{
    let mut s = s;
    let ghost s0 = s@;
    if msg_level == s.level {
        let t = report_of(value, sender);
        s.forward_value.push(t);
        proof {
            assert(strings_view(s.forward_value@) =~= s0.forward_value.push(sender_report(value@, *sender)));
        }
    }
    proof {
        lemma_level_members_fit(s.level as nat);
    }
    let threshold = forward_threshold(s.level, s.propose_reached);
    if !(s.forward_value.len() == threshold || timed_out) {
        proof {
            assert(s@ == ReactorView { forward_value: s@.forward_value, ..s0 });
        }
        return Some((s, Vec::new(), true));
    }
    if s.forward_value.len() == 0 {
        return None;
    }
    let decision = forward_decision(&s.forward_value, s.forward_check);
    proof {
        assert(strings_view(s.forward_value@)[0] == s.forward_value@[0]@);
    }
    s.forward_value = Vec::new();
    let ghost cleared = s@;
    assert(strings_view(s.forward_value@) =~= Seq::<Seq<char>>::empty());
    assert(cleared == ReactorView { forward_value: Seq::empty(), ..s0 });
    match decision {
        None => Some((s, Vec::new(), true)),
        Some(v) => {
            let adversary = str_equal(args[8].as_str(), "1");
            assert(adversary == adversarial(strings_view(args@)));
            match adversary_skips(adversary, s.ip_address.len()) {
                None => None,
                Some(true) => Some((s, Vec::new(), true)),
                Some(false) => {
                    let m = forward_helper(&s.ip_address, args, v, 1, s.level);
                    let mut out: Vec<NetworkMessage> = Vec::new();
                    out.push(m);
                    Some((s, out, true))
                },
            }
        },
    }
}

/// A report holds a space, so it has at least two space-separated words.
pub proof fn lemma_report_words(value: Seq<char>, sender: PeerAddress)
    ensures
        split(sender_report(value, sender), seq![' ']).len() >= 2,
{
    let t = sender_report(value, sender);
    let sep = seq![' '];
    assert(t.subrange(value.len() as int, value.len() + 1 as int) =~= sep);
    assert(matches_at(t, sep, value.len() as int));
    lemma_find_from(t, sep, 0);
    match find_from(t, sep, 0) {
        Some(i) => {
            crate::text::lemma_split_len(t.subrange(i + 1, t.len() as int), sep);
        },
        None => {},
    }
}

/// The first round's output: where the round fires with votes in `c1`, the
/// second-round vote for the first value of `c1`.
pub open spec fn round_one_sent(
    out: Seq<NetworkMessage>,
    send: bool,
    c1: Seq<(Seq<char>, Seq<char>)>,
    entries: Seq<Seq<char>>,
    args: Seq<Seq<char>>,
    level: usize,
) -> bool {
    send ==> vote_msg(out[0], entries, args, level, c1[0].0, 2)
}

/// A vote received, recorded in its round. Where a round's threshold of
/// votes arrived (a half of the level's members plus one, a quarter plus one
/// once a proposal phase ended) or time is up, its votes join that round's
/// (value, sender) pairs and are cleared; the first round then votes in the
/// second round for the first value of its pairs, and the second round
/// decides: the node has voted and agrees on that value where the first
/// pairs of both rounds carry it, and proposes the value it agrees on. An
/// adversary may skip the proposal.
pub open spec fn vote_step(
    s: ReactorView,
    value: Seq<char>,
    no: usize,
    sender: PeerAddress,
    timed_out: bool,
    args: Seq<Seq<char>>,
    r: Option<(ReactorView, Seq<NetworkMessage>, bool)>,
) -> bool {
    let t = sender_report(value, sender);
    let v1s = if no == 1 { s.vote1_value.push(t) } else { s.vote1_value };
    let v2s = if no == 1 { s.vote2_value } else { s.vote2_value.push(t) };
    let size = (if s.propose_reached { pow2(s.level as nat) / 4 } else { pow2(s.level as nat) / 2 }) + 1;
    let fire1 = v1s.len() == size || timed_out;
    let c1n = if fire1 { s.c1 + vote_pairs_of(v1s) } else { s.c1 };
    let v1n = if fire1 { Seq::empty() } else { v1s };
    let send1 = fire1 && c1n.len() > 0;
    let n1: int = if send1 { 1 } else { 0 };
    let fire2 = v2s.len() == size || timed_out;
    if !fire2 {
        match r {
            Some((s2, out, restart)) => !restart && s2 == ReactorView {
                vote1_value: v1n,
                vote2_value: v2s,
                c1: c1n,
                ..s
            } && out.len() == n1 && round_one_sent(out, send1, c1n, s.ip_address, args, s.level),
            None => false,
        }
    } else {
        let c2n = s.c2 + vote_pairs_of(v2s);
        let decided = c1n.len() > 0 && c1n[0].0 == c2n[0].0;
        let ba = if decided { c1n[0].0 } else { s.ba_v };
        let s2v = ReactorView {
            vote1_value: v1n,
            vote2_value: Seq::empty(),
            c1: c1n,
            c2: c2n,
            voted: s.voted || decided,
            ba_v: ba,
            ..s
        };
        if c1n.len() > 0 && c2n.len() == 0 {
            r is None
        } else if adversarial(args) && s.ip_address.len() == 0 {
            r is None
        } else {
            match r {
                Some((s2, out, restart)) => restart && s2 == s2v && round_one_sent(out, send1, c1n, s.ip_address, args, s.level) && {
                    ||| adversarial(args) && out.len() == n1
                    ||| out.len() == n1 + 1 && propose_msg(out[n1], s.ip_address, args, s.level, ba)
                },
                None => false,
            }
        }
    }
}

/// Handles a vote (see `vote_step`).
fn on_vote(
    s: ReactorState,
    value: &String,
    no: usize,
    sender: &PeerAddress,
    timed_out: bool,
    args: &Vec<String>,
    Ghost(levels): Ghost<nat>,
    Ghost(lines): Ghost<Seq<Seq<char>>>,
) -> (r: Option<(ReactorState, Vec<NetworkMessage>, bool)>)
    requires
        s.wf(levels, lines),
        args_ok(strings_view(args@)),
        args@.len() >= 9,
    ensures
        vote_step(s@, value@, no, *sender, timed_out, strings_view(args@), result_view(r)),
        r matches Some((s2, _, _)) ==> s2.wf(levels, lines),
{
    let mut s = s;
    let ghost s0 = s@;
    let t = report_of(value, sender);
    proof {
        lemma_report_words(value@, *sender);
    }
    if no == 1 {
        s.vote1_value.push(t);
        proof {
            assert(strings_view(s.vote1_value@) =~= s0.vote1_value.push(t@));
        }
    } else {
        s.vote2_value.push(t);
        proof {
            assert(strings_view(s.vote2_value@) =~= s0.vote2_value.push(t@));
        }
    }
    let ghost v1s = strings_view(s.vote1_value@);
    let ghost v2s = strings_view(s.vote2_value@);
    proof {
        lemma_level_members_fit(s.level as nat);
        assert forall|k: int| 0 <= k < s.vote1_value@.len() implies crate::phases::vote_ok(
            #[trigger] s.vote1_value@[k]@,
        ) by {
            assert(v1s[k] == s.vote1_value@[k]@);
            if k < s0.vote1_value.len() {
                assert(v1s[k] == s0.vote1_value[k]);
                assert(split(s0.vote1_value[k], seq![' ']).len() >= 2);
            } else {
                assert(v1s[k] == t@);
            }
        }
        assert forall|k: int| 0 <= k < s.vote2_value@.len() implies crate::phases::vote_ok(
            #[trigger] s.vote2_value@[k]@,
        ) by {
            assert(v2s[k] == s.vote2_value@[k]@);
            if k < s0.vote2_value.len() {
                assert(v2s[k] == s0.vote2_value[k]);
                assert(split(s0.vote2_value[k], seq![' ']).len() >= 2);
            } else {
                assert(v2s[k] == t@);
            }
        }
    }
    let size = vote_threshold(s.level, s.propose_reached);
    let mut out: Vec<NetworkMessage> = Vec::new();
    let fire1 = s.vote1_value.len() == size || timed_out;
    if fire1 {
        let mut pairs = vote_pairs(&s.vote1_value);
        proof {
            assert(pairs_view(pairs@) =~= vote_pairs_of(v1s));
        }
        let ghost c1_before = pairs_view(s.c1@);
        s.c1.append(&mut pairs);
        s.vote1_value = Vec::new();
        proof {
            assert(pairs_view(s.c1@) =~= c1_before + vote_pairs_of(v1s));
            assert(strings_view(s.vote1_value@) =~= Seq::<Seq<char>>::empty());
        }
        if s.c1.len() > 0 {
            let v = s.c1[0].0.clone();
            assert(pairs_view(s.c1@)[0] == (s.c1@[0].0@, s.c1@[0].1@));
            let m = forward_helper(&s.ip_address, args, v, 2, s.level);
            out.push(m);
        }
    }
    let ghost mid = s@;
    let fire2 = s.vote2_value.len() == size || timed_out;
    if !fire2 {
        return Some((s, out, false));
    }
    let mut pairs2 = vote_pairs(&s.vote2_value);
    proof {
        assert(pairs_view(pairs2@) =~= vote_pairs_of(v2s));
    }
    let ghost c2_before = pairs_view(s.c2@);
    s.c2.append(&mut pairs2);
    s.vote2_value = Vec::new();
    proof {
        assert(pairs_view(s.c2@) =~= c2_before + vote_pairs_of(v2s));
        assert(strings_view(s.vote2_value@) =~= Seq::<Seq<char>>::empty());
    }
    if s.c1.len() > 0 && s.c2.len() == 0 {
        return None;
    }
    proof {
        if s.c1@.len() > 0 {
            assert(pairs_view(s.c1@)[0] == (s.c1@[0].0@, s.c1@[0].1@));
            assert(pairs_view(s.c2@)[0] == (s.c2@[0].0@, s.c2@[0].1@));
        }
    }
    match output_generation(&s.c1, &s.c2) {
        Some(o) => {
            s.voted = true;
            s.ba_v = o;
        },
        None => {},
    }
    let adversary = str_equal(args[8].as_str(), "1");
    assert(adversary == adversarial(strings_view(args@)));
    match adversary_skips(adversary, s.ip_address.len()) {
        None => {
            return None;
        },
        Some(true) => {
            return Some((s, out, true));
        },
        Some(false) => {},
    }
    let m = propose_helper(&s.ip_address, args, s.ba_v.clone(), s.level);
    out.push(m);
    Some((s, out, true))
}

/// The shares that qualify: `1` where `V1` is a value (neither `bot` nor
/// empty), then `2` where `V2` is.
pub open spec fn qualified(v1: Seq<char>, v2: Seq<char>) -> Seq<u32> {
    (if v1 != "bot"@ && v1 != Seq::<char>::empty() { seq![1u32] } else { Seq::<u32>::empty() }) + (if v2 != "bot"@
        && v2 != Seq::<char>::empty() {
        seq![2u32]
    } else {
        Seq::<u32>::empty()
    })
}

/// The messages that disseminate the node's data as each of `parts`, batch
/// after batch, under the value `value`, tagged `types`.
pub open spec fn disseminated(
    out: Seq<NetworkMessage>,
    data: Seq<u8>,
    parts: Seq<usize>,
    entries: Seq<Seq<char>>,
    args: Seq<Seq<char>>,
    level: usize,
    value: Seq<char>,
    types: Seq<char>,
) -> bool {
    exists|bs: Seq<Seq<NetworkMessage>>|
        {
            &&& out == bs.flatten()
            &&& bs.len() == parts.len()
            &&& forall|b: int|
                0 <= b < bs.len() ==> propose_batch_ok(#[trigger] bs[b], data, parts[b], entries, args, level, value, types)
        }
}

/// The value that the proposal phase settles on: the most frequent first
/// word of the proposals where the node has not voted and that word holds at
/// least half of them; else the value it had.
pub open spec fn proposal_choice(props: Seq<Seq<char>>, voted: bool, ba_v: Seq<char>) -> Seq<char> {
    if !voted && count_of(first_words(props), most_frequent(first_words(props))) >= props.len() / 2 {
        most_frequent(first_words(props))
    } else {
        ba_v
    }
}

/// A report arriving for the node's level is recorded with those waiting for
/// it, which are taken out of the store; one for another level waits there,
/// replacing an earlier one of its sender for that level.
pub open spec fn record_report(
    reports: Seq<Seq<char>>,
    store: Map<usize, Seq<((Seq<char>, u16), Seq<char>)>>,
    level: usize,
    msg_level: usize,
    sender: PeerAddress,
    t: Seq<char>,
) -> (Seq<Seq<char>>, Map<usize, Seq<((Seq<char>, u16), Seq<char>)>>) {
    if msg_level == level {
        (reports.push(t) + report_texts(store[level]), store.insert(level, Seq::empty()))
    } else {
        (reports, store.insert(msg_level, put_report(store[msg_level], sender_key(sender), t)))
    }
}

/// A proposal received, recorded (see `record_report`). Where half the
/// level's members proposed at the node's level, or time is up, the node
/// settles its value (see `proposal_choice`), marks the proposal phase as
/// reached and clears the echoes, forwards and votes. Then, for a proposal of
/// its level, agreement moves on to the next left half still to do, else the
/// next right half, with an echo of the value there; otherwise the node
/// returns to the level's committee, clears the proposals and disseminates
/// its data as the qualified shares whose value is its own accumulation
/// value (which needs a committee that the encoder handles).
pub open spec fn propose_step(
    s: ReactorView,
    value: Seq<char>,
    sender: PeerAddress,
    msg_level: usize,
    timed_out: bool,
    args: Seq<Seq<char>>,
    r: Option<(ReactorView, Seq<NetworkMessage>, bool)>,
) -> bool {
    let (props, store) = record_report(s.propose_value, s.storage_propose, s.level, msg_level, sender, sender_report(value, sender));
    let fire = (props.len() >= pow2(s.level as nat) / 2 && msg_level == s.level) || timed_out;
    if !fire {
        r == Some((ReactorView { propose_value: props, storage_propose: store, ..s }, Seq::<NetworkMessage>::empty(), false))
    } else {
        let ba = proposal_choice(props, s.voted, s.ba_v);
        let base = ReactorView {
            propose_value: props,
            storage_propose: store,
            ba_v: ba,
            propose_reached: true,
            echo_value: Seq::empty(),
            forward_value: Seq::empty(),
            vote1_value: Seq::empty(),
            vote2_value: Seq::empty(),
            ..s
        };
        if msg_level == s.level && s.left.len() > 0 {
            match r {
                Some((s2, out, restart)) => !restart && s2 == ReactorView { ip_address: s.left[0], left: s.left.drop_first(), ..base }
                    && out.len() == 1 && echo_msg(out[0], s.left[0], args, s.level, ba),
                None => false,
            }
        } else if msg_level == s.level && s.right.len() > 0 {
            match r {
                Some((s2, out, restart)) => !restart && s2 == ReactorView { ip_address: s.right[0], right: s.right.drop_first(), ..base }
                    && out.len() == 1 && echo_msg(out[0], s.right[0], args, s.level, ba),
                None => false,
            }
        } else {
            let parts = own_parts(qualified(s.v1, s.v2), s.v1, s.v2, s.acc_value_zl);
            if parts.len() > 0 && !encoder_accepts(s.pvss_data.len(), s.backup.len(), Seq::empty()) {
                r is None
            } else {
                match r {
                    Some((s2, out, restart)) => restart && s2 == ReactorView {
                        ip_address: s.backup,
                        propose_value: Seq::empty(),
                        ..base
                    } && disseminated(out, s.pvss_data, parts, s.backup, args, s.level, s.acc_value_zl, "codeword_propose"@),
                    None => false,
                }
            }
        }
    }
}

/// Whether the encoder handles a committee of `n` members for `data_len`
/// bytes.
pub fn encoder_accepts_checked(data_len: usize, n: usize) -> (r: bool)
    ensures
        r == encoder_accepts(data_len as nat, n as nat, Seq::empty()),
{
    proof {
        reveal_strlit("dev_init");
        assert(Seq::<char>::empty() != "dev_init"@) by {
            assert("dev_init"@.len() == 8);
        }
    }
    n == 2 || (3 <= n && n <= 256 && data_len > 0 && data_len <= usize::MAX - n)
}

/// The batches, one after the other.
pub fn flatten_batches(bs: Vec<Vec<NetworkMessage>>) -> (r: Vec<NetworkMessage>)
    ensures
        r@ == bs@.map_values(|b: Vec<NetworkMessage>| b@).flatten(),
{
    let ghost all = bs@.map_values(|b: Vec<NetworkMessage>| b@).flatten();
    let mut bs = bs;
    let mut r: Vec<NetworkMessage> = Vec::new();
    while bs.len() > 0
        invariant
            r@ + bs@.map_values(|b: Vec<NetworkMessage>| b@).flatten() == all,
        decreases bs@.len(),
    {
        let ghost views = bs@.map_values(|b: Vec<NetworkMessage>| b@);
        let mut b = bs.remove(0);
        proof {
            assert(bs@.map_values(|b: Vec<NetworkMessage>| b@) =~= views.drop_first());
            assert(views.first() == b@);
        }
        let ghost before = r@;
        r.append(&mut b);
        proof {
            assert(r@ + bs@.map_values(|b: Vec<NetworkMessage>| b@).flatten() =~= before + views.flatten());
        }
    }
    assert(bs@.map_values(|b: Vec<NetworkMessage>| b@) =~= Seq::<Seq<NetworkMessage>>::empty());
    assert(r@ =~= all);
    r
}

/// A copy of an address.
fn copy_address(a: &PeerAddress) -> (r: PeerAddress)
    ensures
        r.host@ == a.host@,
        r.port == a.port,
{
    PeerAddress { host: a.host.clone(), port: a.port }
}

/// Records a report (see `record_report`).
fn record_in(
    reports: &mut Vec<String>,
    store: &mut LevelStore,
    level: usize,
    msg_level: usize,
    sender: &PeerAddress,
    t: String,
)
    requires
        old(store).wf(),
    ensures
        final(store).wf(),
        (strings_view(final(reports)@), store_map(*final(store))) == record_report(
            strings_view(old(reports)@),
            store_map(*old(store)),
            level,
            msg_level,
            *sender,
            t@,
        ),
{
    let ghost m0 = store_map(*store);
    let ghost r0 = strings_view(reports@);
    if msg_level == level {
        reports.push(t);
        let taken = store.take(level);
        let ghost r1 = strings_view(reports@);
        assert(r1 =~= r0.push(t@));
        append_strings(reports, &taken);
        proof {
            assert(strings_view(taken@) =~= report_texts(m0[level]));
            assert(store_map(*store) =~= m0.insert(level, Seq::empty()));
        }
    } else {
        store.store(msg_level, copy_address(sender), t);
        proof {
            assert(store_map(*store) =~= m0.insert(msg_level, put_report(m0[msg_level], sender_key(*sender), t@)));
        }
    }
}

/// A copy of a list of strings.
fn copy_strings(v: &Vec<String>) -> (r: Vec<String>)
    ensures
        strings_view(r@) == strings_view(v@),
{
    let mut r: Vec<String> = Vec::new();
    append_strings(&mut r, v);
    assert(strings_view(r@) =~= strings_view(v@));
    r
}

/// Whether the node has a share to disseminate: some qualified share whose
/// value is its own accumulation value.
fn has_own_part(v1: &String, v2: &String, acc: &String) -> (r: bool)
    ensures
        r == (own_parts(qualified(v1@, v2@), v1@, v2@, acc@).len() > 0),
{
    proof {
        reveal_strlit("bot");
        reveal_strlit("");
        reveal_with_fuel(own_parts, 3);
        let q = qualified(v1@, v2@);
        let a = if v1@ != "bot"@ && v1@ != Seq::<char>::empty() { seq![1u32] } else { Seq::<u32>::empty() };
        let b = if v2@ != "bot"@ && v2@ != Seq::<char>::empty() { seq![2u32] } else { Seq::<u32>::empty() };
        assert(q == a + b);
        if a.len() == 1 && b.len() == 1 {
            assert(q =~= seq![1u32, 2u32]);
            assert(q.drop_last() =~= seq![1u32]);
            assert(seq![1u32].drop_last() =~= Seq::<u32>::empty());
        } else if a.len() == 1 {
            assert(q =~= seq![1u32]);
            assert(q.drop_last() =~= Seq::<u32>::empty());
        } else if b.len() == 1 {
            assert(q =~= seq![2u32]);
            assert(q.drop_last() =~= Seq::<u32>::empty());
        } else {
            assert(q =~= Seq::<u32>::empty());
        }
    }
    let q1 = !str_equal(v1.as_str(), "bot") && !str_equal(v1.as_str(), "") && str_equal(v1.as_str(), acc.as_str());
    let q2 = !str_equal(v2.as_str(), "bot") && !str_equal(v2.as_str(), "") && str_equal(v2.as_str(), acc.as_str());
    proof {
        assert(""@ =~= Seq::<char>::empty());
    }
    q1 || q2
}

/// Handles a proposal (see `propose_step`).
fn on_propose(
    s: ReactorState,
    value: &String,
    sender: &PeerAddress,
    msg_level: usize,
    timed_out: bool,
    args: &Vec<String>,
    Ghost(levels): Ghost<nat>,
    Ghost(lines): Ghost<Seq<Seq<char>>>,
) -> (r: Option<(ReactorState, Vec<NetworkMessage>, bool)>)
    requires
        s.wf(levels, lines),
        args_ok(strings_view(args@)),
        args@.len() >= 9,
    ensures
        propose_step(s@, value@, *sender, msg_level, timed_out, strings_view(args@), result_view(r)),
        r matches Some((s2, _, _)) ==> s2.wf(levels, lines),
{
    let mut s = s;
    let ghost s0 = s@;
    let t = report_of(value, sender);
    record_in(&mut s.propose_value, &mut s.storage_propose, s.level, msg_level, sender, t);
    let ghost recorded = s@;
    assert(recorded == ReactorView {
        propose_value: recorded.propose_value,
        storage_propose: recorded.storage_propose,
        ..s0
    });
    proof {
        lemma_level_members_fit(s.level as nat);
    }
    let members = level_members(s.level);
    let fire = (s.propose_value.len() >= members / 2 && msg_level == s.level) || timed_out;
    if !fire {
        return Some((s, Vec::new(), false));
    }
    let props = copy_strings(&s.propose_value);
    let ba = propose_decision(props, s.voted, s.ba_v.clone());
    s.ba_v = ba;
    s.propose_reached = true;
    s.echo_value = Vec::new();
    s.forward_value = Vec::new();
    s.vote1_value = Vec::new();
    s.vote2_value = Vec::new();
    let ghost base = s@;
    proof {
        assert(strings_view(s.echo_value@) =~= Seq::<Seq<char>>::empty());
        assert(strings_view(s.forward_value@) =~= Seq::<Seq<char>>::empty());
        assert(strings_view(s.vote1_value@) =~= Seq::<Seq<char>>::empty());
        assert(strings_view(s.vote2_value@) =~= Seq::<Seq<char>>::empty());
        assert(base == ReactorView {
            ba_v: proposal_choice(recorded.propose_value, s0.voted, s0.ba_v),
            propose_reached: true,
            echo_value: Seq::empty(),
            forward_value: Seq::empty(),
            vote1_value: Seq::empty(),
            vote2_value: Seq::empty(),
            ..recorded
        });
    }
    if msg_level == s.level && s.ip_address_left.len() > 0 {
        let c = s.ip_address_left.remove(0);
        proof {
            assert(committees_view(vec_views(s.ip_address_left@)) =~= base.left.drop_first());
            assert(strings_view(c@) == base.left[0]);
            assert(entries_ok(base.left[0]));
        }
        s.ip_address = c;
        let m = BA_setup(&s.ip_address, args, s.ba_v.clone(), s.level);
        let mut out: Vec<NetworkMessage> = Vec::new();
        out.push(m);
        proof {
            assert(committees_ok(committees_view(vec_views(s.ip_address_left@)))) by {
                assert forall|k: int| 0 <= k < committees_view(vec_views(s.ip_address_left@)).len() implies entries_ok(
                    #[trigger] committees_view(vec_views(s.ip_address_left@))[k],
                ) && committees_view(vec_views(s.ip_address_left@))[k].len() > 0 by {
                    assert(committees_view(vec_views(s.ip_address_left@))[k] == base.left[k + 1]);
                }
            }
        }
        return Some((s, out, false));
    }
    if msg_level == s.level && s.ip_address_right.len() > 0 {
        let c = s.ip_address_right.remove(0);
        proof {
            assert(committees_view(vec_views(s.ip_address_right@)) =~= base.right.drop_first());
            assert(strings_view(c@) == base.right[0]);
            assert(entries_ok(base.right[0]));
        }
        s.ip_address = c;
        let m = BA_setup(&s.ip_address, args, s.ba_v.clone(), s.level);
        let mut out: Vec<NetworkMessage> = Vec::new();
        out.push(m);
        proof {
            assert(committees_ok(committees_view(vec_views(s.ip_address_right@)))) by {
                assert forall|k: int| 0 <= k < committees_view(vec_views(s.ip_address_right@)).len() implies entries_ok(
                    #[trigger] committees_view(vec_views(s.ip_address_right@))[k],
                ) && committees_view(vec_views(s.ip_address_right@))[k].len() > 0 by {
                    assert(committees_view(vec_views(s.ip_address_right@))[k] == base.right[k + 1]);
                }
            }
        }
        return Some((s, out, false));
    }
    let own = has_own_part(&s.v1, &s.v2, &s.acc_value_zl);
    if own && !encoder_accepts_checked(s.pvss_data.len(), s.ip_address_backup.len()) {
        return None;
    }
    s.ip_address = copy_strings(&s.ip_address_backup);
    s.propose_value = Vec::new();
    proof {
        assert(strings_view(s.ip_address@).len() == s.ip_address@.len());
        assert(strings_view(s.ip_address_backup@).len() == s.ip_address_backup@.len());
        assert(strings_view(s.propose_value@) =~= Seq::<Seq<char>>::empty());
    }
    let mut out: Vec<NetworkMessage> = Vec::new();
    if own {
        let qual = qualify(&s.v1, &s.v2);
        let types = owned("codeword_propose");
        let batches = disseminate_qualified(
            &qual,
            &s.v1,
            &s.v2,
            &s.acc_value_zl,
            &s.pvss_data,
            &s.ip_address,
            args,
            s.level,
            &types,
        );
        let ghost bs = batches@.map_values(|b: Vec<NetworkMessage>| b@);
        out = flatten_batches(batches);
        proof {
            reveal_strlit("codeword_propose");
            assert forall|b: int| 0 <= b < bs.len() implies propose_batch_ok(
                #[trigger] bs[b],
                s0.pvss_data,
                own_parts(qualified(s0.v1, s0.v2), s0.v1, s0.v2, s0.acc_value_zl)[b],
                s0.backup,
                strings_view(args@),
                s0.level,
                s0.acc_value_zl,
                "codeword_propose"@,
            ) by {
                assert(bs[b] == batches@[b]@);
            }
        }
    } else {
        proof {
            let bs = Seq::<Seq<NetworkMessage>>::empty();
            assert(out@ =~= bs.flatten());
        }
    }
    Some((s, out, true))
}

/// The halves that the recursive split of a committee visits, in pre-order:
/// the left halves, then the right halves.
pub open spec fn split_halves(s: Seq<Seq<char>>) -> (Seq<Seq<Seq<char>>>, Seq<Seq<Seq<char>>>)
    decreases s.len(),
{
    if s.len() <= 2 {
        (Seq::empty(), Seq::empty())
    } else {
        let mid = s.len() / 2;
        let l = s.subrange(0, mid as int);
        let r = s.subrange(mid as int, s.len() as int);
        (seq![l] + split_halves(l).0 + split_halves(r).0, seq![r] + split_halves(l).1 + split_halves(r).1)
    }
}

/// The split of the strings is the split of their characters.
pub proof fn lemma_split_halves(s: Seq<String>)
    ensures
        committees_view(halves(s).0) == split_halves(strings_view(s)).0,
        committees_view(halves(s).1) == split_halves(strings_view(s)).1,
    decreases s.len(),
{
    if s.len() > 2 {
        let mid = s.len() / 2;
        let l = s.subrange(0, mid as int);
        let r = s.subrange(mid as int, s.len() as int);
        lemma_split_halves(l);
        lemma_split_halves(r);
        assert(strings_view(l) =~= strings_view(s).subrange(0, mid as int));
        assert(strings_view(r) =~= strings_view(s).subrange(mid as int, s.len() as int));
        assert(committees_view(seq![l] + halves(l).0 + halves(r).0) =~= seq![strings_view(l)] + committees_view(
            halves(l).0,
        ) + committees_view(halves(r).0));
        assert(committees_view(seq![r] + halves(l).1 + halves(r).1) =~= seq![strings_view(r)] + committees_view(
            halves(l).1,
        ) + committees_view(halves(r).1));
    } else {
        assert(committees_view(halves(s).0) =~= Seq::<Seq<Seq<char>>>::empty());
        assert(committees_view(halves(s).1) =~= Seq::<Seq<Seq<char>>>::empty());
    }
}

/// The node's own committee entry: `id-ip` from its arguments.
pub open spec fn own_entry(args: Seq<Seq<char>>) -> Seq<char> {
    args[2] + seq!['-'] + args[6]
}

/// An accumulation report received, recorded (see `record_report`). Once as
/// many reports as the level has members arrived, in a committee of at least
/// two (whose size must be a power of two), the committee is split into
/// halves; of all the halves the node keeps those it belongs to; the
/// committee is saved, the vote pairs cleared, and the values `V1` and `V2`
/// that a quorum of the left and of the right half's reports carry are set
/// (see `accum_result`); the reports are cleared. Above the first level, for
/// a report of the node's level, graded agreement on `V1-V2` starts with an
/// echo to the committee; otherwise the node disseminates its data as the
/// qualified shares whose value is its own accumulation value (which needs a
/// committee that the encoder handles). An adversary with such a share
/// cannot go on: it would rewrite the value as a pair `a-b`, and an
/// accumulation value (hexadecimal) holds no `-`.
pub open spec fn accum_step(
    s: ReactorView,
    value: Seq<char>,
    sender: PeerAddress,
    msg_level: usize,
    args: Seq<Seq<char>>,
    lines: Seq<Seq<char>>,
    r: Option<(ReactorView, Seq<NetworkMessage>, bool)>,
) -> bool {
    let (accs, store) = record_report(s.accum_value, s.storage_accum, s.level, msg_level, sender, sender_report(value, sender));
    let fire = accs.len() == pow2(s.level as nat) && s.ip_address.len() >= 2;
    if !fire {
        r == Some((ReactorView { accum_value: accs, storage_accum: store, ..s }, Seq::<NetworkMessage>::empty(), false))
    } else if !is_pow2(s.ip_address.len()) {
        r is None
    } else {
        let v1 = accum_result(left_reports(accs, lines, s.level as nat), s.ip_address.len());
        let v2 = accum_result(right_reports(accs, lines, s.level as nat), s.ip_address.len());
        let base = ReactorView {
            accum_value: Seq::empty(),
            storage_accum: store,
            left: with_member(s.left + split_halves(s.ip_address).0, own_entry(args)),
            right: with_member(s.right + split_halves(s.ip_address).1, own_entry(args)),
            backup: s.ip_address,
            c1: Seq::empty(),
            c2: Seq::empty(),
            v1: v1,
            v2: v2,
            ..s
        };
        if s.level != 1 && msg_level == s.level {
            match r {
                Some((s2, out, restart)) => restart && s2 == base && out.len() == 1 && echo_msg(
                    out[0],
                    s.ip_address,
                    args,
                    s.level,
                    v1 + seq!['-'] + v2,
                ),
                None => false,
            }
        } else {
            let parts = own_parts(qualified(v1, v2), v1, v2, s.acc_value_zl);
            if parts.len() > 0 && adversarial(args) {
                r is None
            } else if parts.len() > 0 && !encoder_accepts(s.pvss_data.len(), s.ip_address.len(), Seq::empty()) {
                r is None
            } else {
                match r {
                    Some((s2, out, restart)) => restart && s2 == base && disseminated(
                        out,
                        s.pvss_data,
                        parts,
                        s.ip_address,
                        args,
                        s.level,
                        s.acc_value_zl,
                        "codeword_accum"@,
                    ),
                    None => false,
                }
            }
        }
    }
}

/// Reports that can all be counted give halves' reports with the
/// `, `-separated fields.
pub proof fn lemma_reports_countable(vals: Seq<Seq<char>>, lines: Seq<Seq<char>>, level: nat)
    requires
        forall|k: int| 0 <= k < vals.len() ==> accum_text_ok(#[trigger] vals[k], lines, level),
    ensures
        accum_texts_ok(left_reports(vals, lines, level)),
        accum_texts_ok(right_reports(vals, lines, level)),
    decreases vals.len(),
{
    if vals.len() > 0 {
        let rest = vals.drop_last();
        assert forall|k: int| 0 <= k < rest.len() implies accum_text_ok(#[trigger] rest[k], lines, level) by {
            assert(rest[k] == vals[k]);
        }
        lemma_reports_countable(rest, lines, level);
        assert(accum_text_ok(vals[vals.len() - 1], lines, level));
        let l = left_reports(vals, lines, level);
        let r = right_reports(vals, lines, level);
        assert forall|i: int| 0 <= i < l.len() implies split(#[trigger] l[i], seq![',', ' ']).len() >= 2 by {
            if i < left_reports(rest, lines, level).len() {
                assert(l[i] == left_reports(rest, lines, level)[i]);
            }
        }
        assert forall|i: int| 0 <= i < r.len() implies split(#[trigger] r[i], seq![',', ' ']).len() >= 2 by {
            if i < right_reports(rest, lines, level).len() {
                assert(r[i] == right_reports(rest, lines, level)[i]);
            }
        }
    }
}

/// Setting a sender's report keeps every waiting report countable.
pub proof fn lemma_put_report_countable(
    r: Seq<((Seq<char>, u16), Seq<char>)>,
    k: (Seq<char>, u16),
    v: Seq<char>,
    lines: Seq<Seq<char>>,
    level: nat,
)
    requires
        forall|j: int| 0 <= j < r.len() ==> accum_text_ok((#[trigger] r[j]).1, lines, level),
        accum_text_ok(v, lines, level),
    ensures
        forall|j: int|
            0 <= j < put_report(r, k, v).len() ==> accum_text_ok((#[trigger] put_report(r, k, v)[j]).1, lines, level),
{
    let p = put_report(r, k, v);
    crate::buffer::lemma_put_report_elements(r, k, v);
    assert forall|j: int| 0 <= j < p.len() implies accum_text_ok((#[trigger] p[j]).1, lines, level) by {
        if p[j] != (k, v) {
            assert(p[j] == r[j]);
        }
    }
}

/// The text `id-ip` of the node's own entry.
fn own_entry_text(args: &Vec<String>) -> (r: String)
    requires
        args@.len() >= 7,
    ensures
        r@ == own_entry(strings_view(args@)),
{
    let mut t = chars_of(args[2].as_str());
    t.push('-');
    crate::text::extend_chars(&mut t, &chars_of(args[6].as_str()));
    let r = string_of(&t);
    assert(r@ =~= own_entry(strings_view(args@)));
    r
}

/// Handles an accumulation report (see `accum_step`).
#[verifier::rlimit(60)]
fn on_accum(
    s: ReactorState,
    value: &String,
    sender: &PeerAddress,
    msg_level: usize,
    args: &Vec<String>,
    node_lines: &Vec<String>,
    Ghost(levels): Ghost<nat>,
) -> (r: Option<(ReactorState, Vec<NetworkMessage>, bool)>)
    requires
        s.wf(levels, strings_view(node_lines@)),
        args_ok(strings_view(args@)),
        args@.len() >= 9,
        accum_text_ok(sender_report(value@, *sender), strings_view(node_lines@), msg_level as nat),
    ensures
        accum_step(s@, value@, *sender, msg_level, strings_view(args@), strings_view(node_lines@), result_view(r)),
        r matches Some((s2, _, _)) ==> s2.wf(levels, strings_view(node_lines@)),
{
    let ghost lines = strings_view(node_lines@);
    let mut s = s;
    let ghost s0 = s@;
    let ghost store0 = s.storage_accum;
    let t = report_of(value, sender);
    record_in(&mut s.accum_value, &mut s.storage_accum, s.level, msg_level, sender, t);
    let ghost recorded = s@;
    proof {
        let lv = s.level;
        // the recorded reports and the waiting ones can still be counted
        if msg_level == lv {
            let w = store0.waiting(lv);
            assert forall|k: int| 0 <= k < recorded.accum_value.len() implies accum_text_ok(
                #[trigger] recorded.accum_value[k],
                lines,
                lv as nat,
            ) by {
                let n0 = s0.accum_value.len();
                if k < n0 {
                    assert(recorded.accum_value[k] == s0.accum_value[k]);
                } else if k == n0 {
                    assert(recorded.accum_value[k] == t@);
                } else {
                    assert(recorded.accum_value[k] == report_texts(w)[k - n0 - 1]);
                    assert(accum_text_ok(w[k - n0 - 1].1, lines, lv as nat));
                }
            }
            assert forall|l: usize, k: int| 0 <= k < s.storage_accum.waiting(l).len() implies accum_text_ok(
                (#[trigger] s.storage_accum.waiting(l)[k]).1,
                lines,
                l as nat,
            ) by {
                assert(store_map(s.storage_accum)[l] == s.storage_accum.waiting(l));
                if l != lv {
                    assert(store_map(store0)[l] == store0.waiting(l));
                }
            }
        } else {
            assert(recorded.accum_value == s0.accum_value);
            lemma_put_report_countable(store0.waiting(msg_level), sender_key(*sender), t@, lines, msg_level as nat);
            assert forall|l: usize, k: int| 0 <= k < s.storage_accum.waiting(l).len() implies accum_text_ok(
                (#[trigger] s.storage_accum.waiting(l)[k]).1,
                lines,
                l as nat,
            ) by {
                assert(store_map(s.storage_accum)[l] == s.storage_accum.waiting(l));
                assert(store_map(store0)[l] == store0.waiting(l));
            }
        }
        lemma_level_members_fit(s.level as nat);
    }
    assert(recorded == ReactorView {
        accum_value: recorded.accum_value,
        storage_accum: recorded.storage_accum,
        ..s0
    });
    let members = level_members(s.level);
    if !(s.accum_value.len() == members && s.ip_address.len() >= 2) {
        return Some((s, Vec::new(), false));
    }
    if !pow2_checked(s.ip_address.len()) {
        return None;
    }
    let ghost ip_strings = s.ip_address@;
    split_vec_recursively(&s.ip_address, &mut s.ip_address_left, &mut s.ip_address_right);
    proof {
        lemma_split_halves(ip_strings);
        lemma_halves_ok(ip_strings);
        let lv0 = committees_view(vec_views(s.ip_address_left@));
        assert(lv0 =~= s0.left + committees_view(halves(ip_strings).0));
        let rv0 = committees_view(vec_views(s.ip_address_right@));
        assert(rv0 =~= s0.right + committees_view(halves(ip_strings).1));
        assert(committees_ok(lv0)) by {
            assert forall|k: int| 0 <= k < lv0.len() implies entries_ok(#[trigger] lv0[k]) && lv0[k].len() > 0 by {
                if k >= s0.left.len() {
                    assert(lv0[k] == committees_view(halves(ip_strings).0)[k - s0.left.len()]);
                }
            }
        }
        assert(committees_ok(rv0)) by {
            assert forall|k: int| 0 <= k < rv0.len() implies entries_ok(#[trigger] rv0[k]) && rv0[k].len() > 0 by {
                if k >= s0.right.len() {
                    assert(rv0[k] == committees_view(halves(ip_strings).1)[k - s0.right.len()]);
                }
            }
        }
        lemma_with_member_ok(lv0, own_entry(strings_view(args@)));
        lemma_with_member_ok(rv0, own_entry(strings_view(args@)));
    }
    let own = own_entry_text(args);
    let left = s.ip_address_left;
    s.ip_address_left = retain_member(left, &own);
    let right = s.ip_address_right;
    s.ip_address_right = retain_member(right, &own);
    s.ip_address_backup = copy_strings(&s.ip_address);
    s.c1 = Vec::new();
    s.c2 = Vec::new();
    let accs = s.accum_value;
    s.accum_value = Vec::new();
    proof {
        lemma_reports_countable(strings_view(accs@), lines, s.level as nat);
        assert forall|i: int| 0 <= i < accs@.len() implies report_ok(#[trigger] accs@[i]@, lines, s.level as nat) by {
            assert(strings_view(accs@)[i] == accs@[i]@);
        }
        assert(strings_view(s.accum_value@) =~= Seq::<Seq<char>>::empty());
        assert(pairs_view(s.c1@) =~= Seq::<(Seq<char>, Seq<char>)>::empty());
        assert(pairs_view(s.c2@) =~= Seq::<(Seq<char>, Seq<char>)>::empty());
        assert(strings_view(s.ip_address@).len() == s.ip_address@.len());
    }
    let (v1, v2) = accum_helper(accs, node_lines, s.level, s.ip_address.len());
    s.v1 = v1;
    s.v2 = v2;
    if s.level != 1 && msg_level == s.level {
        let m = BA_setup(&s.ip_address, args, pair_text(&s.v1, &s.v2), s.level);
        let mut out: Vec<NetworkMessage> = Vec::new();
        out.push(m);
        return Some((s, out, true));
    }
    let own_share = has_own_part(&s.v1, &s.v2, &s.acc_value_zl);
    let adversary = str_equal(args[8].as_str(), "1");
    assert(adversary == adversarial(strings_view(args@)));
    if own_share && adversary {
        return None;
    }
    if own_share && !encoder_accepts_checked(s.pvss_data.len(), s.ip_address.len()) {
        return None;
    }
    let mut out: Vec<NetworkMessage> = Vec::new();
    if own_share {
        let qual = qualify(&s.v1, &s.v2);
        let types = owned("codeword_accum");
        let batches = disseminate_qualified(
            &qual,
            &s.v1,
            &s.v2,
            &s.acc_value_zl,
            &s.pvss_data,
            &s.ip_address,
            args,
            s.level,
            &types,
        );
        let ghost bs = batches@.map_values(|b: Vec<NetworkMessage>| b@);
        out = flatten_batches(batches);
        proof {
            reveal_strlit("codeword_accum");
            assert forall|b: int| 0 <= b < bs.len() implies propose_batch_ok(
                #[trigger] bs[b],
                s0.pvss_data,
                own_parts(qualified(s.v1@, s.v2@), s.v1@, s.v2@, s0.acc_value_zl)[b],
                s0.ip_address,
                strings_view(args@),
                s0.level,
                s0.acc_value_zl,
                "codeword_accum"@,
            ) by {
                assert(bs[b] == batches@[b]@);
            }
        }
    } else {
        proof {
            let bs = Seq::<Seq<NetworkMessage>>::empty();
            assert(out@ =~= bs.flatten());
        }
    }
    Some((s, out, true))
}

/// The committee of a level as plain values: the level's entry of the
/// committee table split at spaces.
pub open spec fn level_committee(sorted: Seq<(u32, String)>, level: int) -> Seq<Seq<char>> {
    split(sorted[level].1@, seq![' '])
}

/// The accumulation message that opens a level: the node's accumulation
/// value, signed `sign`, to the committee.
pub open spec fn accum_msg(m: NetworkMessage, entries: Seq<Seq<char>>, args: Seq<Seq<char>>, level: usize, v: Seq<char>) -> bool {
    &&& sent_to_committee(m, entries, args, level)
    &&& m.message matches ConsensusMessage::AccumMessage(a) && a.sign@ == "sign"@ && a.value@ == v && a.types@
        == "accum"@
}

/// No report waits at any level.
pub open spec fn empty_store() -> Map<usize, Seq<((Seq<char>, u16), Seq<char>)>> {
    Map::new(|l: usize| true, |l: usize| Seq::<((Seq<char>, u16), Seq<char>)>::empty())
}

/// Entering a level: its committee must hold well-formed entries, in a size
/// that the encoder handles for the data; the node computes its
/// accumulation value for the committee and sends it to the committee.
pub open spec fn enter_level(
    s: ReactorView,
    sorted: Seq<(u32, String)>,
    level: usize,
    args: Seq<Seq<char>>,
    r: Option<(ReactorView, Seq<NetworkMessage>)>,
) -> bool {
    let c = level_committee(sorted, level as int);
    if !(entries_ok(c) && encoder_accepts(s.pvss_data.len(), c.len(), Seq::empty())) {
        r is None
    } else {
        let acc = accumulation_value(s.pvss_data, c.len(), Seq::empty());
        match r {
            Some((s2, out)) => s2 == ReactorView { level: level, ip_address: c, acc_value_zl: acc, ..s } && out.len()
                == 1 && accum_msg(out[0], c, args, level, acc),
            None => false,
        }
    }
}

/// The state in which a node starts, before its first level is entered.
pub open spec fn initial_view(pvss_data: Seq<u8>) -> ReactorView {
    ReactorView {
        level: 0,
        ip_address: Seq::empty(),
        accum_value: Seq::empty(),
        echo_value: Seq::empty(),
        forward_value: Seq::empty(),
        vote1_value: Seq::empty(),
        vote2_value: Seq::empty(),
        propose_value: Seq::empty(),
        storage_accum: empty_store(),
        storage_propose: empty_store(),
        c1: Seq::empty(),
        c2: Seq::empty(),
        v1: Seq::empty(),
        v2: Seq::empty(),
        ba_v: "bot"@,
        voted: false,
        forward_check: false,
        propose_reached: false,
        left: Seq::empty(),
        right: Seq::empty(),
        backup: Seq::empty(),
        acc_value_zl: Seq::empty(),
        pvss_data: pvss_data,
        codeword_list: Seq::empty(),
        committee_list: Seq::empty(),
        retrieved_codewords: Seq::empty(),
        retrieved_committee: Seq::empty(),
        retrieval_flag: false,
        recursion_finish: false,
    }
}

/// Moves the node to `level` (see `enter_level`).
fn enter(
    s: ReactorState,
    sorted: &Vec<(u32, String)>,
    level: usize,
    args: &Vec<String>,
    Ghost(lines): Ghost<Seq<Seq<char>>>,
) -> (r: Option<(ReactorState, Vec<NetworkMessage>)>)
    requires
        level < sorted@.len() <= 32,
        args_ok(strings_view(args@)),
        s.wf(sorted@.len() as nat, lines),
        s@.accum_value.len() == 0,
    ensures
        enter_level(s@, sorted@, level, strings_view(args@), match r {
            Some((s2, out)) => Some((s2@, out@)),
            None => None,
        }),
        r matches Some((s2, _)) ==> s2.wf(sorted@.len() as nat, lines),
{
    let mut s = s;
    let ghost s0 = s@;
    let c = crate::committees::committee_members(&sorted[level].1);
    proof {
        assert(strings_view(c@).len() == c@.len());
    }
    if !entries_checked(&c) || !encoder_accepts_checked(s.pvss_data.len(), c.len()) {
        return None;
    }
    let medium = owned("");
    proof {
        reveal_strlit("");
        assert(medium@ =~= Seq::<char>::empty());
    }
    let (acc, _state) = reactor_init(copy_bytes(&s.pvss_data), &c, level, medium);
    s.level = level;
    s.ip_address = c;
    s.acc_value_zl = acc;
    let m = accum_init(s.acc_value_zl.clone(), &s.ip_address, args, s.level);
    let mut out: Vec<NetworkMessage> = Vec::new();
    out.push(m);
    proof {
        reveal_strlit("sign");
        reveal_strlit("accum");
    }
    Some((s, out))
}

/// A copy of some bytes.
fn copy_bytes(b: &Vec<u8>) -> (r: Vec<u8>)
    ensures
        r@ == b@,
{
    let mut r: Vec<u8> = Vec::new();
    let mut i: usize = 0;
    while i < b.len()
        invariant
            i <= b@.len(),
            r@ == b@.subrange(0, i as int),
        decreases b.len() - i,
    {
        r.push(b[i]);
        i = i + 1;
    }
    assert(b@.subrange(0, i as int) =~= b@);
    r
}

/// Starts a node with its PVSS data: it enters the first level (see
/// `enter_level`) from the initial state.
pub fn reactor_start(
    pvss_data: Vec<u8>,
    sorted: &Vec<(u32, String)>,
    args: &Vec<String>,
    node_lines: &Vec<String>,
) -> (r: Option<(ReactorState, Vec<NetworkMessage>)>)
    requires
        1 <= sorted@.len() <= 32,
        args_ok(strings_view(args@)),
    ensures
        enter_level(initial_view(pvss_data@), sorted@, 0, strings_view(args@), match r {
            Some((s2, out)) => Some((s2@, out@)),
            None => None,
        }),
        r matches Some((s2, _)) ==> s2.wf(sorted@.len() as nat, strings_view(node_lines@)),
{
    let s = ReactorState {
        level: 0,
        ip_address: Vec::new(),
        accum_value: Vec::new(),
        echo_value: Vec::new(),
        forward_value: Vec::new(),
        vote1_value: Vec::new(),
        vote2_value: Vec::new(),
        propose_value: Vec::new(),
        storage_accum: LevelStore::new(),
        storage_propose: LevelStore::new(),
        c1: Vec::new(),
        c2: Vec::new(),
        v1: String::new(),
        v2: String::new(),
        ba_v: owned("bot"),
        voted: false,
        forward_check: false,
        propose_reached: false,
        ip_address_left: Vec::new(),
        ip_address_right: Vec::new(),
        ip_address_backup: Vec::new(),
        acc_value_zl: String::new(),
        pvss_data: pvss_data,
        check_first_codeword_list: Vec::new(),
        check_first_committee_list: Vec::new(),
        retrieval: RetrievalState {
            codeword_table: Vec::new(),
            committee_table: Vec::new(),
            flag: false,
            recursion_finish: false,
        },
    };
    proof {
        assert(store_map(s.storage_accum) =~= empty_store());
        assert(store_map(s.storage_propose) =~= empty_store());
        assert(strings_view(s.ip_address@) =~= Seq::<Seq<char>>::empty());
        assert(strings_view(s.accum_value@) =~= Seq::<Seq<char>>::empty());
        assert(strings_view(s.echo_value@) =~= Seq::<Seq<char>>::empty());
        assert(strings_view(s.forward_value@) =~= Seq::<Seq<char>>::empty());
        assert(strings_view(s.vote1_value@) =~= Seq::<Seq<char>>::empty());
        assert(strings_view(s.vote2_value@) =~= Seq::<Seq<char>>::empty());
        assert(strings_view(s.propose_value@) =~= Seq::<Seq<char>>::empty());
        assert(strings_view(s.ip_address_backup@) =~= Seq::<Seq<char>>::empty());
        assert(pairs_view(s.c1@) =~= Seq::<(Seq<char>, Seq<char>)>::empty());
        assert(pairs_view(s.c2@) =~= Seq::<(Seq<char>, Seq<char>)>::empty());
        assert(committees_view(vec_views(s.ip_address_left@)) =~= Seq::<Seq<Seq<char>>>::empty());
        assert(committees_view(vec_views(s.ip_address_right@)) =~= Seq::<Seq<Seq<char>>>::empty());
        assert(strings_view(s.check_first_codeword_list@) =~= Seq::<Seq<char>>::empty());
        assert(strings_view(s.check_first_committee_list@) =~= Seq::<Seq<char>>::empty());
        assert(table_view(s.retrieval.codeword_table@) =~= Seq::<(usize, Seq<EntryView>)>::empty());
        assert(table_view(s.retrieval.committee_table@) =~= Seq::<(usize, Seq<EntryView>)>::empty());
        assert(s@ == initial_view(pvss_data@));
    }
    let r = enter(s, sorted, 0, args, Ghost(strings_view(node_lines@)));
    r
}

/// The end of a level's work, once the shares of the level were rebuilt:
/// the reports of all phases are cleared and the proposal phase unmarked;
/// where there is a next level, the node enters it (see `enter_level`).
pub open spec fn level_done(
    s: ReactorView,
    sorted: Seq<(u32, String)>,
    args: Seq<Seq<char>>,
    r: Option<(ReactorView, Seq<NetworkMessage>)>,
) -> bool {
    let cleared = ReactorView {
        accum_value: Seq::empty(),
        echo_value: Seq::empty(),
        forward_value: Seq::empty(),
        vote1_value: Seq::empty(),
        vote2_value: Seq::empty(),
        propose_value: Seq::empty(),
        propose_reached: false,
        ..s
    };
    if s.level + 1 < sorted.len() {
        enter_level(cleared, sorted, (s.level + 1) as usize, args, r)
    } else {
        r == Some((cleared, Seq::<NetworkMessage>::empty()))
    }
}

/// Finishes the node's level (see `level_done`).
pub fn advance_level(
    s: ReactorState,
    sorted: &Vec<(u32, String)>,
    args: &Vec<String>,
    node_lines: &Vec<String>,
) -> (r: Option<(ReactorState, Vec<NetworkMessage>)>)
    requires
        s.wf(sorted@.len() as nat, strings_view(node_lines@)),
        args_ok(strings_view(args@)),
    ensures
        level_done(s@, sorted@, strings_view(args@), match r {
            Some((s2, out)) => Some((s2@, out@)),
            None => None,
        }),
        r matches Some((s2, _)) ==> s2.wf(sorted@.len() as nat, strings_view(node_lines@)),
{
    let mut s = s;
    s.accum_value = Vec::new();
    s.echo_value = Vec::new();
    s.forward_value = Vec::new();
    s.vote1_value = Vec::new();
    s.vote2_value = Vec::new();
    s.propose_value = Vec::new();
    s.propose_reached = false;
    proof {
        assert(strings_view(s.accum_value@) =~= Seq::<Seq<char>>::empty());
        assert(strings_view(s.echo_value@) =~= Seq::<Seq<char>>::empty());
        assert(strings_view(s.forward_value@) =~= Seq::<Seq<char>>::empty());
        assert(strings_view(s.vote1_value@) =~= Seq::<Seq<char>>::empty());
        assert(strings_view(s.vote2_value@) =~= Seq::<Seq<char>>::empty());
        assert(strings_view(s.propose_value@) =~= Seq::<Seq<char>>::empty());
    }
    if s.level + 1 < sorted.len() {
        let next = s.level + 1;
        enter(s, sorted, next, args, Ghost(strings_view(node_lines@)))
    } else {
        Some((s, Vec::new()))
    }
}

/// What a received message asks of the node before it is handled: an
/// accumulation report must be one that the node can count at its level;
/// a codeword or committee message of the node's level must read as the
/// data itself in a committee of two, and elsewhere, unless its value was
/// already taken, must carry parts that its check reads (see
/// `codeword_parts_ok`).
pub open spec fn event_ok(s: ReactorView, e: NetworkMessage, lines: Seq<Seq<char>>) -> bool {
    match e.message {
        ConsensusMessage::AccumMessage(a) => accum_text_ok(sender_report(a.value@, e.sender), lines, e.level as nat),
        ConsensusMessage::CodewordMessage(c) => e.level == s.level ==> codeword_input_ok(
            s,
            "codewords"@,
            c.codewords@,
            c.witness@,
            c.value@,
            c.index@,
        ),
        ConsensusMessage::CommitteeMessage(c) => e.level == s.level ==> codeword_input_ok(
            s,
            "committee"@,
            c.codewords@,
            c.witness@,
            c.value@,
            c.index@,
        ),
        _ => true,
    }
}

/// A codeword that the node can read (see `event_ok`).
pub open spec fn codeword_input_ok(
    s: ReactorView,
    kind: Seq<char>,
    codewords: Seq<char>,
    witness: Seq<u8>,
    value: Seq<char>,
    index: Seq<char>,
) -> bool {
    &&& s.ip_address.len() == 2 ==> pair_bytes_ok(codewords)
    &&& s.ip_address.len() != 2 && !already_seen(kind, s.codeword_list, s.committee_list, value)
        ==> codeword_parts_ok(witness, value, index)
}

/// A codeword (`kind` `codewords`) or committee (`committee`) message: for
/// the node's level, where the committee has more than two members, the
/// value was not taken yet and the codeword checks out against it, the
/// node answers with a retrieve message to the committee; the state stays.
pub open spec fn codeword_step(
    s: ReactorView,
    kind: Seq<char>,
    codewords: Seq<char>,
    witness: Seq<u8>,
    value: Seq<char>,
    index: Seq<char>,
    leaves_len: usize,
    part: usize,
    msg_level: usize,
    args: Seq<Seq<char>>,
    r: Option<(ReactorView, Seq<NetworkMessage>, bool)>,
) -> bool {
    match r {
        Some((s2, out, restart)) => s2 == s && !restart && if msg_level == s.level && s.ip_address.len() != 2
            && !already_seen(kind, s.codeword_list, s.committee_list, value) && codeword_verdict(
            unescape(codewords),
            witness,
            value,
            index,
            leaves_len,
        ) {
            out.len() == 1 && retrieve_message_ok(out[0], s.ip_address, args, s.level, unescape(codewords), part, kind)
        } else {
            out.len() == 0
        },
        None => false,
    }
}

/// The retrieval tables, flag and finish mark after a retrieve message (as
/// `retrieve_step` updates them), with whether the codeword and the
/// committee phase closed.
pub open spec fn retrieval_next(
    s: ReactorView,
    part: usize,
    e: EntryView,
    kind: Seq<char>,
    msg_level: usize,
    committee_size: nat,
    levels: nat,
) -> (Seq<(usize, Seq<EntryView>)>, Seq<(usize, Seq<EntryView>)>, bool, bool, bool, bool) {
    let cw1 = if kind == "codewords"@ { after_message(s.retrieved_codewords, part, e, msg_level, s.level) } else { s.retrieved_codewords };
    let cm1 = if kind == "codewords"@ { s.retrieved_committee } else { after_message(s.retrieved_committee, part, e, msg_level, s.level) };
    let close_cw = !s.retrieval_flag && !s.recursion_finish && table_count(cw1) == 2 * committee_size;
    let flag1 = s.retrieval_flag || close_cw;
    let close_cm = flag1 && !s.recursion_finish && table_count(cm1) == 2 * committee_size;
    (
        if close_cw { Seq::empty() } else { cw1 },
        if close_cm { Seq::empty() } else { cm1 },
        flag1 && !close_cm,
        s.recursion_finish || (close_cm && levels == s.level + 1),
        close_cw,
        close_cm,
    )
}

/// A retrieve message: the node returns to its level's committee and
/// records the forwarded codeword (see `retrieval_next`); where the codeword
/// phase closes, the codewords taken are forgotten; where the committee
/// phase closes, the committee codewords taken are forgotten and the level
/// is done (see `level_done`). `None` where the level's committee holds an
/// entry that is not well formed, is too large, or the tables are full.
pub open spec fn retrieve_spec(
    s: ReactorView,
    part: usize,
    codewords: Seq<char>,
    kind: Seq<char>,
    sender: PeerAddress,
    msg_level: usize,
    sorted: Seq<(u32, String)>,
    args: Seq<Seq<char>>,
    r: Option<(ReactorView, Seq<NetworkMessage>, bool)>,
) -> bool {
    let c = level_committee(sorted, s.level as int);
    if !(entries_ok(c) && c.len() <= usize::MAX / 2 && table_count(s.retrieved_codewords) + 1 < usize::MAX
        && table_count(s.retrieved_committee) + 1 < usize::MAX) {
        r is None
    } else {
        let (cw, cm, flag, finish, close_cw, close_cm) = retrieval_next(
            s,
            part,
            (sender.host@, sender.port, codewords),
            kind,
            msg_level,
            c.len(),
            sorted.len(),
        );
        let s1 = ReactorView {
            ip_address: c,
            retrieved_codewords: cw,
            retrieved_committee: cm,
            retrieval_flag: flag,
            recursion_finish: finish,
            codeword_list: if close_cw { Seq::empty() } else { s.codeword_list },
            committee_list: if close_cm { Seq::empty() } else { s.committee_list },
            ..s
        };
        if !close_cm {
            r == Some((s1, Seq::<NetworkMessage>::empty(), false))
        } else {
            match r {
                Some((s2, out, restart)) => !restart && level_done(s1, sorted, args, Some((s2, out))),
                None => level_done(s1, sorted, args, None),
            }
        }
    }
}

/// One step of the node on a received message (see `accum_step`,
/// `echo_step`, `forward_step`, `vote_step`, `propose_step`, `codeword_step`
/// and `retrieve_spec`). `None` where the message cannot be handled.
pub open spec fn reactor_spec_step(
    s: ReactorView,
    e: NetworkMessage,
    timed_out: bool,
    sorted: Seq<(u32, String)>,
    args: Seq<Seq<char>>,
    lines: Seq<Seq<char>>,
    r: Option<(ReactorView, Seq<NetworkMessage>, bool)>,
) -> bool {
    match e.message {
        ConsensusMessage::AccumMessage(a) => accum_step(s, a.value@, e.sender, e.level, args, lines, r),
        ConsensusMessage::EchoMessage(x) => echo_step(s, x.value@, e.sender, e.level, timed_out, args, r),
        ConsensusMessage::ForwardMessage(x) => forward_step(s, x.value@, e.sender, e.level, timed_out, args, r),
        ConsensusMessage::VoteMessage(x) => vote_step(s, x.value@, x.no, e.sender, timed_out, args, r),
        ConsensusMessage::ProposeMessage(x) => propose_step(s, x.value@, e.sender, e.level, timed_out, args, r),
        ConsensusMessage::CodewordMessage(c) => codeword_step(
            s,
            "codewords"@,
            c.codewords@,
            c.witness@,
            c.value@,
            c.index@,
            c.leaves_len,
            c.part,
            e.level,
            args,
            r,
        ),
        ConsensusMessage::CommitteeMessage(c) => codeword_step(
            s,
            "committee"@,
            c.codewords@,
            c.witness@,
            c.value@,
            c.index@,
            c.leaves_len,
            c.part,
            e.level,
            args,
            r,
        ),
        ConsensusMessage::CodewordRetrieveMessage(x) => retrieve_spec(
            s,
            x.part,
            x.codewords@,
            x.communication_type@,
            e.sender,
            e.level,
            sorted,
            args,
            r,
        ),
    }
}

/// Takes the node from one state to the next on a received message, with
/// the messages to send and whether the phase timer restarts (see
/// `reactor_spec_step`).
pub fn reactor_step(
    state: ReactorState,
    event: &NetworkMessage,
    timed_out: bool,
    sorted: &Vec<(u32, String)>,
    node_lines: &Vec<String>,
    args: &Vec<String>,
) -> (r: Option<(ReactorState, Vec<NetworkMessage>, bool)>)
    requires
        state.wf(sorted@.len() as nat, strings_view(node_lines@)),
        args_ok(strings_view(args@)),
        args@.len() >= 9,
        event_ok(state@, *event, strings_view(node_lines@)),
    ensures
        reactor_spec_step(state@, *event, timed_out, sorted@, strings_view(args@), strings_view(node_lines@), result_view(r)),
        r matches Some((s2, _, _)) ==> s2.wf(sorted@.len() as nat, strings_view(node_lines@)),
{
    let ghost levels = sorted@.len() as nat;
    let ghost lines = strings_view(node_lines@);
    match &event.message {
        ConsensusMessage::AccumMessage(a) => on_accum(state, &a.value, &event.sender, event.level, args, node_lines, Ghost(levels)),
        ConsensusMessage::EchoMessage(x) => on_echo(state, &x.value, &event.sender, event.level, timed_out, args, Ghost(levels), Ghost(lines)),
        ConsensusMessage::ForwardMessage(x) => on_forward(state, &x.value, &event.sender, event.level, timed_out, args, Ghost(levels), Ghost(lines)),
        ConsensusMessage::VoteMessage(x) => on_vote(state, &x.value, x.no, &event.sender, timed_out, args, Ghost(levels), Ghost(lines)),
        ConsensusMessage::ProposeMessage(x) => on_propose(state, &x.value, &event.sender, event.level, timed_out, args, Ghost(levels), Ghost(lines)),
        ConsensusMessage::CodewordMessage(c) => {
            let kind = owned("codewords");
            proof {
                reveal_strlit("codewords");
            }
            on_codeword(state, kind, &c.codewords, &c.witness, &c.value, &c.index, c.leaves_len, c.part, event.level, args, Ghost(levels), Ghost(lines))
        },
        ConsensusMessage::CommitteeMessage(c) => {
            let kind = owned("committee");
            proof {
                reveal_strlit("committee");
            }
            on_codeword(state, kind, &c.codewords, &c.witness, &c.value, &c.index, c.leaves_len, c.part, event.level, args, Ghost(levels), Ghost(lines))
        },
        ConsensusMessage::CodewordRetrieveMessage(x) => on_retrieve(state, x, &event.sender, event.level, sorted, args, node_lines),
    }
}

/// Handles a codeword or committee message (see `codeword_step`).
fn on_codeword(
    s: ReactorState,
    kind: String,
    codewords: &String,
    witness: &Vec<u8>,
    value: &String,
    index: &String,
    leaves_len: usize,
    part: usize,
    msg_level: usize,
    args: &Vec<String>,
    Ghost(levels): Ghost<nat>,
    Ghost(lines): Ghost<Seq<Seq<char>>>,
) -> (r: Option<(ReactorState, Vec<NetworkMessage>, bool)>)
    requires
        s.wf(levels, lines),
        args_ok(strings_view(args@)),
        msg_level == s.level ==> codeword_input_ok(s@, kind@, codewords@, witness@, value@, index@),
    ensures
        codeword_step(s@, kind@, codewords@, witness@, value@, index@, leaves_len, part, msg_level, strings_view(args@), result_view(r)),
        r matches Some((s2, _, _)) ==> s2.wf(levels, lines),
{
    let mut s = s;
    if msg_level != s.level {
        return Some((s, Vec::new(), false));
    }
    let ghost s0 = s@;
    let cw_list = s.check_first_codeword_list;
    let cm_list = s.check_first_committee_list;
    let (_data, l1, l2, answer) = codeword_helper(
        kind,
        &s.ip_address,
        codewords.clone(),
        copy_bytes(witness),
        value.clone(),
        index.clone(),
        leaves_len,
        part,
        args,
        cw_list,
        cm_list,
        s.level,
    );
    s.check_first_codeword_list = l1;
    s.check_first_committee_list = l2;
    assert(s@ == s0);
    let mut out: Vec<NetworkMessage> = Vec::new();
    match answer {
        Some(m) => {
            out.push(m);
        },
        None => {},
    }
    Some((s, out, false))
}

/// Handles a retrieve message (see `retrieve_spec`).
fn on_retrieve(
    s: ReactorState,
    x: &crate::message::CodewordRetrieve,
    sender: &PeerAddress,
    msg_level: usize,
    sorted: &Vec<(u32, String)>,
    args: &Vec<String>,
    node_lines: &Vec<String>,
) -> (r: Option<(ReactorState, Vec<NetworkMessage>, bool)>)
    requires
        s.wf(sorted@.len() as nat, strings_view(node_lines@)),
        args_ok(strings_view(args@)),
    ensures
        retrieve_spec(s@, x.part, x.codewords@, x.communication_type@, *sender, msg_level, sorted@, strings_view(args@), result_view(r)),
        r matches Some((s2, _, _)) ==> s2.wf(sorted@.len() as nat, strings_view(node_lines@)),
{
    let mut s = s;
    let ghost s0 = s@;
    let c = crate::committees::committee_members(&sorted[s.level].1);
    proof {
        assert(strings_view(c@).len() == c@.len());
    }
    if !entries_checked(&c) || c.len() > usize::MAX / 2 || !retrieval_fits(&s.retrieval) {
        return None;
    }
    let committee_size = c.len();
    s.ip_address = c;
    let retrieval = s.retrieval;
    let (next, done_codewords, done_committee) = retrieve_step(
        retrieval,
        x.part,
        copy_address(sender),
        x.codewords.clone(),
        &x.communication_type,
        msg_level,
        s.level,
        committee_size,
        sorted.len(),
    );
    s.retrieval = next;
    let close_cw = done_codewords.is_some();
    let close_cm = done_committee.is_some();
    if close_cw {
        s.check_first_codeword_list = Vec::new();
    }
    if close_cm {
        s.check_first_committee_list = Vec::new();
    }
    proof {
        assert(strings_view(Seq::<String>::empty()) =~= Seq::<Seq<char>>::empty());
        reveal_strlit("codewords");
    }
    let ghost s1 = s@;
    assert(s1.codeword_list == (if close_cw { Seq::<Seq<char>>::empty() } else { s0.codeword_list }));
    assert(s1.committee_list == (if close_cm { Seq::<Seq<char>>::empty() } else { s0.committee_list }));
    proof {
        assert(entries_ok(s@.ip_address));
        assert(s@.accum_value == s0.accum_value);
        assert(s@.vote1_value == s0.vote1_value);
        assert(s@.vote2_value == s0.vote2_value);
        assert(s@.left == s0.left && s@.right == s0.right && s@.backup == s0.backup);
        assert(s.wf(sorted@.len() as nat, strings_view(node_lines@)));
    }
    if !close_cm {
        return Some((s, Vec::new(), false));
    }
    match advance_level(s, sorted, args, node_lines) {
        Some((s2, out)) => Some((s2, out, false)),
        None => None,
    }
}

/// Keeping the committees that hold an entry keeps exactly those: every
/// committee kept holds it, and every committee that holds it is kept.
proof fn lemma_with_member_exact(cs: Seq<Seq<Seq<char>>>, own: Seq<char>)
    ensures
        forall|k: int| 0 <= k < with_member(cs, own).len() ==> (#[trigger] with_member(cs, own)[k]).contains(own),
        forall|j: int| 0 <= j < cs.len() && (#[trigger] cs[j]).contains(own) ==> with_member(cs, own).contains(cs[j]),
    decreases cs.len(),
{
    if cs.len() > 0 {
        let rest = cs.drop_last();
        lemma_with_member_exact(rest, own);
        let w = with_member(cs, own);
        let wr = with_member(rest, own);
        assert forall|j: int| 0 <= j < cs.len() && (#[trigger] cs[j]).contains(own) implies w.contains(cs[j]) by {
            if j < rest.len() {
                assert(rest[j] == cs[j]);
                let i = choose|i: int| 0 <= i < wr.len() && wr[i] == cs[j];
                if cs.last().contains(own) {
                    assert(w[i] == wr[i]);
                } else {
                    assert(w[i] == wr[i]);
                }
            } else {
                assert(w[w.len() - 1] == cs[j]);
            }
        }
        assert forall|k: int| 0 <= k < w.len() implies (#[trigger] w[k]).contains(own) by {
            if k < wr.len() {
                assert(w[k] == wr[k]);
            }
        }
    }
}

/// After an accumulation report, either the node's lists of half
/// committees are as they were (the phase did not close), or every half
/// committee in them holds the node's own entry `id-ip` (`args[2]`, `-`,
/// `args[6]`), and every half of the split committee that holds that entry
/// is among them.
pub proof fn law_accum_keeps_own_halves(
    s: ReactorView,
    value: Seq<char>,
    sender: PeerAddress,
    msg_level: usize,
    args: Seq<Seq<char>>,
    lines: Seq<Seq<char>>,
    r: Option<(ReactorView, Seq<NetworkMessage>, bool)>,
)
    requires
        accum_step(s, value, sender, msg_level, args, lines, r),
        r is Some,
    ensures
        ({
            let s2 = r.unwrap().0;
            let own = args[2] + seq!['-'] + args[6];
            ||| s2.left == s.left && s2.right == s.right
            ||| {
                &&& forall|k: int| 0 <= k < s2.left.len() ==> (#[trigger] s2.left[k]).contains(own)
                &&& forall|k: int| 0 <= k < s2.right.len() ==> (#[trigger] s2.right[k]).contains(own)
                &&& forall|h: Seq<Seq<char>>|
                    split_halves(s.ip_address).0.contains(h) && h.contains(own) ==> #[trigger] s2.left.contains(h)
                &&& forall|h: Seq<Seq<char>>|
                    split_halves(s.ip_address).1.contains(h) && h.contains(own) ==> #[trigger] s2.right.contains(h)
            }
        }),
{
    let own = args[2] + seq!['-'] + args[6];
    assert(own == own_entry(args));
    let l = s.left + split_halves(s.ip_address).0;
    let rt = s.right + split_halves(s.ip_address).1;
    lemma_with_member_exact(l, own);
    lemma_with_member_exact(rt, own);
    assert forall|h: Seq<Seq<char>>| split_halves(s.ip_address).0.contains(h) && h.contains(own) implies #[trigger] with_member(
        l,
        own,
    ).contains(h) by {
        let i = choose|i: int| 0 <= i < split_halves(s.ip_address).0.len() && split_halves(s.ip_address).0[i] == h;
        assert(l[s.left.len() + i] == h);
    }
    assert forall|h: Seq<Seq<char>>| split_halves(s.ip_address).1.contains(h) && h.contains(own) implies #[trigger] with_member(
        rt,
        own,
    ).contains(h) by {
        let i = choose|i: int| 0 <= i < split_halves(s.ip_address).1.len() && split_halves(s.ip_address).1[i] == h;
        assert(rt[s.right.len() + i] == h);
    }
}

/// In the vote rounds the node decides only on agreement: after a vote,
/// either its decision and agreed value are as they were, or it has decided
/// and its agreed value is the first value of the first round's pairs, which
/// is also the first value of the second round's pairs.
pub proof fn law_vote_decides_on_agreement(
    s: ReactorView,
    value: Seq<char>,
    no: usize,
    sender: PeerAddress,
    timed_out: bool,
    args: Seq<Seq<char>>,
    r: Option<(ReactorView, Seq<NetworkMessage>, bool)>,
)
    requires
        vote_step(s, value, no, sender, timed_out, args, r),
        r is Some,
    ensures
        ({
            let s2 = r.unwrap().0;
            ||| s2.voted == s.voted && s2.ba_v == s.ba_v
            ||| s2.voted && s2.c1.len() > 0 && s2.c2.len() > 0 && s2.c1[0].0 == s2.c2[0].0 && s2.ba_v == s2.c1[0].0
        }),
{
}

/// A node whose binary agreement decided keeps its agreed value through the
/// proposal phase.
pub proof fn law_propose_keeps_decision(
    s: ReactorView,
    value: Seq<char>,
    sender: PeerAddress,
    msg_level: usize,
    timed_out: bool,
    args: Seq<Seq<char>>,
    r: Option<(ReactorView, Seq<NetworkMessage>, bool)>,
)
    requires
        propose_step(s, value, sender, msg_level, timed_out, args, r),
        r is Some,
        s.voted,
    ensures
        r.unwrap().0.ba_v == s.ba_v,
{
}

/// A round-one vote at the end of the forward phase is for a value that
/// every forward received in the phase carries as its first word, and only
/// a node that forwarded in the echo phase votes.
pub proof fn law_forward_votes_on_unanimity(
    s: ReactorView,
    value: Seq<char>,
    sender: PeerAddress,
    msg_level: usize,
    timed_out: bool,
    args: Seq<Seq<char>>,
    r: Option<(ReactorView, Seq<NetworkMessage>, bool)>,
)
    requires
        forward_step(s, value, sender, msg_level, timed_out, args, r),
        r matches Some((_, out, _)) && out.len() > 0,
    ensures
        s.forward_check,
        r.unwrap().1[0].message matches ConsensusMessage::VoteMessage(x) && x.no == 1 && (forall|k: int|
            0 <= k < s.forward_value.len() ==> first_word(#[trigger] s.forward_value[k]) == x.value@) && (msg_level
            == s.level ==> first_word(sender_report(value, sender)) == x.value@),
{
    let fwds = if msg_level == s.level { s.forward_value.push(sender_report(value, sender)) } else { s.forward_value };
    assert forall|k: int| 0 <= k < s.forward_value.len() implies first_word(#[trigger] s.forward_value[k]) == first_word(
        fwds[0],
    ) by {
        assert(fwds[k] == s.forward_value[k]);
    }
    if msg_level == s.level {
        assert(fwds[s.forward_value.len() as int] == sender_report(value, sender));
    }
}

/// The first word of a value without spaces followed by a space and more
/// is the value.
proof fn lemma_first_word_of_report(v: Seq<char>, a: PeerAddress)
    requires
        crate::text_facts::lacks(v, ' '),
    ensures
        first_word(sender_report(v, a)) == v,
        first_word(v) == v,
{
    let rest = a.host@ + seq![':'] + crate::text::decimal(a.port as nat);
    assert(sender_report(v, a) =~= v + seq![' '] + rest);
    crate::text_facts::lemma_split_front(v, seq![' '], rest);
    crate::text_facts::lemma_split_whole(v, seq![' ']);
}

/// Echoes whose first words are all `v` are all counted for `v`.
proof fn lemma_echo_support_all(outs: Seq<Seq<char>>, v: Seq<char>)
    requires
        forall|k: int| 0 <= k < outs.len() ==> first_word(#[trigger] outs[k]) == v,
    ensures
        echo_support(outs, v).len() == outs.len(),
        forall|k: int| 0 <= k < outs.len() ==> #[trigger] echo_support(outs, v)[k] == v,
    decreases outs.len(),
{
    if outs.len() > 0 {
        let rest = outs.drop_last();
        assert forall|k: int| 0 <= k < rest.len() implies first_word(#[trigger] rest[k]) == v by {
            assert(rest[k] == outs[k]);
        }
        lemma_echo_support_all(rest, v);
        assert(v.subrange(0, v.len() as int) =~= v);
        assert(matches_at(v, v, 0));
        assert(first_word(outs.last()) == v);
    }
}

/// Echoes that all carry the pair `V1-V2` the node agrees on (and nothing
/// after it but the sender), as many as half the committee, make the node
/// forward `V1-V2` when the echo phase ends (unless an adversary skips it
/// before the first proposal phase ends).
pub proof fn law_echo_forwards_supported_pair(
    s: ReactorView,
    value: Seq<char>,
    sender: PeerAddress,
    timed_out: bool,
    args: Seq<Seq<char>>,
    r: Option<(ReactorView, Seq<NetworkMessage>, bool)>,
)
    requires
        echo_step(s, value, sender, s.level, timed_out, args, r),
        crate::text_facts::lacks(s.v1 + seq!['-'] + s.v2, ' '),
        value == s.v1 + seq!['-'] + s.v2,
        forall|k: int| 0 <= k < s.echo_value.len() ==> first_word(#[trigger] s.echo_value[k]) == s.v1 + seq!['-'] + s.v2,
        s.echo_value.len() + 1 >= s.ip_address.len() / 2,
        timed_out || s.echo_value.len() + 1 == (if s.propose_reached {
            pow2(s.level as nat) / 3
        } else {
            pow2(s.level as nat) / 2
        }),
        !adversarial(args) || s.propose_reached,
    ensures
        r matches Some((s2, out, _)) && s2.forward_check && out.len() == 1 && forward_msg(
            out[0],
            s.ip_address,
            args,
            s.level,
            s.v1 + seq!['-'] + s.v2,
        ),
{
    let v = s.v1 + seq!['-'] + s.v2;
    let echoes = s.echo_value.push(sender_report(value, sender));
    lemma_first_word_of_report(v, sender);
    assert forall|k: int| 0 <= k < echoes.len() implies first_word(#[trigger] echoes[k]) == v by {
        if k < s.echo_value.len() {
            assert(echoes[k] == s.echo_value[k]);
        }
    }
    lemma_echo_support_all(echoes, v);
    assert(agreed_pair(s) == v);
    assert(echo_support(echoes, v)[0] == v);
}

/// When the second vote round closes on a vote of that round and the first
/// values of the two rounds' pairs agree, the node has decided on that value.
pub proof fn law_vote_agreement_decides(
    s: ReactorView,
    value: Seq<char>,
    no: usize,
    sender: PeerAddress,
    timed_out: bool,
    args: Seq<Seq<char>>,
    r: Option<(ReactorView, Seq<NetworkMessage>, bool)>,
)
    requires
        vote_step(s, value, no, sender, timed_out, args, r),
        no != 1,
        r is Some,
        r.unwrap().0.vote2_value.len() == 0,
        r.unwrap().0.c1.len() > 0,
        r.unwrap().0.c2.len() > 0,
        r.unwrap().0.c1[0].0 == r.unwrap().0.c2[0].0,
    ensures
        r.unwrap().0.voted,
        r.unwrap().0.ba_v == r.unwrap().0.c1[0].0,
{
}

/// First words of echoes that contain `v` contain `v`, and hold no space.
proof fn lemma_echo_support_contains(outs: Seq<Seq<char>>, v: Seq<char>)
    ensures
        forall|k: int| 0 <= k < echo_support(outs, v).len() ==> crate::text::contains_seq(
            #[trigger] echo_support(outs, v)[k],
            v,
        ) && crate::text_facts::lacks(echo_support(outs, v)[k], ' '),
    decreases outs.len(),
{
    if outs.len() > 0 {
        let rest = outs.drop_last();
        lemma_echo_support_contains(rest, v);
        lemma_first_word_spaceless(outs.last());
        let e = echo_support(outs, v);
        let er = echo_support(rest, v);
        assert forall|k: int| 0 <= k < e.len() implies crate::text::contains_seq(#[trigger] e[k], v)
            && crate::text_facts::lacks(e[k], ' ') by {
            if k < er.len() {
                assert(e[k] == er[k]);
            } else {
                assert(e[k] == first_word(outs.last()));
            }
        }
    }
}

/// A forward at the end of the echo phase carries a value that holds the
/// pair `V1-V2` the node agrees on, and the node records that it forwarded.
pub proof fn law_echo_forward_holds_pair(
    s: ReactorView,
    value: Seq<char>,
    sender: PeerAddress,
    msg_level: usize,
    timed_out: bool,
    args: Seq<Seq<char>>,
    r: Option<(ReactorView, Seq<NetworkMessage>, bool)>,
)
    requires
        echo_step(s, value, sender, msg_level, timed_out, args, r),
        r matches Some((_, out, _)) && out.len() > 0,
    ensures
        r.unwrap().0.forward_check,
        r.unwrap().1[0].message matches ConsensusMessage::ForwardMessage(f) && crate::text::contains_seq(
            f.value@,
            s.v1 + seq!['-'] + s.v2,
        ),
{
    let echoes = if msg_level == s.level { s.echo_value.push(sender_report(value, sender)) } else { s.echo_value };
    lemma_echo_support_contains(echoes, agreed_pair(s));
    let pi = echo_support(echoes, agreed_pair(s));
    if pi.len() > 0 {
        crate::text_facts::lemma_split_whole(pi[0], seq![' ']);
        assert(first_word(pi[0]) == pi[0]);
    }
    assert(agreed_pair(s) == s.v1 + seq!['-'] + s.v2);
}

/// A first word holds no space, so it is its own first word.
proof fn lemma_first_word_spaceless(x: Seq<char>)
    ensures
        crate::text_facts::lacks(first_word(x), ' '),
        first_word(first_word(x)) == first_word(x),
{
    let sep = seq![' '];
    lemma_find_from(x, sep, 0);
    crate::text::lemma_split_len(x, sep);
    match find_from(x, sep, 0) {
        None => {
            assert forall|j: int| 0 <= j < x.len() implies x[j] != ' ' by {
                if x[j] == ' ' {
                    assert(x.subrange(j, j + 1) =~= sep);
                    assert(matches_at(x, sep, j));
                }
            }
        },
        Some(i) => {
            let w = x.subrange(0, i);
            assert(first_word(x) == w);
            assert forall|j: int| 0 <= j < w.len() implies w[j] != ' ' by {
                if w[j] == ' ' {
                    assert(x.subrange(j, j + 1) =~= sep);
                    assert(matches_at(x, sep, j));
                }
            }
        },
    }
    crate::text_facts::lemma_split_whole(first_word(x), sep);
}

/// At the end of the forward phase, a node that forwarded in the echo phase
/// and received forwards that all carry the same first word votes for that
/// word in round one (unless it is an adversary, which may skip).
pub proof fn law_forward_unanimity_votes(
    s: ReactorView,
    value: Seq<char>,
    sender: PeerAddress,
    args: Seq<Seq<char>>,
    r: Option<(ReactorView, Seq<NetworkMessage>, bool)>,
)
    requires
        forward_step(s, value, sender, s.level, true, args, r),
        s.forward_check,
        !adversarial(args),
        forall|k: int| 0 <= k < s.forward_value.len() ==> first_word(#[trigger] s.forward_value[k]) == first_word(
            sender_report(value, sender),
        ),
    ensures
        r matches Some((_, out, _)) && out.len() == 1 && vote_msg(
            out[0],
            s.ip_address,
            args,
            s.level,
            first_word(sender_report(value, sender)),
            1,
        ),
{
    let fwds = s.forward_value.push(sender_report(value, sender));
    assert forall|k: int| 0 <= k < fwds.len() implies first_word(#[trigger] fwds[k]) == first_word(fwds[0]) by {
        if k < s.forward_value.len() {
            assert(fwds[k] == s.forward_value[k]);
        }
        if s.forward_value.len() > 0 {
            assert(fwds[0] == s.forward_value[0]);
        }
    }
    assert(first_words_agree(fwds));
}
} // verus!
