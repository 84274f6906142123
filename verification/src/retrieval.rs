//! The bookkeeping of retrieved codewords in the reactor: each member keeps,
//! per part, the codeword each sender forwarded (the first one only, and
//! only for the current level), and once twice the committee's size of them
//! arrived it reconstructs the shares: first those of the codeword phase,
//! then those of the committee phase.
use vstd::prelude::*;
use crate::message::PeerAddress;
use crate::text::{chars_of, str_equal};

verus! {

/// A retrieved entry as plain values: the sender's host and port and the
/// codeword text.
pub type EntryView = (Seq<char>, u16, Seq<char>);

/// The entries of a part.
pub open spec fn entries_view(v: Seq<(PeerAddress, String)>) -> Seq<EntryView> {
    v.map_values(|e: (PeerAddress, String)| (e.0.host@, e.0.port, e.1@))
}

/// A table of retrieved codewords, part by part.
pub open spec fn table_view(t: Seq<(usize, Vec<(PeerAddress, String)>)>) -> Seq<(usize, Seq<EntryView>)> {
    t.map_values(|p: (usize, Vec<(PeerAddress, String)>)| (p.0, entries_view(p.1@)))
}

/// The position of `part` in the table, if it has one.
pub open spec fn part_pos(t: Seq<(usize, Seq<EntryView>)>, part: usize) -> Option<int>
    decreases t.len(),
{
    if t.len() == 0 {
        None
    } else if t.last().0 == part {
        Some(t.len() - 1)
    } else {
        part_pos(t.drop_last(), part)
    }
}

/// Whether the sender already forwarded a codeword for the part.
pub open spec fn stored(t: Seq<(usize, Seq<EntryView>)>, part: usize, host: Seq<char>, port: u16) -> bool {
    exists|i: int, j: int|
        0 <= i < t.len() && 0 <= j < t[i].1.len() && t[i].0 == part && (#[trigger] t[i].1[j]).0 == host
            && t[i].1[j].1 == port
}

/// The table with the entry added to its part (the part is added when new).
pub open spec fn inserted(t: Seq<(usize, Seq<EntryView>)>, part: usize, e: EntryView) -> Seq<(usize, Seq<EntryView>)> {
    match part_pos(t, part) {
        Some(i) => t.update(i, (part, t[i].1.push(e))),
        None => t.push((part, seq![e])),
    }
}

/// The number of entries in the table.
pub open spec fn table_count(t: Seq<(usize, Seq<EntryView>)>) -> nat
    decreases t.len(),
{
    if t.len() == 0 {
        0
    } else {
        table_count(t.drop_last()) + t.last().1.len()
    }
}

/// The retrieval state of a member.
pub struct RetrievalState {
    pub codeword_table: Vec<(usize, Vec<(PeerAddress, String)>)>,
    pub committee_table: Vec<(usize, Vec<(PeerAddress, String)>)>,
    /// The codeword phase is over and committee codewords are awaited.
    pub flag: bool,
    /// The last level is done.
    pub recursion_finish: bool,
}

/// The table after a retrieve message: the entry is added when the sender
/// has none for the part yet and the message is of the current level.
pub open spec fn after_message(
    t: Seq<(usize, Seq<EntryView>)>,
    part: usize,
    e: EntryView,
    message_level: usize,
    level: usize,
) -> Seq<(usize, Seq<EntryView>)> {
    if !stored(t, part, e.0, e.1) && message_level == level {
        inserted(t, part, e)
    } else {
        t
    }
}

/// Tables small enough to count.
pub open spec fn counts_fit(s: RetrievalState) -> bool {
    &&& table_count(table_view(s.codeword_table@)) + 1 < usize::MAX
    &&& table_count(table_view(s.committee_table@)) + 1 < usize::MAX
}

/// Whether the sender has an entry for the part.
fn is_stored(t: &Vec<(usize, Vec<(PeerAddress, String)>)>, part: usize, sender: &PeerAddress) -> (r: bool)
    ensures
        r == stored(table_view(t@), part, sender.host@, sender.port),
{
    let ghost tv = table_view(t@);
    let host = chars_of(sender.host.as_str());
    let mut i: usize = 0;
    while i < t.len()
        invariant
            i <= t@.len(),
            tv == table_view(t@),
            host@ == sender.host@,
            forall|a: int, b: int|
                0 <= a < i && 0 <= b < tv[a].1.len() && tv[a].0 == part ==> !((#[trigger] tv[a].1[b]).0 == sender.host@
                    && tv[a].1[b].1 == sender.port),
        decreases t.len() - i,
    {
        if t[i].0 == part {
            let entries = &t[i].1;
            let mut j: usize = 0;
            while j < entries.len()
                invariant
                    i < t@.len(),
                    j <= entries@.len(),
                    entries@ == t@[i as int].1@,
                    tv == table_view(t@),
                    host@ == sender.host@,
                    t@[i as int].0 == part,
                    forall|b: int| 0 <= b < j ==> !((#[trigger] tv[i as int].1[b]).0 == sender.host@ && tv[i as int].1[b].1 == sender.port),
                decreases entries.len() - j,
            {
                assert(tv[i as int].1[j as int] == (entries@[j as int].0.host@, entries@[j as int].0.port, entries@[j as int].1@));
                if entries[j].0.port == sender.port && str_equal(entries[j].0.host.as_str(), sender.host.as_str()) {
                    assert(stored(tv, part, sender.host@, sender.port)) by {
                        assert(tv[i as int].1[j as int].0 == sender.host@);
                    }
                    return true;
                }
                j = j + 1;
            }
        }
        i = i + 1;
    }
    false
}

proof fn lemma_part_pos(t: Seq<(usize, Seq<EntryView>)>, part: usize)
    ensures
        part_pos(t, part) matches Some(i) ==> 0 <= i < t.len() && t[i].0 == part,
        part_pos(t, part) is None ==> forall|i: int| 0 <= i < t.len() ==> t[i].0 != part,
    decreases t.len(),
{
    if t.len() > 0 && t.last().0 != part {
        lemma_part_pos(t.drop_last(), part);
        if part_pos(t, part) is None {
            assert forall|i: int| 0 <= i < t.len() implies t[i].0 != part by {
                if i < t.len() - 1 {
                    assert(t[i] == t.drop_last()[i]);
                }
            }
        }
    }
}

/// Finds the last position of the part.
fn find_part(t: &Vec<(usize, Vec<(PeerAddress, String)>)>, part: usize) -> (r: Option<usize>)
    ensures
        r matches Some(i) ==> part_pos(table_view(t@), part) == Some(i as int),
        r is None ==> part_pos(table_view(t@), part) is None,
{
    let ghost tv = table_view(t@);
    assert(tv.subrange(0, tv.len() as int) =~= tv);
    let mut i: usize = t.len();
    while i > 0
        invariant
            i <= t@.len(),
            tv == table_view(t@),
            part_pos(tv, part) == part_pos(tv.subrange(0, i as int), part),
        decreases i,
    {
        let ghost sub = tv.subrange(0, i as int);
        assert(sub.last() == tv[i - 1]);
        assert(sub.drop_last() =~= tv.subrange(0, i - 1));
        if t[i - 1].0 == part {
            return Some(i - 1);
        }
        i = i - 1;
    }
    None
}

proof fn lemma_count_update(t: Seq<(usize, Seq<EntryView>)>, i: int, x: (usize, Seq<EntryView>))
    requires
        0 <= i < t.len(),
    ensures
        table_count(t.update(i, x)) == table_count(t) - t[i].1.len() + x.1.len(),
    decreases t.len(),
{
    if i < t.len() - 1 {
        lemma_count_update(t.drop_last(), i, x);
        assert(t.update(i, x).drop_last() =~= t.drop_last().update(i, x));
    } else {
        assert(t.update(i, x).drop_last() =~= t.drop_last());
    }
}

/// Adds the entry to the table.
fn insert_entry(t: &mut Vec<(usize, Vec<(PeerAddress, String)>)>, part: usize, sender: PeerAddress, codewords: String)
    ensures
        table_view(final(t)@) == inserted(table_view(old(t)@), part, (sender.host@, sender.port, codewords@)),
        table_count(table_view(final(t)@)) == table_count(table_view(old(t)@)) + 1,
{
    let ghost e: EntryView = (sender.host@, sender.port, codewords@);
    let ghost tv = table_view(t@);
    proof {
        lemma_part_pos(tv, part);
    }
    match find_part(t, part) {
        Some(i) => {
            let mut pair = t.remove(i);
            let ghost old_entries = pair.1@;
            pair.1.push((sender, codewords));
            t.insert(i, pair);
            proof {
                assert(entries_view(t@[i as int].1@) =~= entries_view(old_entries).push(e));
                assert(table_view(t@) =~= tv.update(i as int, (part, tv[i as int].1.push(e))));
                lemma_count_update(tv, i as int, (part, tv[i as int].1.push(e)));
            }
        },
        None => {
            let mut entries: Vec<(PeerAddress, String)> = Vec::new();
            entries.push((sender, codewords));
            t.push((part, entries));
            proof {
                assert(entries_view(entries@) =~= seq![e]);
                assert(table_view(t@) =~= tv.push((part, seq![e])));
                assert(tv.push((part, seq![e])).drop_last() =~= tv);
            }
        },
    }
}

/// Counts the entries of the table.
fn count_entries(t: &Vec<(usize, Vec<(PeerAddress, String)>)>) -> (n: usize)
    requires
        table_count(table_view(t@)) < usize::MAX,
    ensures
        n == table_count(table_view(t@)),
{
    let ghost tv = table_view(t@);
    let mut n: usize = 0;
    let mut i: usize = 0;
    while i < t.len()
        invariant
            i <= t@.len(),
            tv == table_view(t@),
            table_count(tv) < usize::MAX,
            n == table_count(tv.subrange(0, i as int)),
        decreases t.len() - i,
    {
        assert(tv.subrange(0, i + 1).drop_last() =~= tv.subrange(0, i as int));
        proof {
            lemma_count_prefix(tv, i + 1);
        }
        n = n + t[i].1.len();
        i = i + 1;
    }
    assert(tv.subrange(0, i as int) =~= tv);
    n
}

/// Whether one more entry still leaves the table's count below the
/// largest `usize`.
fn count_fits(t: &Vec<(usize, Vec<(PeerAddress, String)>)>) -> (r: bool)
    ensures
        r == (table_count(table_view(t@)) + 1 < usize::MAX),
{
    let ghost tv = table_view(t@);
    let mut n: usize = 0;
    let mut i: usize = 0;
    while i < t.len()
        invariant
            i <= t@.len(),
            tv == table_view(t@),
            n == table_count(tv.subrange(0, i as int)),
            n < usize::MAX - 1,
        decreases t.len() - i,
    {
        assert(tv.subrange(0, i + 1).drop_last() =~= tv.subrange(0, i as int));
        proof {
            lemma_count_prefix(tv, i + 1);
        }
        let len = t[i].1.len();
        assert(tv[i as int].1.len() == len);
        if len >= usize::MAX - 1 - n {
            return false;
        }
        n = n + len;
        i = i + 1;
    }
    assert(tv.subrange(0, i as int) =~= tv);
    n + 1 < usize::MAX
}

/// Whether both tables leave room for one more entry.
pub fn retrieval_fits(s: &RetrievalState) -> (r: bool)
    ensures
        r == counts_fit(*s),
{
    count_fits(&s.codeword_table) && count_fits(&s.committee_table)
}

proof fn lemma_count_prefix(t: Seq<(usize, Seq<EntryView>)>, k: int)
    requires
        0 <= k <= t.len(),
    ensures
        table_count(t.subrange(0, k)) <= table_count(t),
    decreases t.len(),
{
    if k < t.len() {
        lemma_count_prefix(t.drop_last(), k);
        assert(t.drop_last().subrange(0, k) =~= t.subrange(0, k));
    } else {
        assert(t.subrange(0, k) =~= t);
    }
}

/// Handles a retrieve message: records the codeword as `after_message`
/// says in the table of its phase (`codewords` or the committee's), then
/// closes a phase whose table holds twice the committee's size of entries:
/// the codeword phase while it is open, then the committee phase (whose
/// closing at the last of `levels` levels ends the recursion). A closed
/// phase hands back its table, for reconstruction, and starts empty.
pub fn retrieve_step(
    state: RetrievalState,
    part: usize,
    sender: PeerAddress,
    codewords: String,
    communication_type: &String,
    message_level: usize,
    level: usize,
    committee_size: usize,
    levels: usize,
) -> (r: (RetrievalState, Option<Vec<(usize, Vec<(PeerAddress, String)>)>>, Option<Vec<(usize, Vec<(PeerAddress, String)>)>>))
    requires
        counts_fit(state),
        committee_size <= usize::MAX / 2,
        level < usize::MAX,
    ensures
        ({
            let e: EntryView = (sender.host@, sender.port, codewords@);
            let cw0 = table_view(state.codeword_table@);
            let cm0 = table_view(state.committee_table@);
            let cw1 = if communication_type@ == "codewords"@ { after_message(cw0, part, e, message_level, level) } else { cw0 };
            let cm1 = if communication_type@ == "codewords"@ { cm0 } else { after_message(cm0, part, e, message_level, level) };
            let close_cw = !state.flag && !state.recursion_finish && table_count(cw1) == 2 * committee_size;
            let flag1 = state.flag || close_cw;
            let close_cm = flag1 && !state.recursion_finish && table_count(cm1) == 2 * committee_size;
            &&& (r.1 is Some <==> close_cw)
            &&& (r.1 matches Some(t) ==> table_view(t@) == cw1)
            &&& (r.2 is Some <==> close_cm)
            &&& (r.2 matches Some(t) ==> table_view(t@) == cm1)
            &&& table_view(r.0.codeword_table@) == (if close_cw { Seq::empty() } else { cw1 })
            &&& table_view(r.0.committee_table@) == (if close_cm { Seq::empty() } else { cm1 })
            &&& r.0.flag == (flag1 && !close_cm)
            &&& r.0.recursion_finish == (state.recursion_finish || (close_cm && levels == level + 1))
        }),
{
    let mut state = state;
    let is_codewords = str_equal(communication_type.as_str(), "codewords");
    if is_codewords {
        if !is_stored(&state.codeword_table, part, &sender) && message_level == level {
            insert_entry(&mut state.codeword_table, part, sender, codewords);
        }
    } else {
        if !is_stored(&state.committee_table, part, &sender) && message_level == level {
            insert_entry(&mut state.committee_table, part, sender, codewords);
        }
    }
    let mut done_codewords: Option<Vec<(usize, Vec<(PeerAddress, String)>)>> = None;
    let mut done_committee: Option<Vec<(usize, Vec<(PeerAddress, String)>)>> = None;
    if !state.flag && !state.recursion_finish {
        let total = count_entries(&state.codeword_table);
        if total == 2 * committee_size {
            state.flag = true;
            let mut table: Vec<(usize, Vec<(PeerAddress, String)>)> = Vec::new();
            std::mem::swap(&mut table, &mut state.codeword_table);
            done_codewords = Some(table);
        }
    }
    if state.flag && !state.recursion_finish {
        let total = count_entries(&state.committee_table);
        if total == 2 * committee_size {
            if levels == level + 1 {
                state.recursion_finish = true;
            }
            state.flag = false;
            let mut table: Vec<(usize, Vec<(PeerAddress, String)>)> = Vec::new();
            std::mem::swap(&mut table, &mut state.committee_table);
            done_committee = Some(table);
        }
    }
    (state, done_codewords, done_committee)
}


/// A table holds each part once, and each sender at most once per part.
pub open spec fn table_wf(t: Seq<(usize, Seq<EntryView>)>) -> bool {
    &&& forall|a: int, b: int| 0 <= a < b < t.len() ==> (#[trigger] t[a]).0 != (#[trigger] t[b]).0
    &&& forall|i: int, j: int, k: int|
        0 <= i < t.len() && 0 <= j < k < t[i].1.len() ==> !((#[trigger] t[i].1[j]).0 == (#[trigger] t[i].1[k]).0
            && t[i].1[j].1 == t[i].1[k].1)
}

/// Recording a retrieve message keeps a table well formed: no part twice,
/// no sender twice within a part, so every sender's codeword counts once.
pub proof fn lemma_after_message_wf(
    t: Seq<(usize, Seq<EntryView>)>,
    part: usize,
    e: EntryView,
    message_level: usize,
    level: usize,
)
    requires
        table_wf(t),
    ensures
        table_wf(after_message(t, part, e, message_level, level)),
{
    if !stored(t, part, e.0, e.1) && message_level == level {
        lemma_part_pos(t, part);
        let n = inserted(t, part, e);
        match part_pos(t, part) {
            Some(i) => {
                let es = t[i].1.push(e);
                assert forall|a: int, b: int| 0 <= a < b < n.len() implies (#[trigger] n[a]).0 != (#[trigger] n[b]).0 by {
                    assert(n[a].0 == t[a].0 && n[b].0 == t[b].0);
                }
                assert forall|x: int, j: int, k: int|
                    0 <= x < n.len() && 0 <= j < k < n[x].1.len() implies !((#[trigger] n[x].1[j]).0 == (#[trigger] n[x].1[k]).0
                        && n[x].1[j].1 == n[x].1[k].1) by {
                    if x == i {
                        if k == t[i].1.len() {
                            assert(n[x].1[k] == e);
                            assert(n[x].1[j] == t[i].1[j]);
                            if n[x].1[j].0 == e.0 && n[x].1[j].1 == e.1 {
                                assert(stored(t, part, e.0, e.1));
                            }
                        } else {
                            assert(n[x].1[j] == t[i].1[j] && n[x].1[k] == t[i].1[k]);
                        }
                    } else {
                        assert(n[x] == t[x]);
                    }
                }
            },
            None => {
                assert forall|a: int, b: int| 0 <= a < b < n.len() implies (#[trigger] n[a]).0 != (#[trigger] n[b]).0 by {
                    if b == t.len() {
                        assert(n[a] == t[a]);
                    } else {
                        assert(n[a] == t[a] && n[b] == t[b]);
                    }
                }
                assert forall|x: int, j: int, k: int|
                    0 <= x < n.len() && 0 <= j < k < n[x].1.len() implies !((#[trigger] n[x].1[j]).0 == (#[trigger] n[x].1[k]).0
                        && n[x].1[j].1 == n[x].1[k].1) by {
                    if x < t.len() {
                        assert(n[x] == t[x]);
                    }
                }
            },
        }
    }
}

} // verus!
