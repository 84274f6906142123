//! Reports that arrive for a level the node has not reached yet wait in a
//! store, one per sender and level (a later report of the same sender for
//! the same level replaces the earlier one), until the node takes them when
//! it reaches that level.
use vstd::prelude::*;
use crate::message::PeerAddress;
use crate::text::str_equal;

verus! {

/// How the store tells senders apart: by host and port.
pub open spec fn sender_key(a: PeerAddress) -> (Seq<char>, u16) {
    (a.host@, a.port)
}

/// The reports of one level as the store sees them: each sender's key with
/// the text of its report, in order.
pub open spec fn reports_view(r: Seq<(PeerAddress, String)>) -> Seq<((Seq<char>, u16), Seq<char>)> {
    r.map_values(|p: (PeerAddress, String)| (sender_key(p.0), p.1@))
}

/// The texts of the reports, in order.
pub open spec fn report_texts(r: Seq<((Seq<char>, u16), Seq<char>)>) -> Seq<Seq<char>> {
    r.map_values(|p: ((Seq<char>, u16), Seq<char>)| p.1)
}

/// The reports with the one of sender `k` set to `v`: in its place where
/// that sender has one, else at the end.
pub open spec fn put_report(
    r: Seq<((Seq<char>, u16), Seq<char>)>,
    k: (Seq<char>, u16),
    v: Seq<char>,
) -> Seq<((Seq<char>, u16), Seq<char>)> {
    if exists|j: int| 0 <= j < r.len() && (#[trigger] r[j]).0 == k {
        let j = choose|j: int| 0 <= j < r.len() && (#[trigger] r[j]).0 == k;
        r.update(j, (k, v))
    } else {
        r.push((k, v))
    }
}

/// No sender occurs twice.
pub open spec fn senders_distinct(r: Seq<((Seq<char>, u16), Seq<char>)>) -> bool {
    forall|a: int, b: int| 0 <= a < b < r.len() ==> (#[trigger] r[a]).0 != (#[trigger] r[b]).0
}

/// The waiting reports, grouped by level.
pub struct LevelStore {
    pub levels: Vec<(usize, Vec<(PeerAddress, String)>)>,
}

impl LevelStore {
    /// No level occurs twice, and within a level no sender occurs twice.
    pub open spec fn wf(self) -> bool {
        &&& forall|a: int, b: int|
            0 <= a < b < self.levels@.len() ==> (#[trigger] self.levels@[a]).0 != (#[trigger] self.levels@[b]).0
        &&& forall|i: int|
            0 <= i < self.levels@.len() ==> senders_distinct(reports_view((#[trigger] self.levels@[i]).1@))
    }

    /// The reports waiting for `level`, in order.
    pub open spec fn waiting(self, level: usize) -> Seq<((Seq<char>, u16), Seq<char>)> {
        if exists|i: int| 0 <= i < self.levels@.len() && (#[trigger] self.levels@[i]).0 == level {
            let i = choose|i: int| 0 <= i < self.levels@.len() && (#[trigger] self.levels@[i]).0 == level;
            reports_view(self.levels@[i].1@)
        } else {
            Seq::empty()
        }
    }

    /// An empty store.
    pub fn new() -> (s: Self)
        ensures
            s.wf(),
            forall|l: usize| #[trigger] s.waiting(l) == Seq::<((Seq<char>, u16), Seq<char>)>::empty(),
    {
        LevelStore { levels: Vec::new() }
    }

    /// Keeps the report `value` of `sender` for `level`, replacing an
    /// earlier report of that sender for that level.
    pub fn store(&mut self, level: usize, sender: PeerAddress, value: String)
        requires
            old(self).wf(),
        ensures
            final(self).wf(),
            final(self).waiting(level) == put_report(old(self).waiting(level), sender_key(sender), value@),
            forall|l: usize| l != level ==> #[trigger] final(self).waiting(l) == old(self).waiting(l),
    {
        let ghost before = *self;
        let mut inner = self.take_level(level);
        proof {
            lemma_put_report_distinct(reports_view(inner@), sender_key(sender));
        }
        put_sender(&mut inner, sender, value);
        let ghost mid = *self;
        self.levels.push((level, inner));
        proof {
            let n = self.levels@.len() - 1;
            assert(self.levels@[n].0 == level);
            assert forall|a: int, b: int| 0 <= a < b < self.levels@.len() implies (#[trigger] self.levels@[a]).0
                != (#[trigger] self.levels@[b]).0 by {
                assert(mid.levels@[a] == self.levels@[a]);
                if b < n {
                    assert(mid.levels@[b] == self.levels@[b]);
                }
            }
            assert forall|i: int| 0 <= i < self.levels@.len() implies senders_distinct(
                reports_view((#[trigger] self.levels@[i]).1@),
            ) by {
                if i < n {
                    assert(mid.levels@[i] == self.levels@[i]);
                }
            }
            lemma_waiting_at(*self, level, n);
            assert forall|l: usize| l != level implies #[trigger] self.waiting(l) == before.waiting(l) by {
                assert(mid.waiting(l) == before.waiting(l));
                lemma_waiting_extend(mid, *self, l);
            }
        }
    }

    /// Takes the reports waiting for `level`, in order; none wait for it
    /// afterwards.
    pub fn take(&mut self, level: usize) -> (r: Vec<String>)
        requires
            old(self).wf(),
        ensures
            final(self).wf(),
            r@.map_values(|s: String| s@) == report_texts(old(self).waiting(level)),
            final(self).waiting(level) == Seq::<((Seq<char>, u16), Seq<char>)>::empty(),
            forall|l: usize| l != level ==> #[trigger] final(self).waiting(l) == old(self).waiting(l),
    {
        let inner = self.take_level(level);
        let mut r: Vec<String> = Vec::new();
        let mut k: usize = 0;
        while k < inner.len()
            invariant
                k <= inner@.len(),
                r@.map_values(|s: String| s@) == report_texts(reports_view(inner@)).subrange(0, k as int),
            decreases inner.len() - k,
        {
            let t = inner[k].1.clone();
            let ghost before = r@;
            r.push(t);
            proof {
                assert(r@.map_values(|s: String| s@) =~= before.map_values(|s: String| s@).push(t@));
                assert(report_texts(reports_view(inner@)).subrange(0, k + 1) =~= report_texts(
                    reports_view(inner@),
                ).subrange(0, k as int).push(inner@[k as int].1@));
            }
            k = k + 1;
        }
        assert(report_texts(reports_view(inner@)).subrange(0, k as int) =~= report_texts(reports_view(inner@)));
        r
    }

    /// Removes the entry of `level`, if there is one, and returns its
    /// reports (none if there was no entry); nothing waits for `level`
    /// afterwards and the other levels keep theirs.
    fn take_level(&mut self, level: usize) -> (r: Vec<(PeerAddress, String)>)
        requires
            old(self).wf(),
        ensures
            final(self).wf(),
            reports_view(r@) == old(self).waiting(level),
            senders_distinct(reports_view(r@)),
            forall|i: int| 0 <= i < final(self).levels@.len() ==> (#[trigger] final(self).levels@[i]).0 != level,
            final(self).waiting(level) == Seq::<((Seq<char>, u16), Seq<char>)>::empty(),
            forall|l: usize| l != level ==> #[trigger] final(self).waiting(l) == old(self).waiting(l),
    {
        let ghost before = *self;
        let mut i: usize = 0;
        while i < self.levels.len()
            invariant
                *self == before,
                before == *old(self),
                before.wf(),
                i <= self.levels@.len(),
                forall|k: int| 0 <= k < i ==> (#[trigger] self.levels@[k]).0 != level,
            decreases self.levels.len() - i,
        {
            if self.levels[i].0 == level {
                let (_, inner) = self.levels.remove(i);
                proof {
                    lemma_waiting_at(before, level, i as int);
                    assert(before.levels@[i as int].1 == inner);
                    assert forall|k: int| 0 <= k < self.levels@.len() implies (#[trigger] self.levels@[k]).0
                        != level by {
                        if k < i {
                            assert(self.levels@[k] == before.levels@[k]);
                        } else {
                            assert(self.levels@[k] == before.levels@[k + 1]);
                        }
                    }
                    lemma_remove_wf(before, *self, i as int);
                    lemma_waiting_none(*self, level);
                    assert forall|l: usize| l != level implies #[trigger] self.waiting(l) == before.waiting(l) by {
                        lemma_waiting_remove(before, *self, i as int, l);
                    }
                }
                return inner;
            }
            i = i + 1;
        }
        proof {
            lemma_waiting_none(before, level);
        }
        assert(reports_view(Seq::<(PeerAddress, String)>::empty()) =~= Seq::empty());
        Vec::new()
    }
}

/// Sets the report of `sender` to `value`: in its place where the sender
/// has one, else at the end.
fn put_sender(inner: &mut Vec<(PeerAddress, String)>, sender: PeerAddress, value: String)
    requires
        senders_distinct(reports_view(old(inner)@)),
    ensures
        reports_view(final(inner)@) == put_report(reports_view(old(inner)@), sender_key(sender), value@),
{
    let ghost key = sender_key(sender);
    let ghost v = value@;
    let ghost old_view = reports_view(inner@);
    let mut j: usize = 0;
    while j < inner.len()
        invariant
            reports_view(inner@) == old_view,
            old_view == reports_view(old(inner)@),
            key == sender_key(sender),
            v == value@,
            senders_distinct(old_view),
            j <= inner@.len(),
            forall|k: int| 0 <= k < j ==> (#[trigger] old_view[k]).0 != key,
        decreases inner.len() - j,
    {
        let host_same = str_equal(inner[j].0.host.as_str(), sender.host.as_str());
        let port_same = inner[j].0.port == sender.port;
        let same = host_same && port_same;
        assert(old_view[j as int] == (sender_key(inner@[j as int].0), inner@[j as int].1@));
        assert(same == (old_view[j as int].0 == key));
        if same {
            proof {
                assert(old_view[j as int].0 == key);
                let c = choose|c: int| 0 <= c < old_view.len() && (#[trigger] old_view[c]).0 == key;
                if c != j {
                    if c < j {
                        assert(old_view[c].0 != key);
                    } else {
                        assert(old_view[j as int].0 != old_view[c].0);
                    }
                }
            }
            inner.set(j, (sender, value));
            proof {
                assert(reports_view(inner@) =~= old_view.update(j as int, (key, v)));
            }
            return;
        }
        j = j + 1;
    }
    inner.push((sender, value));
    proof {
        assert(reports_view(inner@) =~= old_view.push((key, v)));
    }
}

/// Setting one sender's report keeps the senders distinct.
proof fn lemma_put_report_distinct(r: Seq<((Seq<char>, u16), Seq<char>)>, k: (Seq<char>, u16))
    requires
        senders_distinct(r),
    ensures
        forall|v: Seq<char>| #[trigger] senders_distinct(put_report(r, k, v)),
{
    assert forall|v: Seq<char>| #[trigger] senders_distinct(put_report(r, k, v)) by {
        if exists|j: int| 0 <= j < r.len() && (#[trigger] r[j]).0 == k {
            let j = choose|j: int| 0 <= j < r.len() && (#[trigger] r[j]).0 == k;
            let p = r.update(j, (k, v));
            assert forall|a: int, b: int| 0 <= a < b < p.len() implies (#[trigger] p[a]).0 != (#[trigger] p[b]).0 by {
                assert(r[a].0 != r[b].0);
            }
        } else {
            let p = r.push((k, v));
            assert forall|a: int, b: int| 0 <= a < b < p.len() implies (#[trigger] p[a]).0 != (#[trigger] p[b]).0 by {
                if b < r.len() {
                    assert(r[a].0 != r[b].0);
                } else {
                    assert(p[a] == r[a]);
                }
            }
        }
    }
}

/// Where the entry at `i` is for `level`, the reports waiting for `level`
/// are that entry's.
proof fn lemma_waiting_at(s: LevelStore, level: usize, i: int)
    requires
        s.wf(),
        0 <= i < s.levels@.len(),
        s.levels@[i].0 == level,
    ensures
        s.waiting(level) == reports_view(s.levels@[i].1@),
{
    let c = choose|c: int| 0 <= c < s.levels@.len() && (#[trigger] s.levels@[c]).0 == level;
    if c != i {
        if c < i {
            assert(s.levels@[c].0 != s.levels@[i].0);
        } else {
            assert(s.levels@[i].0 != s.levels@[c].0);
        }
    }
}

/// Where no entry is for `level`, nothing waits for it.
proof fn lemma_waiting_none(s: LevelStore, level: usize)
    requires
        forall|i: int| 0 <= i < s.levels@.len() ==> (#[trigger] s.levels@[i]).0 != level,
    ensures
        s.waiting(level) == Seq::<((Seq<char>, u16), Seq<char>)>::empty(),
{
}

/// Removing the entry at `i` keeps the store well formed.
proof fn lemma_remove_wf(s: LevelStore, t: LevelStore, i: int)
    requires
        s.wf(),
        0 <= i < s.levels@.len(),
        t.levels@ == s.levels@.remove(i),
    ensures
        t.wf(),
{
    assert forall|a: int, b: int| 0 <= a < b < t.levels@.len() implies (#[trigger] t.levels@[a]).0
        != (#[trigger] t.levels@[b]).0 by {
        let a1 = if a < i { a } else { a + 1 };
        let b1 = if b < i { b } else { b + 1 };
        assert(t.levels@[a] == s.levels@[a1] && t.levels@[b] == s.levels@[b1]);
        assert(s.levels@[a1].0 != s.levels@[b1].0);
    }
    assert forall|k: int| 0 <= k < t.levels@.len() implies senders_distinct(
        reports_view((#[trigger] t.levels@[k]).1@),
    ) by {
        let k1 = if k < i { k } else { k + 1 };
        assert(t.levels@[k] == s.levels@[k1]);
    }
}

/// Removing the entry at `i` leaves what waits for any other level as it was.
proof fn lemma_waiting_remove(s: LevelStore, t: LevelStore, i: int, l: usize)
    requires
        s.wf(),
        0 <= i < s.levels@.len(),
        t.levels@ == s.levels@.remove(i),
        s.levels@[i].0 != l,
    ensures
        t.waiting(l) == s.waiting(l),
{
    lemma_remove_wf(s, t, i);
    if exists|k: int| 0 <= k < s.levels@.len() && (#[trigger] s.levels@[k]).0 == l {
        let k = choose|k: int| 0 <= k < s.levels@.len() && (#[trigger] s.levels@[k]).0 == l;
        lemma_waiting_at(s, l, k);
        let k1 = if k < i { k } else { k - 1 };
        assert(t.levels@[k1] == s.levels@[k]);
        lemma_waiting_at(t, l, k1);
    } else {
        assert forall|k: int| 0 <= k < t.levels@.len() implies (#[trigger] t.levels@[k]).0 != l by {
            let k1 = if k < i { k } else { k + 1 };
            assert(t.levels@[k] == s.levels@[k1]);
        }
    }
}

/// Adding an entry for another level at the end leaves what waits for `l`
/// as it was.
proof fn lemma_waiting_extend(s: LevelStore, t: LevelStore, l: usize)
    requires
        s.wf(),
        t.wf(),
        t.levels@.len() == s.levels@.len() + 1,
        forall|k: int| 0 <= k < s.levels@.len() ==> t.levels@[k] == s.levels@[k],
        t.levels@.last().0 != l,
    ensures
        t.waiting(l) == s.waiting(l),
{
    if exists|k: int| 0 <= k < s.levels@.len() && (#[trigger] s.levels@[k]).0 == l {
        let k = choose|k: int| 0 <= k < s.levels@.len() && (#[trigger] s.levels@[k]).0 == l;
        lemma_waiting_at(s, l, k);
        lemma_waiting_at(t, l, k);
    } else {
        assert forall|k: int| 0 <= k < t.levels@.len() implies (#[trigger] t.levels@[k]).0 != l by {
            if k < s.levels@.len() {
                assert(t.levels@[k] == s.levels@[k]);
            }
        }
    }
}

/// Every report after setting one is the set one or the report that stood
/// in its place before.
pub proof fn lemma_put_report_elements(r: Seq<((Seq<char>, u16), Seq<char>)>, k: (Seq<char>, u16), v: Seq<char>)
    ensures
        forall|j: int|
            0 <= j < put_report(r, k, v).len() ==> #[trigger] put_report(r, k, v)[j] == (k, v) || (j < r.len()
                && put_report(r, k, v)[j] == r[j]),
{
    let p = put_report(r, k, v);
    if exists|j: int| 0 <= j < r.len() && (#[trigger] r[j]).0 == k {
        assert(p.len() == r.len());
        assert forall|j: int| 0 <= j < p.len() implies #[trigger] p[j] == (k, v) || (j < r.len() && p[j] == r[j]) by {
        }
    } else {
        assert(p == r.push((k, v)));
    }
}

} // verus!
