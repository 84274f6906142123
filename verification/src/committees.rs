//! The committees a node belongs to, read from the lines of the node file,
//! and the node's own address.
use vstd::prelude::*;
use crate::merkle::strings_view;
use crate::message::PeerAddress;
use crate::reactor::{args_ok, own_port};
use crate::text::{
    matches_at, trim, trim_chars, chars_of, contains_chars, contains_seq, join, join_chars, parse_bounded, parse_bounded_chars, split,
    split_chars, string_of, views,
};

verus! {

/// The fields of a node line `id-ip c1 c2l c3r`: the part after the first
/// `-`, split at spaces; the first field is the node's address, the others
/// name its committees.
pub open spec fn line_fields(line: Seq<char>) -> Seq<Seq<char>> {
    split(split(line, seq!['-'])[1], seq![' '])
}

/// A committee field without its `l` and `r` marks.
pub open spec fn unmarked(c: Seq<char>) -> Seq<char>
    decreases c.len(),
{
    if c.len() == 0 {
        Seq::empty()
    } else if c.last() == 'l' || c.last() == 'r' {
        unmarked(c.drop_last())
    } else {
        unmarked(c.drop_last()).push(c.last())
    }
}

/// The committee that a field names.
pub open spec fn committee_id(c: Seq<char>) -> u32 {
    parse_bounded(unmarked(c), 10, u32::MAX as nat)->0 as u32
}

/// A node line holds a `-`, and each of its committee fields names a `u32`.
pub open spec fn line_ok(line: Seq<char>) -> bool {
    &&& split(line, seq!['-']).len() >= 2
    &&& forall|k: int|
        1 <= k < line_fields(line).len() ==> parse_bounded(
            unmarked(#[trigger] line_fields(line)[k]),
            10,
            u32::MAX as nat,
        ) is Some
}

/// The memberships of one line: for each committee field, the committee
/// and the node's address.
pub open spec fn line_memberships(line: Seq<char>) -> Seq<(u32, Seq<char>)> {
    let f = line_fields(line);
    Seq::new((f.len() - 1) as nat, |k: int| (committee_id(f[k + 1]), f[0]))
}

/// The memberships of all the lines, in order.
pub open spec fn memberships(lines: Seq<Seq<char>>) -> Seq<(u32, Seq<char>)>
    decreases lines.len(),
{
    if lines.len() == 0 {
        Seq::empty()
    } else {
        memberships(lines.drop_last()) + line_memberships(lines.last())
    }
}

/// The members of committee `c`, in order.
pub open spec fn members(ms: Seq<(u32, Seq<char>)>, c: u32) -> Seq<Seq<char>>
    decreases ms.len(),
{
    if ms.len() == 0 {
        Seq::empty()
    } else if ms.last().0 == c {
        members(ms.drop_last(), c).push(ms.last().1)
    } else {
        members(ms.drop_last(), c)
    }
}

/// The committee table of the node with address `self_ip`: each committee
/// whose member list (addresses joined by spaces) contains `self_ip`, with
/// that list, by increasing committee id.
pub open spec fn table_ok(r: Seq<(u32, String)>, ms: Seq<(u32, Seq<char>)>, self_ip: Seq<char>) -> bool {
    &&& forall|a: int, b: int| 0 <= a < b < r.len() ==> (#[trigger] r[a]).0 < (#[trigger] r[b]).0
    &&& forall|k: int|
        0 <= k < r.len() ==> {
            &&& members(ms, (#[trigger] r[k]).0).len() > 0
            &&& r[k].1@ == join(members(ms, r[k].0), seq![' '])
            &&& contains_seq(r[k].1@, self_ip)
        }
    &&& forall|c: u32|
        members(ms, c).len() > 0 && contains_seq(join(#[trigger] members(ms, c), seq![' ']), self_ip)
            ==> exists|k: int| 0 <= k < r.len() && r[k].0 == c
}

/// Removes every `l` and `r`.
fn unmark(c: &Vec<char>) -> (r: Vec<char>)
    ensures
        r@ == unmarked(c@),
{
    let mut r: Vec<char> = Vec::new();
    let mut i: usize = 0;
    while i < c.len()
        invariant
            i <= c@.len(),
            r@ == unmarked(c@.subrange(0, i as int)),
        decreases c.len() - i,
    {
        assert(c@.subrange(0, i + 1).drop_last() =~= c@.subrange(0, i as int));
        if c[i] != 'l' && c[i] != 'r' {
            r.push(c[i]);
        }
        i = i + 1;
    }
    assert(c@.subrange(0, i as int) =~= c@);
    r
}

/// The memberships of one line.
fn memberships_of_line(line: &String) -> (r: Vec<(u32, String)>)
    requires
        line_ok(line@),
    ensures
        r@.len() == line_memberships(line@).len(),
        forall|k: int|
            0 <= k < r@.len() ==> (#[trigger] r@[k]).0 == line_memberships(line@)[k].0 && r@[k].1@
                == line_memberships(line@)[k].1,
{
    let text = chars_of(line.as_str());
    let mut dash: Vec<char> = Vec::new();
    dash.push('-');
    assert(dash@ =~= seq!['-']);
    let halves = split_chars(&text, &dash);
    assert(views(halves@)[1] == halves@[1]@);
    let mut space: Vec<char> = Vec::new();
    space.push(' ');
    assert(space@ =~= seq![' ']);
    let fields = split_chars(&halves[1], &space);
    let ghost f = line_fields(line@);
    assert(views(fields@) == f);
    proof {
        crate::text::lemma_split_len(halves@[1]@, seq![' ']);
    }
    let ip = string_of(&fields[0]);
    assert(ip@ == f[0]);
    let mut r: Vec<(u32, String)> = Vec::new();
    let mut k: usize = 1;
    while k < fields.len()
        invariant
            1 <= k <= fields@.len(),
            f == views(fields@),
            f == line_fields(line@),
            line_ok(line@),
            ip@ == f[0],
            r@.len() == k - 1,
            forall|j: int|
                0 <= j < r@.len() ==> (#[trigger] r@[j]).0 == line_memberships(line@)[j].0 && r@[j].1@
                    == line_memberships(line@)[j].1,
        decreases fields.len() - k,
    {
        assert(f[k as int] == fields@[k as int]@);
        let bare = unmark(&fields[k]);
        assert(parse_bounded(unmarked(f[k as int]), 10, u32::MAX as nat) is Some);
        let id = match parse_bounded_chars(&bare, 10, u32::MAX as u64) {
            Some(v) => v as u32,
            None => {
                assert(false);
                0
            },
        };
        r.push((id, ip.clone()));
        k = k + 1;
    }
    r
}

/// The memberships held as pairs of committee and address text.
pub open spec fn pairs_view(v: Seq<(u32, String)>) -> Seq<(u32, Seq<char>)> {
    v.map_values(|p: (u32, String)| (p.0, p.1@))
}

/// All the memberships, line by line.
fn memberships_of(lines: &Vec<String>) -> (r: Vec<(u32, String)>)
    requires
        forall|i: int| 0 <= i < lines@.len() ==> line_ok(#[trigger] lines@[i]@),
    ensures
        pairs_view(r@) == memberships(strings_view(lines@)),
        r@.len() == memberships(strings_view(lines@)).len(),
        forall|k: int|
            0 <= k < r@.len() ==> (#[trigger] r@[k]).0 == memberships(strings_view(lines@))[k].0 && r@[k].1@
                == memberships(strings_view(lines@))[k].1,
{
    let ghost ls = strings_view(lines@);
    let mut r: Vec<(u32, String)> = Vec::new();
    let mut i: usize = 0;
    while i < lines.len()
        invariant
            i <= lines@.len(),
            ls == strings_view(lines@),
            forall|j: int| 0 <= j < lines@.len() ==> line_ok(#[trigger] lines@[j]@),
            r@.len() == memberships(ls.subrange(0, i as int)).len(),
            forall|k: int|
                0 <= k < r@.len() ==> (#[trigger] r@[k]).0 == memberships(ls.subrange(0, i as int))[k].0
                    && r@[k].1@ == memberships(ls.subrange(0, i as int))[k].1,
        decreases lines.len() - i,
    {
        let part = memberships_of_line(&lines[i]);
        let ghost prev = memberships(ls.subrange(0, i as int));
        assert(ls.subrange(0, i + 1).drop_last() =~= ls.subrange(0, i as int));
        assert(ls.subrange(0, i + 1).last() == lines@[i as int]@);
        let ghost before = r@;
        let mut j: usize = 0;
        while j < part.len()
            invariant
                j <= part@.len(),
                r@.len() == before.len() + j,
                before.len() == prev.len(),
                forall|k: int| 0 <= k < before.len() ==> r@[k] == before[k],
                forall|k: int|
                    0 <= k < before.len() ==> (#[trigger] before[k]).0 == prev[k].0 && before[k].1@ == prev[k].1,
                part@.len() == line_memberships(lines@[i as int]@).len(),
                forall|k: int|
                    0 <= k < part@.len() ==> (#[trigger] part@[k]).0 == line_memberships(lines@[i as int]@)[k].0
                        && part@[k].1@ == line_memberships(lines@[i as int]@)[k].1,
                forall|k: int| 0 <= k < j ==> r@[before.len() + k] == part@[k],
            decreases part.len() - j,
        {
            r.push((part[j].0, part[j].1.clone()));
            j = j + 1;
        }
        proof {
            let next = memberships(ls.subrange(0, i + 1));
            assert(next == prev + line_memberships(lines@[i as int]@));
            assert forall|k: int| 0 <= k < r@.len() implies (#[trigger] r@[k]).0 == next[k].0 && r@[k].1@ == next[k].1 by {
                if k < before.len() {
                    assert(r@[k] == before[k]);
                } else {
                    assert(r@[k] == part@[k - before.len()]);
                }
            }
        }
        i = i + 1;
    }
    assert(ls.subrange(0, i as int) =~= ls);
    assert(pairs_view(r@) =~= memberships(ls));
    r
}

/// A committee with members has a membership.
proof fn lemma_members_nonempty(ms: Seq<(u32, Seq<char>)>, c: u32)
    requires
        members(ms, c).len() > 0,
    ensures
        exists|j: int| 0 <= j < ms.len() && ms[j].0 == c,
    decreases ms.len(),
{
    if ms.last().0 != c {
        lemma_members_nonempty(ms.drop_last(), c);
        let j = choose|j: int| 0 <= j < ms.len() - 1 && ms.drop_last()[j].0 == c;
        assert(ms[j] == ms.drop_last()[j]);
    }
}

/// The members of committee `c`.
fn members_of(ms: &Vec<(u32, String)>, c: u32) -> (r: Vec<Vec<char>>)
    ensures
        views(r@) == members(pairs_view(ms@), c),
{
    let ghost m = pairs_view(ms@);
    let mut r: Vec<Vec<char>> = Vec::new();
    let mut i: usize = 0;
    while i < ms.len()
        invariant
            i <= ms@.len(),
            m == pairs_view(ms@),
            views(r@) == members(m.subrange(0, i as int), c),
        decreases ms.len() - i,
    {
        assert(m.subrange(0, i + 1).drop_last() =~= m.subrange(0, i as int));
        assert(m.subrange(0, i + 1).last() == m[i as int]);
        if ms[i].0 == c {
            let ghost before = r@;
            r.push(chars_of(ms[i].1.as_str()));
            assert(views(r@) =~= views(before).push(ms@[i as int].1@));
        }
        i = i + 1;
    }
    assert(m.subrange(0, i as int) =~= m);
    r
}

/// The smallest committee of at least `lo`, if any.
fn next_key(ms: &Vec<(u32, String)>, lo: u64) -> (r: Option<u32>)
    ensures
        r matches Some(k) ==> k >= lo && (exists|j: int| 0 <= j < ms@.len() && ms@[j].0 == k) && forall|j: int|
            0 <= j < ms@.len() && ms@[j].0 >= lo ==> ms@[j].0 >= k,
        r is None ==> forall|j: int| 0 <= j < ms@.len() ==> ms@[j].0 < lo,
{
    let mut best: Option<u32> = None;
    let mut i: usize = 0;
    while i < ms.len()
        invariant
            i <= ms@.len(),
            best matches Some(k) ==> k >= lo && (exists|j: int| 0 <= j < i && ms@[j].0 == k) && forall|j: int|
                0 <= j < i && ms@[j].0 >= lo ==> ms@[j].0 >= k,
            best is None ==> forall|j: int| 0 <= j < i ==> ms@[j].0 < lo,
        decreases ms.len() - i,
    {
        let key = ms[i].0;
        if key as u64 >= lo {
            match best {
                None => {
                    best = Some(key);
                },
                Some(k) => {
                    if key < k {
                        best = Some(key);
                    }
                },
            }
        }
        i = i + 1;
    }
    best
}

/// The committees of the node with address `self_ip`, read from the lines of
/// the node file (`id-ip c1 c2l c3r`, committee marks `l` and `r` ignored):
/// for each committee whose member list (addresses in line order, joined by
/// spaces) contains `self_ip`, the committee id with that list, by
/// increasing id.
pub fn committee_table(lines: &Vec<String>, self_ip: &String) -> (r: Vec<(u32, String)>)
    requires
        forall|i: int| 0 <= i < lines@.len() ==> line_ok(#[trigger] lines@[i]@),
    ensures
        table_ok(r@, memberships(strings_view(lines@)), self_ip@),
{
    let ms = memberships_of(lines);
    let ghost m = pairs_view(ms@);
    assert(m.len() == ms@.len());
    let me = chars_of(self_ip.as_str());
    let mut space: Vec<char> = Vec::new();
    space.push(' ');
    assert(space@ =~= seq![' ']);
    let mut r: Vec<(u32, String)> = Vec::new();
    let mut lo: u64 = 0;
    loop
        invariant
            m == pairs_view(ms@),
            m == memberships(strings_view(lines@)),
            me@ == self_ip@,
            space@ == seq![' '],
            lo <= 0x1_0000_0000,
            forall|a: int, b: int| 0 <= a < b < r@.len() ==> (#[trigger] r@[a]).0 < (#[trigger] r@[b]).0,
            forall|k: int| 0 <= k < r@.len() ==> (#[trigger] r@[k]).0 < lo,
            forall|k: int|
                0 <= k < r@.len() ==> {
                    &&& members(m, (#[trigger] r@[k]).0).len() > 0
                    &&& r@[k].1@ == join(members(m, r@[k].0), seq![' '])
                    &&& contains_seq(r@[k].1@, self_ip@)
                },
            forall|c: u32|
                c < lo && members(m, c).len() > 0 && contains_seq(join(#[trigger] members(m, c), seq![' ']), self_ip@)
                    ==> exists|k: int| 0 <= k < r@.len() && r@[k].0 == c,
        ensures
            table_ok(r@, memberships(strings_view(lines@)), self_ip@),
        decreases 0x1_0000_0000 - lo,
    {
        match next_key(&ms, lo) {
            None => {
                proof {
                    assert forall|c: u32|
                        members(m, c).len() > 0 && contains_seq(join(#[trigger] members(m, c), seq![' ']), self_ip@)
                        implies exists|k: int| 0 <= k < r@.len() && r@[k].0 == c by {
                        lemma_members_nonempty(m, c);
                        let j = choose|j: int| 0 <= j < m.len() && m[j].0 == c;
                        assert(ms@[j].0 == m[j].0);
                    }
                }
                break;
            },
            Some(key) => {
                let list = members_of(&ms, key);
                let text = join_chars(&list, &space);
                let ghost before = r@;
                proof {
                    assert forall|c: u32| lo <= c < key implies members(m, c).len() == 0 by {
                        if members(m, c).len() > 0 {
                            lemma_members_nonempty(m, c);
                            let j = choose|j: int| 0 <= j < m.len() && m[j].0 == c;
                            assert(ms@[j].0 == m[j].0);
                        }
                    }
                    let j = choose|j: int| 0 <= j < ms@.len() && ms@[j].0 == key;
                    assert(m[j].0 == key);
                    assert(m.subrange(0, m.len() as int) =~= m);
                    assert(members(m, key).len() > 0) by {
                        lemma_members_has(m, key, j);
                    }
                }
                if contains_chars(&text, &me) {
                    r.push((key, string_of(&text)));
                    proof {
                        assert forall|a: int, b: int| 0 <= a < b < r@.len() implies (#[trigger] r@[a]).0 < (#[trigger] r@[b]).0 by {
                            if b < before.len() {
                                assert(r@[a] == before[a] && r@[b] == before[b]);
                            } else {
                                assert(r@[a] == before[a]);
                            }
                        }
                        assert forall|k: int| 0 <= k < r@.len() implies {
                            &&& members(m, (#[trigger] r@[k]).0).len() > 0
                            &&& r@[k].1@ == join(members(m, r@[k].0), seq![' '])
                            &&& contains_seq(r@[k].1@, self_ip@)
                        } by {
                            if k < before.len() {
                                assert(r@[k] == before[k]);
                            }
                        }
                        assert forall|c: u32|
                            c < key + 1 && members(m, c).len() > 0 && contains_seq(join(#[trigger] members(m, c), seq![' ']), self_ip@)
                            implies exists|k: int| 0 <= k < r@.len() && r@[k].0 == c by {
                            if c < lo {
                                let k = choose|k: int| 0 <= k < before.len() && before[k].0 == c;
                                assert(r@[k] == before[k]);
                            } else if c == key {
                                assert(r@[before.len() as int].0 == c);
                            }
                        }
                    }
                } else {
                    proof {
                        assert forall|c: u32|
                            c < key + 1 && members(m, c).len() > 0 && contains_seq(join(#[trigger] members(m, c), seq![' ']), self_ip@)
                            implies exists|k: int| 0 <= k < r@.len() && r@[k].0 == c by {
                            if c < lo {
                            } else if c == key {
                                assert(false);
                            }
                        }
                    }
                }
                lo = key as u64 + 1;
            },
        }
    }
    r
}

/// A committee with a membership has members.
proof fn lemma_members_has(ms: Seq<(u32, Seq<char>)>, c: u32, j: int)
    requires
        0 <= j < ms.len(),
        ms[j].0 == c,
    ensures
        members(ms, c).len() > 0,
    decreases ms.len(),
{
    if ms.last().0 != c {
        assert(j < ms.len() - 1);
        assert(ms.drop_last()[j] == ms[j]);
        lemma_members_has(ms.drop_last(), c, j);
    }
}


/// The node's own address, as the node file gives it: the address of the
/// line of the node's id (`args[2]`, counted from one) with port 7000 plus
/// the id.
pub fn own_address(node_lines: &Vec<String>, args: &Vec<String>) -> (a: PeerAddress)
    requires
        args_ok(strings_view(args@)),
        1 <= parse_bounded(args@[2]@, 10, u32::MAX as nat)->0 <= node_lines@.len(),
        forall|i: int| 0 <= i < node_lines@.len() ==> split(#[trigger] node_lines@[i]@, seq!['-']).len() >= 2,
    ensures
        a.host@ == split(node_lines@[parse_bounded(args@[2]@, 10, u32::MAX as nat)->0 - 1]@, seq!['-'])[1],
        a.port == own_port(strings_view(args@)),
{
    let ghost sv = strings_view(args@);
    assert(sv[2] == args@[2]@);
    let id = match parse_bounded_chars(&chars_of(args[2].as_str()), 10, u32::MAX as u64) {
        Some(v) => v,
        None => {
            assert(false);
            0
        },
    };
    let line = chars_of(node_lines[(id - 1) as usize].as_str());
    let mut dash: Vec<char> = Vec::new();
    dash.push('-');
    assert(dash@ =~= seq!['-']);
    let parts = split_chars(&line, &dash);
    assert(views(parts@)[1] == parts@[1]@);
    PeerAddress { host: string_of(&parts[1]), port: (7000 + id) as u16 }
}

/// The ports that the lines give, in order: each line (trimmed first when
/// `trim_lines` is set) read as a `u32`; lines that do not read are
/// skipped.
pub open spec fn kept_ports(lines: Seq<Seq<char>>, trim_lines: bool) -> Seq<u32>
    decreases lines.len(),
{
    if lines.len() == 0 {
        Seq::empty()
    } else {
        let rest = kept_ports(lines.drop_last(), trim_lines);
        let text = if trim_lines {
            trim(lines.last())
        } else {
            lines.last()
        };
        match parse_bounded(text, 10, u32::MAX as nat) {
            Some(v) => rest.push(v as u32),
            None => rest,
        }
    }
}

/// Reads the port list of a ports file, given as its lines.
pub fn parse_ports(lines: &Vec<String>, trim_lines: bool) -> (r: Vec<u32>)
    ensures
        r@ == kept_ports(strings_view(lines@), trim_lines),
{
    let ghost ls = strings_view(lines@);
    let mut r: Vec<u32> = Vec::new();
    let mut i: usize = 0;
    while i < lines.len()
        invariant
            i <= lines@.len(),
            ls == strings_view(lines@),
            r@ == kept_ports(ls.subrange(0, i as int), trim_lines),
        decreases lines.len() - i,
    {
        assert(ls.subrange(0, i + 1).drop_last() =~= ls.subrange(0, i as int));
        assert(ls.subrange(0, i + 1).last() == lines@[i as int]@);
        let raw = chars_of(lines[i].as_str());
        let text = if trim_lines {
            trim_chars(&raw)
        } else {
            raw
        };
        match parse_bounded_chars(&text, 10, u32::MAX as u64) {
            Some(v) => {
                r.push(v as u32);
            },
            None => {},
        }
        i = i + 1;
    }
    assert(ls.subrange(0, i as int) =~= ls);
    r
}


/// Each piece occurs in the pieces joined.
proof fn lemma_join_contains(p: Seq<Seq<char>>, sep: Seq<char>, k: int)
    requires
        0 <= k < p.len(),
    ensures
        contains_seq(join(p, sep), p[k]),
    decreases p.len(),
{
    let j = join(p, sep);
    if p.len() == 1 {
        assert(j.subrange(0, p[0].len() as int) =~= p[0]);
        assert(matches_at(j, p[k], 0));
    } else {
        let front = join(p.drop_last(), sep) + sep;
        assert(j == front + p.last());
        if k == p.len() - 1 {
            let at = front.len() as int;
            assert(j.subrange(at, at + p[k].len()) =~= p[k]);
            assert(matches_at(j, p[k], at));
        } else {
            assert(p.drop_last()[k] == p[k]);
            lemma_join_contains(p.drop_last(), sep, k);
            let a = join(p.drop_last(), sep);
            let at = choose|at: int| matches_at(a, p[k], at);
            assert(j.subrange(at, at + p[k].len()) =~= a.subrange(at, at + p[k].len()));
            assert(matches_at(j, p[k], at));
        }
    }
}

/// The member of a membership is among the committee's members.
proof fn lemma_members_include(ms: Seq<(u32, Seq<char>)>, j: int)
    requires
        0 <= j < ms.len(),
    ensures
        exists|x: int| 0 <= x < members(ms, ms[j].0).len() && members(ms, ms[j].0)[x] == ms[j].1,
    decreases ms.len(),
{
    let c = ms[j].0;
    let m = members(ms, c);
    if j == ms.len() - 1 {
        assert(m == members(ms.drop_last(), c).push(ms.last().1));
        let x = m.len() - 1;
        assert(0 <= x < m.len() && m[x] == ms[j].1);
    } else {
        assert(ms.drop_last()[j] == ms[j]);
        lemma_members_include(ms.drop_last(), j);
        let x = choose|x: int| 0 <= x < members(ms.drop_last(), c).len() && members(ms.drop_last(), c)[x] == ms[j].1;
        if ms.last().0 == c {
            assert(m == members(ms.drop_last(), c).push(ms.last().1));
            assert(m[x] == members(ms.drop_last(), c)[x]);
        } else {
            assert(m == members(ms.drop_last(), c));
        }
        assert(0 <= x < m.len() && m[x] == ms[j].1);
    }
}

/// The memberships of every line are among all the memberships.
proof fn lemma_memberships_include(lines: Seq<Seq<char>>, i: int, k: int)
    requires
        0 <= i < lines.len(),
        1 <= k < line_fields(lines[i]).len(),
    ensures
        exists|j: int|
            0 <= j < memberships(lines).len() && memberships(lines)[j] == (
                committee_id(line_fields(lines[i])[k]),
                line_fields(lines[i])[0],
            ),
    decreases lines.len(),
{
    let prev = memberships(lines.drop_last());
    let all = memberships(lines);
    assert(all == prev + line_memberships(lines.last()));
    if i == lines.len() - 1 {
        let j = prev.len() + k - 1;
        assert(all[j] == line_memberships(lines.last())[k - 1]);
    } else {
        assert(lines.drop_last()[i] == lines[i]);
        lemma_memberships_include(lines.drop_last(), i, k);
        let j = choose|j: int|
            0 <= j < prev.len() && prev[j] == (committee_id(line_fields(lines[i])[k]), line_fields(lines[i])[0]);
        assert(all[j] == prev[j]);
    }
}

/// A node takes part in every committee that its own line names: in a
/// committee table for `self_ip`, each committee field of a line whose
/// address is `self_ip` has its committee.
pub proof fn lemma_own_committees(
    lines: Seq<Seq<char>>,
    self_ip: Seq<char>,
    r: Seq<(u32, String)>,
    i: int,
    k: int,
)
    requires
        table_ok(r, memberships(lines), self_ip),
        0 <= i < lines.len(),
        line_fields(lines[i])[0] == self_ip,
        1 <= k < line_fields(lines[i]).len(),
    ensures
        exists|e: int| 0 <= e < r.len() && r[e].0 == committee_id(line_fields(lines[i])[k]),
{
    let ms = memberships(lines);
    let c = committee_id(line_fields(lines[i])[k]);
    lemma_memberships_include(lines, i, k);
    let j = choose|j: int| 0 <= j < ms.len() && ms[j] == (c, line_fields(lines[i])[0]);
    lemma_members_include(ms, j);
    let x = choose|x: int| 0 <= x < members(ms, c).len() && members(ms, c)[x] == self_ip;
    lemma_join_contains(members(ms, c), seq![' '], x);
    assert(members(ms, c).len() > 0 && contains_seq(join(members(ms, c), seq![' ']), self_ip));
}

/// The members of a committee, from the entries of the committee table
/// joined with spaces: the entries split at each space.
pub fn committee_members(combined: &String) -> (r: Vec<String>)
    ensures
        strings_view(r@) == split(combined@, seq![' ']),
{
    let mut sep: Vec<char> = Vec::new();
    sep.push(' ');
    assert(sep@ =~= seq![' ']);
    let parts = split_chars(&chars_of(combined.as_str()), &sep);
    let mut r: Vec<String> = Vec::new();
    let mut i: usize = 0;
    while i < parts.len()
        invariant
            i <= parts@.len(),
            views(parts@) == split(combined@, seq![' ']),
            strings_view(r@) == views(parts@).subrange(0, i as int),
        decreases parts.len() - i,
    {
        let t = string_of(&parts[i]);
        let ghost before = r@;
        r.push(t);
        proof {
            assert(strings_view(r@) =~= strings_view(before).push(t@));
            assert(views(parts@).subrange(0, i + 1) =~= views(parts@).subrange(0, i as int).push(parts@[i as int]@));
        }
        i = i + 1;
    }
    assert(views(parts@).subrange(0, i as int) =~= views(parts@));
    r
}

} // verus!
