//! Text handling on character sequences: conversion between `String` and
//! `Vec<char>`, splitting, joining, searching and number formatting.
use vstd::prelude::*;

verus! {

pub assume_specification[ String::push ](s: &mut String, ch: char)
    ensures
        final(s)@ == old(s)@.push(ch),
;

/// The characters of `s`, in order.
pub fn chars_of(s: &str) -> (v: Vec<char>)
    ensures
        v@ == s@,
{
    let n = s.unicode_len();
    let mut v: Vec<char> = Vec::new();
    let mut i: usize = 0;
    while i < n
        invariant
            n == s@.len(),
            i <= n,
            v@ == s@.subrange(0, i as int),
        decreases n - i,
    {
        v.push(s.get_char(i));
        i = i + 1;
    }
    v
}

/// The string made of the characters of `v`.
pub fn string_of(v: &Vec<char>) -> (s: String)
    ensures
        s@ == v@,
{
    let mut s = String::new();
    let mut i: usize = 0;
    while i < v.len()
        invariant
            i <= v.len(),
            s@ == v@.subrange(0, i as int),
        decreases v.len() - i,
    {
        s.push(v[i]);
        i = i + 1;
    }
    s
}


/// `sep` occurs in `s` starting at position `i`.
pub open spec fn matches_at(s: Seq<char>, sep: Seq<char>, i: int) -> bool {
    0 <= i && i + sep.len() <= s.len() && s.subrange(i, i + sep.len()) == sep
}

/// The first position at or after `start` where `sep` occurs in `s`.
pub open spec fn find_from(s: Seq<char>, sep: Seq<char>, start: int) -> Option<int>
    decreases s.len() + 1 - start,
{
    if start < 0 || start + sep.len() > s.len() {
        None
    } else if matches_at(s, sep, start) {
        Some(start)
    } else {
        find_from(s, sep, start + 1)
    }
}

/// `t` occurs somewhere in `s` (the empty sequence occurs in every sequence).
pub open spec fn contains_seq(s: Seq<char>, t: Seq<char>) -> bool {
    exists|i: int| matches_at(s, t, i)
}

pub proof fn lemma_find_from(s: Seq<char>, sep: Seq<char>, start: int)
    requires
        0 <= start,
    ensures
        find_from(s, sep, start) matches Some(i) ==> start <= i && matches_at(s, sep, i)
            && forall|j: int| start <= j < i ==> !matches_at(s, sep, j),
        find_from(s, sep, start) is None ==> forall|j: int|
            start <= j ==> !matches_at(s, sep, j),
    decreases s.len() + 1 - start,
{
    if start + sep.len() > s.len() {
    } else if matches_at(s, sep, start) {
    } else {
        lemma_find_from(s, sep, start + 1);
    }
}

pub proof fn lemma_find_from_is(s: Seq<char>, sep: Seq<char>, start: int, i: int)
    requires
        0 <= start <= i,
        matches_at(s, sep, i),
        forall|j: int| start <= j < i ==> !matches_at(s, sep, j),
    ensures
        find_from(s, sep, start) == Some(i),
    decreases i - start,
{
    if start < i {
        lemma_find_from_is(s, sep, start + 1, i);
    }
}

pub proof fn lemma_find_from_none(s: Seq<char>, sep: Seq<char>, start: int)
    requires
        0 <= start,
        forall|j: int| start <= j ==> !matches_at(s, sep, j),
    ensures
        find_from(s, sep, start) is None,
    decreases s.len() + 1 - start,
{
    if start + sep.len() <= s.len() {
        lemma_find_from_none(s, sep, start + 1);
    }
}

/// The pieces of `s` between the non-overlapping occurrences of `sep`,
/// scanning from the left (the behaviour of `str::split` with a non-empty
/// string pattern).
pub open spec fn split(s: Seq<char>, sep: Seq<char>) -> Seq<Seq<char>>
    decreases s.len(),
{
    if sep.len() == 0 {
        seq![s]
    } else {
        match find_from(s, sep, 0) {
            None => seq![s],
            Some(i) => {
                proof {
                    lemma_find_from(s, sep, 0);
                }
                seq![s.subrange(0, i)] + split(s.subrange(i + sep.len(), s.len() as int), sep)
            },
        }
    }
}

/// The views of a sequence of character vectors.
pub open spec fn views(v: Seq<Vec<char>>) -> Seq<Seq<char>> {
    v.map_values(|p: Vec<char>| p@)
}

/// The characters of `s` from `a` up to, not including, `b`.
pub fn slice_chars(s: &Vec<char>, a: usize, b: usize) -> (v: Vec<char>)
    requires
        a <= b <= s.len(),
    ensures
        v@ == s@.subrange(a as int, b as int),
{
    let mut v: Vec<char> = Vec::new();
    let mut i = a;
    while i < b
        invariant
            a <= i <= b <= s.len(),
            v@ == s@.subrange(a as int, i as int),
        decreases b - i,
    {
        v.push(s[i]);
        i = i + 1;
    }
    v
}

/// Whether `sep` occurs in `s` at position `i`.
pub fn matches_here(s: &Vec<char>, sep: &Vec<char>, i: usize) -> (b: bool)
    ensures
        b == matches_at(s@, sep@, i as int),
{
    if i > s.len() || sep.len() > s.len() - i {
        return false;
    }
    let mut k: usize = 0;
    while k < sep.len()
        invariant
            i + sep.len() <= s.len(),
            k <= sep.len(),
            forall|m: int| 0 <= m < k ==> s@[i + m] == sep@[m],
        decreases sep.len() - k,
    {
        if s[i + k] != sep[k] {
            assert(s@.subrange(i as int, i + sep.len())[k as int] != sep@[k as int]);
            return false;
        }
        k = k + 1;
    }
    assert(s@.subrange(i as int, i + sep.len()) =~= sep@);
    true
}

proof fn lemma_matches_shift(s: Seq<char>, sep: Seq<char>, start: int, k: int)
    requires
        0 <= start <= s.len(),
    ensures
        matches_at(s.subrange(start, s.len() as int), sep, k) == (0 <= k && matches_at(
            s,
            sep,
            start + k,
        )),
{
    let t = s.subrange(start, s.len() as int);
    if 0 <= k && k + sep.len() <= t.len() {
        assert(t.subrange(k, k + sep.len()) =~= s.subrange(start + k, start + k + sep.len()));
    }
}

/// Splits `s` at every occurrence of `sep`, as `str::split` does.
pub fn split_chars(s: &Vec<char>, sep: &Vec<char>) -> (parts: Vec<Vec<char>>)
    requires
        sep.len() > 0,
    ensures
        views(parts@) == split(s@, sep@),
{
    let mut parts: Vec<Vec<char>> = Vec::new();
    let mut start: usize = 0;
    let mut j: usize = 0;
    let ghost whole = split(s@, sep@);
    proof {
        assert(s@.subrange(0, s@.len() as int) =~= s@);
        assert(views(parts@) + split(s@.subrange(0, s@.len() as int), sep@) =~= whole);
    }
    while j < s.len()
        invariant
            sep.len() > 0,
            start <= j <= s.len(),
            whole == split(s@, sep@),
            views(parts@) + split(s@.subrange(start as int, s@.len() as int), sep@) == whole,
            forall|k: int| start <= k < j ==> !matches_at(s@, sep@, k),
        decreases s.len() - j,
    {
        if matches_here(s, sep, j) {
            let ghost rest = s@.subrange(start as int, s@.len() as int);
            proof {
                assert forall|k: int| 0 <= k < j - start implies !matches_at(rest, sep@, k) by {
                    lemma_matches_shift(s@, sep@, start as int, k);
                }
                lemma_matches_shift(s@, sep@, start as int, j - start);
                lemma_find_from_is(rest, sep@, 0, j - start);
                assert(rest.subrange(0, j - start) =~= s@.subrange(start as int, j as int));
                assert(rest.subrange(j - start + sep@.len(), rest.len() as int) =~= s@.subrange(
                    j + sep@.len(),
                    s@.len() as int,
                ));
            }
            let piece = slice_chars(s, start, j);
            let ghost before = parts@;
            parts.push(piece);
            proof {
                assert(views(parts@) =~= views(before).push(piece@));
            }
            start = j + sep.len();
            j = start;
            proof {
                assert(views(parts@) + split(s@.subrange(start as int, s@.len() as int), sep@)
                    =~= whole);
            }
        } else {
            j = j + 1;
        }
    }
    let ghost rest = s@.subrange(start as int, s@.len() as int);
    proof {
        assert forall|k: int| 0 <= k implies !matches_at(rest, sep@, k) by {
            lemma_matches_shift(s@, sep@, start as int, k);
            if start + k < j {
            } else {
            }
        }
        lemma_find_from_none(rest, sep@, 0);
    }
    let last = slice_chars(s, start, s.len());
    let ghost before = parts@;
    parts.push(last);
    proof {
        assert(views(parts@) =~= views(before).push(last@));
    }
    proof {
        assert(views(parts@) =~= whole);
    }
    parts
}

/// The pieces joined, with `sep` between consecutive pieces.
pub open spec fn join(parts: Seq<Seq<char>>, sep: Seq<char>) -> Seq<char>
    decreases parts.len(),
{
    if parts.len() == 0 {
        Seq::empty()
    } else if parts.len() == 1 {
        parts[0]
    } else {
        join(parts.drop_last(), sep) + sep + parts.last()
    }
}

/// `s` with every occurrence of `from` replaced by `to`, as `str::replace`
/// does for a non-empty pattern.
pub open spec fn replace(s: Seq<char>, from: Seq<char>, to: Seq<char>) -> Seq<char> {
    join(split(s, from), to)
}

/// Appends the characters of `b` to `a`.
pub fn extend_chars(a: &mut Vec<char>, b: &Vec<char>)
    ensures
        final(a)@ == old(a)@ + b@,
{
    let mut i: usize = 0;
    while i < b.len()
        invariant
            i <= b.len(),
            a@ == old(a)@ + b@.subrange(0, i as int),
        decreases b.len() - i,
    {
        a.push(b[i]);
        i = i + 1;
    }
    assert(b@.subrange(0, b@.len() as int) =~= b@);
}

/// Joins the pieces with `sep` between consecutive ones.
pub fn join_chars(parts: &Vec<Vec<char>>, sep: &Vec<char>) -> (r: Vec<char>)
    ensures
        r@ == join(views(parts@), sep@),
{
    let mut r: Vec<char> = Vec::new();
    let mut i: usize = 0;
    while i < parts.len()
        invariant
            i <= parts.len(),
            r@ == join(views(parts@.subrange(0, i as int)), sep@),
        decreases parts.len() - i,
    {
        let ghost before = r@;
        if i > 0 {
            extend_chars(&mut r, sep);
        }
        extend_chars(&mut r, &parts[i]);
        proof {
            let p = views(parts@.subrange(0, i + 1));
            assert(p.drop_last() =~= views(parts@.subrange(0, i as int)));
            assert(p.last() == parts@[i as int]@);
            if i == 0 {
                assert(p.len() == 1);
                assert(before =~= Seq::<char>::empty());
                assert(r@ =~= p[0]);
            }
        }
        i = i + 1;
    }
    assert(parts@.subrange(0, parts@.len() as int) =~= parts@);
    r
}

/// Replaces every occurrence of `from` in `s` by `to`.
pub fn replace_chars(s: &Vec<char>, from: &Vec<char>, to: &Vec<char>) -> (r: Vec<char>)
    requires
        from.len() > 0,
    ensures
        r@ == replace(s@, from@, to@),
{
    let parts = split_chars(s, from);
    join_chars(&parts, to)
}

/// `c` is white space in the sense of `char::is_whitespace`.
pub open spec fn is_space(c: char) -> bool {
    let v = c as u32;
    v == 32 || (9 <= v <= 13) || v == 0x85 || v == 0xa0 || v == 0x1680 || (0x2000 <= v <= 0x200a)
        || v == 0x2028 || v == 0x2029 || v == 0x202f || v == 0x205f || v == 0x3000
}

/// `s` without its leading white space.
pub open spec fn trim_start(s: Seq<char>) -> Seq<char>
    decreases s.len(),
{
    if s.len() > 0 && is_space(s[0]) {
        trim_start(s.drop_first())
    } else {
        s
    }
}

/// `s` without its trailing white space.
pub open spec fn trim_end(s: Seq<char>) -> Seq<char>
    decreases s.len(),
{
    if s.len() > 0 && is_space(s.last()) {
        trim_end(s.drop_last())
    } else {
        s
    }
}

/// `s` without leading and trailing white space, as `str::trim`.
pub open spec fn trim(s: Seq<char>) -> Seq<char> {
    trim_end(trim_start(s))
}

/// `s` without any leading `c`, as `str::trim_start_matches(c)`.
pub open spec fn strip_leading(s: Seq<char>, c: char) -> Seq<char>
    decreases s.len(),
{
    if s.len() > 0 && s[0] == c {
        strip_leading(s.drop_first(), c)
    } else {
        s
    }
}

/// `s` without any trailing `c`, as `str::trim_end_matches(c)`.
pub open spec fn strip_trailing(s: Seq<char>, c: char) -> Seq<char>
    decreases s.len(),
{
    if s.len() > 0 && s.last() == c {
        strip_trailing(s.drop_last(), c)
    } else {
        s
    }
}

proof fn lemma_trim_start_at(s: Seq<char>, a: int)
    requires
        0 <= a <= s.len(),
        forall|k: int| 0 <= k < a ==> is_space(s[k]),
        a == s.len() || !is_space(s[a]),
    ensures
        trim_start(s) == s.subrange(a, s.len() as int),
    decreases a,
{
    if a == 0 {
        assert(s.subrange(0, s.len() as int) =~= s);
    } else {
        lemma_trim_start_at(s.drop_first(), a - 1);
        assert(s.drop_first().subrange(a - 1, s.len() - 1) =~= s.subrange(a, s.len() as int));
    }
}

proof fn lemma_trim_end_at(s: Seq<char>, b: int)
    requires
        0 <= b <= s.len(),
        forall|k: int| b <= k < s.len() ==> is_space(s[k]),
        b == 0 || !is_space(s[b - 1]),
    ensures
        trim_end(s) == s.subrange(0, b),
    decreases s.len() - b,
{
    if b == s.len() {
        assert(s.subrange(0, s.len() as int) =~= s);
    } else {
        lemma_trim_end_at(s.drop_last(), b);
        assert(s.drop_last().subrange(0, b) =~= s.subrange(0, b));
    }
}

pub proof fn lemma_strip_leading_at(s: Seq<char>, c: char, a: int)
    requires
        0 <= a <= s.len(),
        forall|k: int| 0 <= k < a ==> s[k] == c,
        a == s.len() || s[a] != c,
    ensures
        strip_leading(s, c) == s.subrange(a, s.len() as int),
    decreases a,
{
    if a == 0 {
        assert(s.subrange(0, s.len() as int) =~= s);
    } else {
        lemma_strip_leading_at(s.drop_first(), c, a - 1);
        assert(s.drop_first().subrange(a - 1, s.len() - 1) =~= s.subrange(a, s.len() as int));
    }
}

pub proof fn lemma_strip_trailing_at(s: Seq<char>, c: char, b: int)
    requires
        0 <= b <= s.len(),
        forall|k: int| b <= k < s.len() ==> s[k] == c,
        b == 0 || s[b - 1] != c,
    ensures
        strip_trailing(s, c) == s.subrange(0, b),
    decreases s.len() - b,
{
    if b == s.len() {
        assert(s.subrange(0, s.len() as int) =~= s);
    } else {
        lemma_strip_trailing_at(s.drop_last(), c, b);
        assert(s.drop_last().subrange(0, b) =~= s.subrange(0, b));
    }
}

/// Whether `c` is white space.
pub fn char_is_space(c: char) -> (b: bool)
    ensures
        b == is_space(c),
{
    let v = c as u32;
    v == 32 || (9 <= v && v <= 13) || v == 0x85 || v == 0xa0 || v == 0x1680 || (0x2000 <= v && v
        <= 0x200a) || v == 0x2028 || v == 0x2029 || v == 0x202f || v == 0x205f || v == 0x3000
}

/// Removes leading and trailing white space.
pub fn trim_chars(s: &Vec<char>) -> (r: Vec<char>)
    ensures
        r@ == trim(s@),
{
    let mut a: usize = 0;
    while a < s.len() && char_is_space(s[a])
        invariant
            a <= s.len(),
            forall|k: int| 0 <= k < a ==> is_space(s@[k]),
        decreases s.len() - a,
    {
        a = a + 1;
    }
    proof {
        lemma_trim_start_at(s@, a as int);
    }
    let mut b: usize = s.len();
    while b > a && char_is_space(s[b - 1])
        invariant
            a <= b <= s.len(),
            forall|k: int| b <= k < s.len() ==> is_space(s@[k]),
        decreases b - a,
    {
        b = b - 1;
    }
    proof {
        let t = s@.subrange(a as int, s@.len() as int);
        assert forall|k: int| b - a <= k < t.len() implies is_space(t[k]) by {}
        lemma_trim_end_at(t, b - a);
        assert(t.subrange(0, b - a) =~= s@.subrange(a as int, b as int));
    }
    slice_chars(s, a, b)
}

/// Removes every leading `first` and every trailing `last`.
pub fn strip_chars(s: &Vec<char>, first: char, last: char) -> (r: Vec<char>)
    ensures
        r@ == strip_trailing(strip_leading(s@, first), last),
{
    let mut a: usize = 0;
    while a < s.len() && s[a] == first
        invariant
            a <= s.len(),
            forall|k: int| 0 <= k < a ==> s@[k] == first,
        decreases s.len() - a,
    {
        a = a + 1;
    }
    proof {
        lemma_strip_leading_at(s@, first, a as int);
    }
    let mut b: usize = s.len();
    while b > a && s[b - 1] == last
        invariant
            a <= b <= s.len(),
            forall|k: int| b <= k < s.len() ==> s@[k] == last,
        decreases b - a,
    {
        b = b - 1;
    }
    proof {
        let t = s@.subrange(a as int, s@.len() as int);
        lemma_strip_trailing_at(t, last, b - a);
        assert(t.subrange(0, b - a) =~= s@.subrange(a as int, b as int));
    }
    slice_chars(s, a, b)
}

/// The decimal digit character for `d < 10`.
pub open spec fn digit_char(d: nat) -> char {
    ((d + 48) as u32) as char
}

/// The decimal notation of `n`, as `to_string` writes it.
pub open spec fn decimal(n: nat) -> Seq<char>
    decreases n,
{
    if n < 10 {
        seq![digit_char(n)]
    } else {
        decimal(n / 10).push(digit_char(n % 10))
    }
}

/// The value of the digit `c` in base `radix`, as `char::to_digit`.
pub open spec fn digit_value(c: char, radix: nat) -> Option<nat> {
    let v = c as u32;
    let d: int = if 48 <= v <= 57 {
        v - 48
    } else if 97 <= v <= 122 {
        v - 87
    } else if 65 <= v <= 90 {
        v - 55
    } else {
        radix as int
    };
    if d < radix {
        Some(d as nat)
    } else {
        None
    }
}

/// The value of a digit string (the empty string has value zero).
pub open spec fn digits_value(d: Seq<char>, radix: nat) -> Option<nat>
    decreases d.len(),
{
    if d.len() == 0 {
        Some(0)
    } else {
        match (digits_value(d.drop_last(), radix), digit_value(d.last(), radix)) {
            (Some(a), Some(b)) => Some(a * radix + b),
            _ => None,
        }
    }
}

/// The value that `from_str_radix` reads from `s` for an unsigned type,
/// before its range check: an optional `+` followed by at least one digit.
pub open spec fn parse_uint(s: Seq<char>, radix: nat) -> Option<nat> {
    if s.len() == 0 {
        None
    } else if s[0] == '+' {
        if s.len() == 1 {
            None
        } else {
            digits_value(s.drop_first(), radix)
        }
    } else {
        digits_value(s, radix)
    }
}

/// The value that `str::parse` gives for an unsigned type whose largest
/// value is `max`, or `None` where it returns an error.
pub open spec fn parse_bounded(s: Seq<char>, radix: nat, max: nat) -> Option<nat> {
    match parse_uint(s, radix) {
        Some(v) => if v <= max {
            Some(v)
        } else {
            None
        },
        None => None,
    }
}

/// The character of a decimal digit.
pub fn digit_to_char(d: u8) -> (c: char)
    requires
        d < 10,
    ensures
        c == digit_char(d as nat),
{
    let v: u32 = d as u32 + 48;
    let c = char_from_digit_code(v);
    c
}

fn char_from_digit_code(v: u32) -> (c: char)
    requires
        48 <= v <= 57,
    ensures
        c == (v as char),
{
    if v == 48 { '0' }
    else if v == 49 { '1' }
    else if v == 50 { '2' }
    else if v == 51 { '3' }
    else if v == 52 { '4' }
    else if v == 53 { '5' }
    else if v == 54 { '6' }
    else if v == 55 { '7' }
    else if v == 56 { '8' }
    else { '9' }
}

/// The decimal notation of `n`.
pub fn decimal_chars(n: u64) -> (r: Vec<char>)
    ensures
        r@ == decimal(n as nat),
    decreases n,
{
    if n < 10 {
        let mut r: Vec<char> = Vec::new();
        r.push(digit_to_char(n as u8));
        proof {
            assert(r@ =~= seq![digit_char(n as nat)]);
        }
        r
    } else {
        let mut r = decimal_chars(n / 10);
        r.push(digit_to_char((n % 10) as u8));
        r
    }
}

/// The value of the digit `c` in base `radix`, if it is one.
pub fn digit_of(c: char, radix: u32) -> (r: Option<u32>)
    requires
        2 <= radix <= 36,
    ensures
        r matches Some(d) ==> digit_value(c, radix as nat) == Some(d as nat),
        r is None ==> digit_value(c, radix as nat) is None,
{
    let v = c as u32;
    let d: u32 = if 48 <= v && v <= 57 {
        v - 48
    } else if 97 <= v && v <= 122 {
        v - 87
    } else if 65 <= v && v <= 90 {
        v - 55
    } else {
        radix
    };
    if d < radix {
        Some(d)
    } else {
        None
    }
}

/// Parses `s` as `str::parse` does for an unsigned type whose largest value is
/// `max`, in base `radix`.
pub fn parse_bounded_chars(s: &Vec<char>, radix: u32, max: u64) -> (r: Option<u64>)
    requires
        2 <= radix <= 36,
    ensures
        r matches Some(v) ==> parse_bounded(s@, radix as nat, max as nat) == Some(v as nat),
        r is None ==> parse_bounded(s@, radix as nat, max as nat) is None,
{
    if s.len() == 0 {
        return None;
    }
    let mut i: usize = 0;
    if s[0] == '+' {
        if s.len() == 1 {
            return None;
        }
        i = 1;
    }
    let ghost start = i as int;
    let ghost digits = s@.subrange(start, s@.len() as int);
    proof {
        if start == 1 {
            assert(digits =~= s@.drop_first());
        } else {
            assert(digits =~= s@);
        }
    }
    let mut acc: u64 = 0;
    let mut over = false;
    while i < s.len()
        invariant
            2 <= radix <= 36,
            0 <= start <= i <= s.len(),
            digits == s@.subrange(start, s@.len() as int),
            parse_uint(s@, radix as nat) == digits_value(digits, radix as nat),
            !over ==> digits_value(s@.subrange(start, i as int), radix as nat) == Some(
                acc as nat,
            ),
            !over ==> acc <= max,
            over ==> match digits_value(s@.subrange(start, i as int), radix as nat) {
                Some(v) => v > max,
                None => true,
            },
        decreases s.len() - i,
    {
        let ghost pre = s@.subrange(start, i as int);
        let ghost next = s@.subrange(start, i + 1);
        proof {
            assert(next.drop_last() =~= pre);
            assert(next.last() == s@[i as int]);
        }
        match digit_of(s[i], radix) {
            None => {
                proof {
                    lemma_digits_invalid_extends(s@, start, i as int + 1, radix as nat);
                }
                return None;
            },
            Some(d) => {
                if !over {
                    if d as u64 > max {
                        over = true;
                        proof {
                            assert(acc as nat * radix as nat + d as nat > max) by (nonlinear_arith)
                                requires
                                    d > max,
                            ;
                        }
                    } else {
                        let lim: u64 = (max - d as u64) / radix as u64;
                        if acc > lim {
                            over = true;
                            proof {
                                let (a, r, dd, m, l) = (acc as int, radix as int, d as int, max as int, lim as int);
                                assert(a * r + dd > m) by (nonlinear_arith)
                                    requires
                                        a > l,
                                        l == (m - dd) / r,
                                        r >= 2,
                                        dd <= m,
                                ;
                            }
                        } else {
                            proof {
                                let (a, r, dd, m, l) = (acc as int, radix as int, d as int, max as int, lim as int);
                                assert(a * r + dd <= m) by (nonlinear_arith)
                                    requires
                                        0 <= a <= l,
                                        l == (m - dd) / r,
                                        r >= 2,
                                        0 <= dd <= m,
                                ;
                            }
                            acc = acc * radix as u64 + d as u64;
                        }
                    }
                } else {
                    proof {
                        match digits_value(pre, radix as nat) {
                            Some(v) => {
                                assert(v * radix + d >= v) by (nonlinear_arith)
                                    requires
                                        radix >= 2,
                                ;
                            },
                            None => {},
                        }
                    }
                }
            },
        }
        i = i + 1;
    }
    proof {
        assert(s@.subrange(start, s@.len() as int) =~= digits);
    }
    if over {
        None
    } else {
        Some(acc)
    }
}

proof fn lemma_digits_invalid_extends(s: Seq<char>, start: int, i: int, radix: nat)
    requires
        0 <= start <= i <= s.len(),
        digits_value(s.subrange(start, i), radix) is None,
    ensures
        digits_value(s.subrange(start, s.len() as int), radix) is None,
    decreases s.len() - i,
{
    if i < s.len() {
        let next = s.subrange(start, i + 1);
        assert(next.drop_last() =~= s.subrange(start, i));
        lemma_digits_invalid_extends(s, start, i + 1, radix);
    }
}

/// The lower-case hexadecimal digit character for `d < 16`.
pub open spec fn hex_digit_char(d: nat) -> char {
    if d < 10 {
        ((d + 48) as u32) as char
    } else {
        ((d + 87) as u32) as char
    }
}

/// The lower-case hexadecimal notation of the bytes, two digits per byte.
pub open spec fn hex_lower(b: Seq<u8>) -> Seq<char> {
    Seq::new(
        2 * b.len(),
        |j: int|
            if j % 2 == 0 {
                hex_digit_char((b[j / 2] / 16) as nat)
            } else {
                hex_digit_char((b[j / 2] % 16) as nat)
            },
    )
}

/// The number of two-character chunks of `s` (the last may be shorter).
pub open spec fn chunk_count(s: Seq<char>) -> nat {
    ((s.len() + 1) / 2) as nat
}

/// The `k`-th chunk of two characters of `s`.
pub open spec fn chunk2(s: Seq<char>, k: int) -> Seq<char> {
    s.subrange(2 * k, if 2 * k + 2 <= s.len() {
        2 * k + 2
    } else {
        s.len() as int
    })
}

/// Every character of `s` is ASCII.
pub open spec fn all_ascii(s: Seq<char>) -> bool {
    forall|i: int| 0 <= i < s.len() ==> (s[i] as u32) < 128
}

/// The bytes read from `s` two characters at a time, each chunk as a
/// hexadecimal `u8`, or `None` where a chunk does not parse.
pub open spec fn hex_decode(s: Seq<char>) -> Option<Seq<u8>> {
    if forall|k: int| 0 <= k < chunk_count(s) ==> parse_bounded(chunk2(s, k), 16, 255) is Some {
        Some(
            Seq::new(chunk_count(s), |k: int| parse_bounded(chunk2(s, k), 16, 255)->0 as u8),
        )
    } else {
        None
    }
}

/// Reads `s` two characters at a time, each chunk as a hexadecimal byte.
pub fn hex_decode_chars(s: &Vec<char>) -> (r: Option<Vec<u8>>)
    ensures
        r matches Some(b) ==> hex_decode(s@) == Some(b@),
        r is None ==> hex_decode(s@) is None,
{
    let mut out: Vec<u8> = Vec::new();
    let n = s.len();
    let count: usize = n / 2 + n % 2;
    assert(count == chunk_count(s@));
    let mut k: usize = 0;
    while k < count
        invariant
            n == s.len(),
            count == chunk_count(s@),
            k <= count,
            out.len() == k,
            forall|j: int|
                0 <= j < out.len() ==> parse_bounded(chunk2(s@, j), 16, 255) == Some(
                    out@[j] as nat,
                ),
        decreases count - k,
    {
        let i = 2 * k;
        let end = if n - i >= 2 {
            i + 2
        } else {
            n
        };
        let chunk = slice_chars(s, i, end);
        assert(chunk@ == chunk2(s@, k as int));
        match parse_bounded_chars(&chunk, 16, 255) {
            None => {
                return None;
            },
            Some(v) => {
                out.push(v as u8);
            },
        }
        k = k + 1;
    }
    proof {
        assert forall|j: int| 0 <= j < chunk_count(s@) implies parse_bounded(chunk2(s@, j), 16, 255)
            is Some by {}
        assert(out@ =~= Seq::new(
            chunk_count(s@),
            |j: int| parse_bounded(chunk2(s@, j), 16, 255)->0 as u8,
        ));
    }
    Some(out)
}

/// The notation of a byte list that `{:?}` gives: `[1, 2, 3]`.
pub open spec fn debug_bytes(b: Seq<u8>) -> Seq<char> {
    seq!['['] + join(Seq::new(b.len(), |k: int| decimal(b[k] as nat)), seq![',', ' ']) + seq![']']
}

/// The decimal notations of the bytes.
pub open spec fn byte_decimals(b: Seq<u8>) -> Seq<Seq<char>> {
    Seq::new(b.len(), |k: int| decimal(b[k] as nat))
}

/// Writes the bytes as `{:?}` does: `[1, 2, 3]`.
pub fn debug_bytes_chars(b: &Vec<u8>) -> (r: Vec<char>)
    ensures
        r@ == debug_bytes(b@),
{
    let mut parts: Vec<Vec<char>> = Vec::new();
    let mut i: usize = 0;
    while i < b.len()
        invariant
            i <= b.len(),
            views(parts@) == byte_decimals(b@).subrange(0, i as int),
        decreases b.len() - i,
    {
        let d = decimal_chars(b[i] as u64);
        let ghost before = parts@;
        parts.push(d);
        proof {
            assert(views(parts@) =~= views(before).push(d@));
            assert(byte_decimals(b@).subrange(0, i + 1) =~= byte_decimals(b@).subrange(
                0,
                i as int,
            ).push(decimal(b@[i as int] as nat)));
        }
        i = i + 1;
    }
    proof {
        assert(byte_decimals(b@).subrange(0, b@.len() as int) =~= byte_decimals(b@));
    }
    let mut sep: Vec<char> = Vec::new();
    sep.push(',');
    sep.push(' ');
    let inner = join_chars(&parts, &sep);
    let mut r: Vec<char> = Vec::new();
    r.push('[');
    extend_chars(&mut r, &inner);
    r.push(']');
    proof {
        assert(sep@ =~= seq![',', ' ']);
        assert(r@ =~= debug_bytes(b@));
    }
    r
}

/// The bytes of a list written `[1, 2, 3]` (or with commas and no spaces):
/// brackets stripped, the rest split at commas, each piece trimmed and read
/// as a decimal `u8`.
pub open spec fn parse_byte_list(s: Seq<char>) -> Option<Seq<u8>> {
    let parts = split(strip_trailing(strip_leading(s, '['), ']'), seq![',']);
    if forall|k: int| 0 <= k < parts.len() ==> parse_bounded(trim(parts[k]), 10, 255) is Some {
        Some(Seq::new(parts.len(), |k: int| parse_bounded(trim(parts[k]), 10, 255)->0 as u8))
    } else {
        None
    }
}

/// Reads a list of bytes written `[1, 2, 3]`.
pub fn parse_byte_list_chars(s: &Vec<char>) -> (r: Option<Vec<u8>>)
    ensures
        r matches Some(b) ==> parse_byte_list(s@) == Some(b@),
        r is None ==> parse_byte_list(s@) is None,
{
    let inner = strip_chars(s, '[', ']');
    let mut comma: Vec<char> = Vec::new();
    comma.push(',');
    proof {
        assert(comma@ =~= seq![',']);
    }
    let parts = split_chars(&inner, &comma);
    let ghost sp = views(parts@);
    assert(sp == split(strip_trailing(strip_leading(s@, '['), ']'), seq![',']));
    let mut out: Vec<u8> = Vec::new();
    let mut i: usize = 0;
    while i < parts.len()
        invariant
            i <= parts.len(),
            sp == views(parts@),
            sp.len() == parts.len(),
            sp == split(strip_trailing(strip_leading(s@, '['), ']'), seq![',']),
            out.len() == i,
            forall|k: int|
                0 <= k < i ==> parse_bounded(trim(sp[k]), 10, 255) == Some(out@[k] as nat),
        decreases parts.len() - i,
    {
        let t = trim_chars(&parts[i]);
        assert(t@ == trim(sp[i as int]));
        match parse_bounded_chars(&t, 10, 255) {
            None => {
                assert(parse_bounded(trim(sp[i as int]), 10, 255) is None);
                assert(!(forall|k: int|
                    0 <= k < sp.len() ==> parse_bounded(trim(sp[k]), 10, 255) is Some));
                return None;
            },
            Some(v) => {
                out.push(v as u8);
            },
        }
        i = i + 1;
    }
    proof {
        assert forall|k: int| 0 <= k < sp.len() implies parse_bounded(trim(sp[k]), 10, 255)
            is Some by {
            assert(parse_bounded(trim(sp[k]), 10, 255) == Some(out@[k] as nat));
        }
        assert(out@ =~= Seq::new(sp.len(), |k: int| parse_bounded(trim(sp[k]), 10, 255)->0 as u8));
    }
    Some(out)
}

/// Whether `a` and `b` hold the same characters.
pub fn chars_equal(a: &Vec<char>, b: &Vec<char>) -> (r: bool)
    ensures
        r == (a@ == b@),
{
    if a.len() != b.len() {
        return false;
    }
    let mut i: usize = 0;
    while i < a.len()
        invariant
            a.len() == b.len(),
            i <= a.len(),
            forall|k: int| 0 <= k < i ==> a@[k] == b@[k],
        decreases a.len() - i,
    {
        if a[i] != b[i] {
            return false;
        }
        i = i + 1;
    }
    assert(a@ =~= b@);
    true
}

/// Whether the string `s` holds exactly the characters of `t`.
pub fn str_equal(s: &str, t: &str) -> (r: bool)
    ensures
        r == (s@ == t@),
{
    chars_equal(&chars_of(s), &chars_of(t))
}

/// An owned copy of `s`.
pub fn owned(s: &str) -> (r: String)
    ensures
        r@ == s@,
{
    string_of(&chars_of(s))
}

/// The number of times `v` occurs in `s`.
pub open spec fn count_of(s: Seq<Seq<char>>, v: Seq<char>) -> nat
    decreases s.len(),
{
    if s.len() == 0 {
        0
    } else {
        count_of(s.drop_last(), v) + if s.last() == v {
            1nat
        } else {
            0nat
        }
    }
}

/// Counts the occurrences of `v` in `s`.
pub fn count_chars(s: &Vec<Vec<char>>, v: &Vec<char>) -> (n: usize)
    ensures
        n == count_of(views(s@), v@),
{
    let mut n: usize = 0;
    let mut i: usize = 0;
    while i < s.len()
        invariant
            i <= s.len(),
            n == count_of(views(s@).subrange(0, i as int), v@),
            n <= i,
        decreases s.len() - i,
    {
        proof {
            assert(views(s@).subrange(0, i + 1).drop_last() =~= views(s@).subrange(0, i as int));
        }
        if chars_equal(&s[i], v) {
            n = n + 1;
        }
        i = i + 1;
    }
    assert(views(s@).subrange(0, i as int) =~= views(s@));
    n
}

/// Whether `t` occurs in `s`, as `str::contains`.
pub fn contains_chars(s: &Vec<char>, t: &Vec<char>) -> (r: bool)
    ensures
        r == contains_seq(s@, t@),
{
    if t.len() > s.len() {
        assert forall|i: int| !matches_at(s@, t@, i) by {}
        return false;
    }
    if t.len() == 0 {
        assert(s@.subrange(0, 0) =~= t@);
        assert(matches_at(s@, t@, 0));
        return true;
    }
    let mut i: usize = 0;
    while i <= s.len() - t.len()
        invariant
            0 < t.len() <= s.len(),
            i <= s.len() - t.len() + 1,
            forall|k: int| 0 <= k < i ==> !matches_at(s@, t@, k),
        decreases s.len() - t.len() + 1 - i,
    {
        if matches_here(s, t, i) {
            return true;
        }
        i = i + 1;
    }
    assert forall|k: int| !matches_at(s@, t@, k) by {
        if 0 <= k < i {
        }
    }
    false
}

/// The first word of `s`: the part before the first space.
pub open spec fn first_word(s: Seq<char>) -> Seq<char> {
    split(s, seq![' '])[0]
}

proof fn lemma_split_nonempty(s: Seq<char>, sep: Seq<char>)
    ensures
        split(s, sep).len() >= 1,
    decreases s.len(),
{
    if sep.len() > 0 {
        match find_from(s, sep, 0) {
            None => {},
            Some(i) => {
                lemma_find_from(s, sep, 0);
            },
        }
    }
}

/// The pieces of a split are at least one.
pub broadcast proof fn lemma_split_len(s: Seq<char>, sep: Seq<char>)
    ensures
        #[trigger] split(s, sep).len() >= 1,
{
    lemma_split_nonempty(s, sep);
}

/// The part of `s` before its first space.
pub fn first_word_chars(s: &Vec<char>) -> (r: Vec<char>)
    ensures
        r@ == first_word(s@),
{
    let mut space: Vec<char> = Vec::new();
    space.push(' ');
    assert(space@ =~= seq![' ']);
    let parts = split_chars(s, &space);
    proof {
        lemma_split_nonempty(s@, seq![' ']);
        assert(views(parts@)[0] == parts@[0]@);
    }
    parts[0].clone()
}

} // verus!
