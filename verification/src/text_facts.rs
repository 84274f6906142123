//! Facts about splitting, joining and replacing, and about reading back what
//! the formatting functions write.
use vstd::prelude::*;
use crate::text::{
    hex_lower, hex_digit_char, hex_decode, chunk2, chunk_count, all_ascii, trim, trim_start, trim_end, is_space,
    debug_bytes, parse_byte_list, byte_decimals,
    decimal, digit_char, digits_value, digit_value, find_from, join, lemma_find_from,
    lemma_find_from_is, lemma_find_from_none, lemma_strip_leading_at, lemma_strip_trailing_at,
    matches_at, parse_bounded, replace, split, contains_seq,
};

verus! {

/// `c` does not occur in `s`.
pub open spec fn lacks(s: Seq<char>, c: char) -> bool {
    forall|i: int| 0 <= i < s.len() ==> s[i] != c
}

/// Joining one piece in front of at least one more puts the separator after it.
pub proof fn lemma_join_front(a: Seq<char>, rest: Seq<Seq<char>>, sep: Seq<char>)
    requires
        rest.len() >= 1,
    ensures
        join(seq![a] + rest, sep) == a + sep + join(rest, sep),
    decreases rest.len(),
{
    let all = seq![a] + rest;
    if rest.len() == 1 {
        assert(all.drop_last() =~= seq![a]);
        assert(all.last() == rest[0]);
        assert(join(seq![a], sep) == a);
        assert(join(rest, sep) == rest[0]);
    } else {
        lemma_join_front(a, rest.drop_last(), sep);
        assert(all.drop_last() =~= seq![a] + rest.drop_last());
        assert(all.last() == rest.last());
        assert(join(rest, sep) == join(rest.drop_last(), sep) + sep + rest.last());
        assert(join(all, sep) =~= a + sep + join(rest, sep));
    }
}

/// Joining the pieces of a split with its separator gives the text back.
pub proof fn lemma_join_split(s: Seq<char>, sep: Seq<char>)
    requires
        sep.len() > 0,
    ensures
        join(split(s, sep), sep) == s,
    decreases s.len(),
{
    match find_from(s, sep, 0) {
        None => {},
        Some(i) => {
            lemma_find_from(s, sep, 0);
            let rest = s.subrange(i + sep.len(), s.len() as int);
            lemma_join_split(rest, sep);
            crate::text::lemma_split_len(rest, sep);
            lemma_join_front(s.subrange(0, i), split(rest, sep), sep);
            assert(s =~= s.subrange(0, i) + sep + rest);
        },
    }
}

/// A text without the separator's first character is not split.
pub proof fn lemma_split_whole(a: Seq<char>, sep: Seq<char>)
    requires
        sep.len() > 0,
        lacks(a, sep[0]),
    ensures
        split(a, sep) == seq![a],
{
    assert forall|j: int| 0 <= j implies !matches_at(a, sep, j) by {
        if matches_at(a, sep, j) {
            assert(a.subrange(j, j + sep.len())[0] == sep[0]);
        }
    }
    lemma_find_from_none(a, sep, 0);
}

/// Splitting `a + sep + r`, where `a` lacks the separator's first character,
/// gives `a` and then the pieces of `r`.
pub proof fn lemma_split_front(a: Seq<char>, sep: Seq<char>, r: Seq<char>)
    requires
        sep.len() > 0,
        lacks(a, sep[0]),
    ensures
        split(a + sep + r, sep) == seq![a] + split(r, sep),
{
    let s = a + sep + r;
    assert forall|j: int| 0 <= j < a.len() implies !matches_at(s, sep, j) by {
        if matches_at(s, sep, j) {
            assert(s.subrange(j, j + sep.len())[0] == sep[0]);
            assert(s[j] == a[j]);
        }
    }
    assert(s.subrange(a.len() as int, (a.len() + sep.len()) as int) =~= sep);
    lemma_find_from_is(s, sep, 0, a.len() as int);
    assert(s.subrange(0, a.len() as int) =~= a);
    assert(s.subrange((a.len() + sep.len()) as int, s.len() as int) =~= r);
}

/// Splitting joined pieces that lack the separator's first character gives
/// the pieces back.
pub proof fn lemma_split_join(p: Seq<Seq<char>>, sep: Seq<char>)
    requires
        sep.len() > 0,
        p.len() >= 1,
        forall|k: int| 0 <= k < p.len() ==> lacks(#[trigger] p[k], sep[0]),
    ensures
        split(join(p, sep), sep) == p,
    decreases p.len(),
{
    if p.len() == 1 {
        lemma_split_whole(p[0], sep);
        assert(p =~= seq![p[0]]);
    } else {
        let rest = p.drop_first();
        assert(p =~= seq![p[0]] + rest);
        lemma_join_front(p[0], rest, sep);
        assert forall|k: int| 0 <= k < rest.len() implies lacks(#[trigger] rest[k], sep[0]) by {
            assert(rest[k] == p[k + 1]);
        }
        lemma_split_join(rest, sep);
        lemma_split_front(p[0], sep, join(rest, sep));
    }
}

/// `s` with every `a` turned into `b`.
pub open spec fn map_char(s: Seq<char>, a: char, b: char) -> Seq<char> {
    Seq::new(s.len(), |i: int| if s[i] == a { b } else { s[i] })
}

/// Replacing one character by another is a character-wise map.
pub proof fn lemma_replace_char(s: Seq<char>, a: char, b: char)
    ensures
        replace(s, seq![a], seq![b]) == map_char(s, a, b),
    decreases s.len(),
{
    let sep = seq![a];
    match find_from(s, sep, 0) {
        None => {
            crate::text::lemma_find_from(s, sep, 0);
            assert forall|i: int| 0 <= i < s.len() implies s[i] != a by {
                assert(!matches_at(s, sep, i));
                if s[i] == a {
                    assert(s.subrange(i, i + 1) =~= sep);
                }
            }
            assert(map_char(s, a, b) =~= s);
        },
        Some(i) => {
            lemma_find_from(s, sep, 0);
            let head = s.subrange(0, i);
            let rest = s.subrange(i + 1, s.len() as int);
            lemma_replace_char(rest, a, b);
            crate::text::lemma_split_len(rest, sep);
            lemma_join_front(head, split(rest, sep), seq![b]);
            assert forall|j: int| 0 <= j < head.len() implies head[j] != a by {
                assert(!matches_at(s, sep, j));
                if head[j] == a {
                    assert(s.subrange(j, j + 1) =~= sep);
                }
            }
            assert(s.subrange(i, i + 1) =~= sep);
            assert(s[i] == s.subrange(i, i + 1)[0]);
            let m = head + seq![b] + map_char(rest, a, b);
            assert forall|j: int| 0 <= j < s.len() implies map_char(s, a, b)[j] == m[j] by {
                if j < i {
                    assert(s[j] == head[j]);
                } else if j == i {
                } else {
                    assert(s[j] == rest[j - i - 1]);
                }
            }
            assert(map_char(s, a, b) =~= m);
        },
    }
}

/// The map distributes over concatenation.
pub proof fn lemma_map_concat(x: Seq<char>, y: Seq<char>, a: char, b: char)
    ensures
        map_char(x + y, a, b) == map_char(x, a, b) + map_char(y, a, b),
{
    assert(map_char(x + y, a, b) =~= map_char(x, a, b) + map_char(y, a, b));
}

/// The map distributes over joining.
pub proof fn lemma_map_join(p: Seq<Seq<char>>, sep: Seq<char>, a: char, b: char)
    ensures
        map_char(join(p, sep), a, b) == join(
            Seq::new(p.len(), |k: int| map_char(p[k], a, b)),
            map_char(sep, a, b),
        ),
    decreases p.len(),
{
    let q = Seq::new(p.len(), |k: int| map_char(p[k], a, b));
    if p.len() == 0 {
        assert(map_char(Seq::<char>::empty(), a, b) =~= Seq::<char>::empty());
    } else if p.len() == 1 {
    } else {
        lemma_map_join(p.drop_last(), sep, a, b);
        assert(q.drop_last() =~= Seq::new(p.drop_last().len(), |k: int| map_char(p.drop_last()[k], a, b)));
        lemma_map_concat(join(p.drop_last(), sep) + sep, p.last(), a, b);
        lemma_map_concat(join(p.drop_last(), sep), sep, a, b);
    }
}

/// A map that changes nothing.
pub proof fn lemma_map_lacking(s: Seq<char>, a: char, b: char)
    requires
        lacks(s, a),
    ensures
        map_char(s, a, b) == s,
{
    assert(map_char(s, a, b) =~= s);
}

/// Every piece of a split is a part of the text: it lacks what the text lacks.
pub proof fn lemma_split_pieces_lack(s: Seq<char>, sep: Seq<char>, c: char)
    requires
        sep.len() > 0,
        lacks(s, c),
    ensures
        forall|k: int| 0 <= k < split(s, sep).len() ==> lacks(#[trigger] split(s, sep)[k], c),
    decreases s.len(),
{
    match find_from(s, sep, 0) {
        None => {},
        Some(i) => {
            lemma_find_from(s, sep, 0);
            let rest = s.subrange(i + sep.len(), s.len() as int);
            lemma_split_pieces_lack(rest, sep, c);
            let p = split(s, sep);
            assert forall|k: int| 0 <= k < p.len() implies lacks(#[trigger] p[k], c) by {
                if k == 0 {
                } else {
                    assert(p[k] == split(rest, sep)[k - 1]);
                }
            }
        },
    }
}

/// Pieces joined with a separator lack what the pieces and the separator lack.
pub proof fn lemma_join_lacks(p: Seq<Seq<char>>, sep: Seq<char>, c: char)
    requires
        lacks(sep, c),
        forall|k: int| 0 <= k < p.len() ==> lacks(#[trigger] p[k], c),
    ensures
        lacks(join(p, sep), c),
    decreases p.len(),
{
    if p.len() > 1 {
        lemma_join_lacks(p.drop_last(), sep, c);
        assert(lacks(p.last(), c));
    }
}

/// Every character of `s` is a decimal digit.
pub open spec fn all_digits(s: Seq<char>) -> bool {
    forall|i: int| 0 <= i < s.len() ==> 48 <= (#[trigger] s[i]) as u32 <= 57
}

/// Decimal notation is made of digits, at least one.
pub proof fn lemma_decimal_digits(n: nat)
    ensures
        all_digits(decimal(n)),
        decimal(n).len() >= 1,
    decreases n,
{
    if n >= 10 {
        lemma_decimal_digits(n / 10);
    }
}

/// A text of digits lacks every other character.
pub proof fn lemma_digits_lack(s: Seq<char>, c: char)
    requires
        all_digits(s),
        !(48 <= c as u32 <= 57),
    ensures
        lacks(s, c),
{
}

/// Reading a decimal notation gives the number back.
pub proof fn lemma_decimal_value(n: nat)
    ensures
        digits_value(decimal(n), 10) == Some(n),
    decreases n,
{
    if n < 10 {
        let d = decimal(n);
        assert(d.drop_last() =~= Seq::<char>::empty());
        assert(digits_value(Seq::<char>::empty(), 10) == Some(0nat));
        assert(digit_value(digit_char(n), 10) == Some(n));
        assert(d.last() == digit_char(n));
        assert(digits_value(d, 10) == Some(0 * 10 + n));
    } else {
        lemma_decimal_value(n / 10);
        let d = decimal(n);
        assert(d.drop_last() =~= decimal(n / 10));
        assert(d.last() == digit_char(n % 10));
        assert(digit_value(digit_char(n % 10), 10) == Some(n % 10));
        assert(digits_value(d, 10) == Some((n / 10) * 10 + n % 10));
    }
}

/// Parsing a decimal notation gives the number back, within the type's range.
pub proof fn lemma_parse_decimal(n: nat, max: nat)
    requires
        n <= max,
    ensures
        parse_bounded(decimal(n), 10, max) == Some(n),
{
    lemma_decimal_value(n);
    lemma_decimal_digits(n);
    assert(48 <= decimal(n)[0] as u32 <= 57);
}

/// Text without white space is its own trim.
pub proof fn lemma_trim_spaceless(s: Seq<char>)
    requires
        forall|i: int| 0 <= i < s.len() ==> !is_space(#[trigger] s[i]),
    ensures
        trim(s) == s,
{
    assert(trim_start(s) == s);
    assert(trim_end(s) == s);
}

/// One leading space is trimmed away from spaceless text.
pub proof fn lemma_trim_one_space(s: Seq<char>)
    requires
        forall|i: int| 0 <= i < s.len() ==> !is_space(#[trigger] s[i]),
    ensures
        trim(seq![' '] + s) == s,
{
    let t = seq![' '] + s;
    assert(t.drop_first() =~= s);
    assert(is_space(t[0]));
    assert(trim_start(t) == trim_start(s));
    lemma_trim_spaceless(s);
}

/// A hexadecimal digit character, for a digit below 16.
pub proof fn lemma_hex_digit(d: nat)
    requires
        d < 16,
    ensures
        digit_value(hex_digit_char(d), 16) == Some(d),
        (hex_digit_char(d) as u32) < 128,
        hex_digit_char(d) != ',',
        hex_digit_char(d) != '+',
{
}

/// Hexadecimal notation reads back as the bytes it was made from.
pub proof fn lemma_hex_roundtrip(b: Seq<u8>)
    ensures
        hex_decode(hex_lower(b)) == Some(b),
        all_ascii(hex_lower(b)),
        lacks(hex_lower(b), ','),
{
    let h = hex_lower(b);
    assert(chunk_count(h) == b.len());
    assert forall|k: int| 0 <= k < chunk_count(h) implies parse_bounded(chunk2(h, k), 16, 255)
        == Some(b[k] as nat) by {
        let c = chunk2(h, k);
        let hi = (b[k] / 16) as nat;
        let lo = (b[k] % 16) as nat;
        lemma_hex_digit(hi);
        lemma_hex_digit(lo);
        assert(c =~= seq![hex_digit_char(hi), hex_digit_char(lo)]);
        assert(c.drop_last() =~= seq![hex_digit_char(hi)]);
        assert(c.drop_last().drop_last() =~= Seq::<char>::empty());
        assert(digits_value(Seq::<char>::empty(), 16) == Some(0nat));
        assert(digits_value(c.drop_last(), 16) == Some(0 * 16 + hi));
        assert(c.last() == hex_digit_char(lo));
        assert(digits_value(c, 16) == Some(hi * 16 + lo));
        assert(hi * 16 + lo == b[k]);
    }
    assert(hex_decode(h)->0 =~= b);
    assert forall|i: int| 0 <= i < h.len() implies (h[i] as u32) < 128 && h[i] != ',' by {
        lemma_hex_digit((b[i / 2] / 16) as nat);
        lemma_hex_digit((b[i / 2] % 16) as nat);
    }
}


/// The first character of joined pieces is that of the first piece.
pub proof fn lemma_join_first(p: Seq<Seq<char>>, sep: Seq<char>)
    requires
        p.len() >= 1,
        p[0].len() >= 1,
    ensures
        join(p, sep).len() >= 1,
        join(p, sep)[0] == p[0][0],
    decreases p.len(),
{
    if p.len() > 1 {
        lemma_join_first(p.drop_last(), sep);
    }
}

/// The last character of joined pieces is that of the last piece.
pub proof fn lemma_join_last(p: Seq<Seq<char>>, sep: Seq<char>)
    requires
        p.len() >= 1,
        p.last().len() >= 1,
    ensures
        join(p, sep).len() >= 1,
        join(p, sep).last() == p.last().last(),
{
}

/// Text put in front of joined pieces goes in front of the first piece.
pub proof fn lemma_join_prefix(x: Seq<char>, p: Seq<Seq<char>>, sep: Seq<char>)
    requires
        p.len() >= 1,
    ensures
        x + join(p, sep) == join(p.update(0, x + p[0]), sep),
    decreases p.len(),
{
    let q = p.update(0, x + p[0]);
    if p.len() > 1 {
        lemma_join_prefix(x, p.drop_last(), sep);
        assert(q.drop_last() =~= p.drop_last().update(0, x + p[0]));
        assert(x + join(p, sep) =~= join(q, sep));
    }
}

/// Text put after joined pieces goes after the last piece.
pub proof fn lemma_join_suffix(y: Seq<char>, p: Seq<Seq<char>>, sep: Seq<char>)
    requires
        p.len() >= 1,
    ensures
        join(p, sep) + y == join(p.update(p.len() - 1, p.last() + y), sep),
{
    let q = p.update(p.len() - 1, p.last() + y);
    if p.len() > 1 {
        assert(q.drop_last() =~= p.drop_last());
        assert(join(p, sep) + y =~= join(q, sep));
    }
}

/// The pieces with `b` put in front of every piece but the first.
pub open spec fn prefix_rest(p: Seq<Seq<char>>, b: Seq<char>) -> Seq<Seq<char>> {
    Seq::new(p.len(), |k: int| if k == 0 { p[0] } else { b + p[k] })
}

/// Joining with the separator `a + b` is joining with `a` the pieces after
/// the first prefixed with `b`.
pub proof fn lemma_join_split_sep(p: Seq<Seq<char>>, a: Seq<char>, b: Seq<char>)
    ensures
        join(p, a + b) == join(prefix_rest(p, b), a),
    decreases p.len(),
{
    if p.len() > 1 {
        lemma_join_split_sep(p.drop_last(), a, b);
        assert(prefix_rest(p, b).drop_last() =~= prefix_rest(p.drop_last(), b));
        assert(join(p, a + b) =~= join(prefix_rest(p, b), a));
    }
}

/// Every decimal notation of a byte starts and ends with a digit and lacks
/// every character that is not a digit.
proof fn lemma_byte_decimals(w: Seq<u8>)
    ensures
        forall|k: int| 0 <= k < w.len() ==> all_digits(#[trigger] byte_decimals(w)[k]) && byte_decimals(w)[k].len() >= 1,
{
    assert forall|k: int| 0 <= k < w.len() implies all_digits(#[trigger] byte_decimals(w)[k]) && byte_decimals(w)[k].len() >= 1 by {
        lemma_decimal_digits(w[k] as nat);
    }
}

/// A byte list written by `{:?}` reads back as the bytes.
pub proof fn lemma_parse_debug_bytes(w: Seq<u8>)
    requires
        w.len() >= 1,
    ensures
        parse_byte_list(debug_bytes(w)) == Some(w),
{
    let d = byte_decimals(w);
    let j = join(d, seq![',', ' ']);
    let s = seq!['['] + j + seq![']'];
    assert(debug_bytes(w) == s);
    lemma_byte_decimals(w);
    lemma_join_first(d, seq![',', ' ']);
    lemma_join_last(d, seq![',', ' ']);
    assert(48 <= d[0][0] as u32 <= 57);
    assert(48 <= d.last().last() as u32 <= 57);
    assert(s[1] == j[0]);
    lemma_strip_leading_at(s, '[', 1);
    assert(s.subrange(1, s.len() as int) =~= j + seq![']']);
    let t = j + seq![']'];
    assert(t[j.len() - 1] == j.last());
    lemma_strip_trailing_at(t, ']', j.len() as int);
    assert(t.subrange(0, j.len() as int) =~= j);
    let q = prefix_rest(d, seq![' ']);
    assert(seq![',', ' '] =~= seq![','] + seq![' ']);
    lemma_join_split_sep(d, seq![','], seq![' ']);
    assert forall|k: int| 0 <= k < q.len() implies lacks(#[trigger] q[k], ',') by {
        if k > 0 {
            assert(q[k] == seq![' '] + d[k]);
        }
    }
    lemma_split_join(q, seq![',']);
    assert forall|k: int| 0 <= k < q.len() implies parse_bounded(trim(#[trigger] q[k]), 10, 255)
        == Some(w[k] as nat) by {
        assert(all_digits(d[k]));
        assert forall|i: int| 0 <= i < d[k].len() implies !is_space(#[trigger] d[k][i]) by {
            assert(48 <= d[k][i] as u32 <= 57);
        }
        if k == 0 {
            lemma_trim_spaceless(d[k]);
        } else {
            assert(q[k] == seq![' '] + d[k]);
            lemma_trim_one_space(d[k]);
        }
        lemma_parse_decimal(w[k] as nat, 255);
    }
    assert(parse_byte_list(s)->0 =~= w);
}

/// A byte list written by `{:?}` holds only digits, brackets, commas and
/// spaces.
pub proof fn lemma_debug_bytes_lacks(w: Seq<u8>, c: char)
    requires
        !(48 <= c as u32 <= 57),
        c != '[',
        c != ']',
        c != ',',
        c != ' ',
    ensures
        lacks(debug_bytes(w), c),
{
    let d = byte_decimals(w);
    lemma_byte_decimals(w);
    assert forall|k: int| 0 <= k < d.len() implies lacks(#[trigger] d[k], c) by {
        assert(all_digits(d[k]));
    }
    lemma_join_lacks(d, seq![',', ' '], c);
    assert(debug_bytes(w) == seq!['['] + join(d, seq![',', ' ']) + seq![']']);
}

/// Writing `; ` for every `, ` of a byte list leaves no comma, and writing
/// `,` for every `;` gives the byte list back.
pub proof fn lemma_debug_bytes_swap(w: Seq<u8>)
    requires
        w.len() >= 1,
    ensures
        lacks(replace(debug_bytes(w), seq![',', ' '], seq![';', ' ']), ','),
        replace(replace(debug_bytes(w), seq![',', ' '], seq![';', ' ']), seq![';'], seq![',']) == debug_bytes(w),
{
    let d = byte_decimals(w);
    lemma_byte_decimals(w);
    let b1 = d.update(0, seq!['['] + d[0]);
    let b = b1.update(b1.len() - 1, b1.last() + seq![']']);
    lemma_join_prefix(seq!['['], d, seq![',', ' ']);
    lemma_join_suffix(seq![']'], b1, seq![',', ' ']);
    assert(debug_bytes(w) == join(b, seq![',', ' ']));
    assert forall|k: int| 0 <= k < b.len() implies lacks(#[trigger] b[k], ',') && lacks(b[k], ';') by {
        assert(all_digits(d[k]));
        if k == b.len() - 1 {
            if k == 0 {
                assert(b[k] == seq!['['] + d[0] + seq![']']);
            } else {
                assert(b[k] == d[k] + seq![']']);
            }
        } else if k == 0 {
            assert(b[k] == seq!['['] + d[0]);
        } else {
            assert(b[k] == d[k]);
        }
    }
    lemma_split_join(b, seq![',', ' ']);
    let x = join(b, seq![';', ' ']);
    assert(replace(debug_bytes(w), seq![',', ' '], seq![';', ' ']) == x);
    lemma_join_lacks(b, seq![';', ' '], ',');
    lemma_replace_char(x, ';', ',');
    lemma_map_join(b, seq![';', ' '], ';', ',');
    assert forall|k: int| 0 <= k < b.len() implies map_char(#[trigger] b[k], ';', ',') == b[k] by {
        lemma_map_lacking(b[k], ';', ',');
    }
    assert(Seq::new(b.len(), |k: int| map_char(b[k], ';', ',')) =~= b);
    assert(map_char(seq![';', ' '], ';', ',') =~= seq![',', ' ']);
}

/// Writing `;` for every `,` of a text without `;` leaves no comma, and
/// writing `,` for every `;` gives the text back.
pub proof fn lemma_comma_swap(s: Seq<char>)
    requires
        lacks(s, ';'),
    ensures
        lacks(replace(s, seq![','], seq![';']), ','),
        replace(replace(s, seq![','], seq![';']), seq![';'], seq![',']) == s,
{
    lemma_replace_char(s, ',', ';');
    let m = map_char(s, ',', ';');
    lemma_replace_char(m, ';', ',');
    assert(map_char(m, ';', ',') =~= s);
}


/// Joining two non-empty lists of pieces is joining each and putting the
/// separator between.
pub proof fn lemma_join_append(f: Seq<Seq<char>>, g: Seq<Seq<char>>, sep: Seq<char>)
    requires
        f.len() >= 1,
        g.len() >= 1,
    ensures
        join(f + g, sep) == join(f, sep) + sep + join(g, sep),
    decreases g.len(),
{
    let fg = f + g;
    if g.len() == 1 {
        assert(fg.drop_last() =~= f);
        assert(fg.last() == g[0]);
    } else {
        lemma_join_append(f, g.drop_last(), sep);
        assert(fg.drop_last() =~= f + g.drop_last());
        assert(fg.last() == g.last());
        assert(join(f + g, sep) =~= join(f, sep) + sep + join(g, sep));
    }
}


/// Splitting `a, r` at `, `, where `a` holds no `, `, gives `a` and then the
/// pieces of `r` (a comma at the end of `a` is followed by a comma, so no
/// separator starts there).
pub proof fn lemma_split_front_comma(a: Seq<char>, r: Seq<char>)
    requires
        !contains_seq(a, seq![',', ' ']),
    ensures
        split(a + seq![',', ' '] + r, seq![',', ' ']) == seq![a] + split(r, seq![',', ' ']),
{
    let sep = seq![',', ' '];
    let s = a + sep + r;
    assert forall|j: int| 0 <= j < a.len() implies !matches_at(s, sep, j) by {
        if matches_at(s, sep, j) {
            assert(s.subrange(j, j + 2)[1] == ' ');
            assert(s[j + 1] == ' ');
            if j + 1 < a.len() {
                assert(s[j] == a[j] && s[j + 1] == a[j + 1]);
                assert(a.subrange(j, j + 2) =~= sep);
                assert(matches_at(a, sep, j));
            } else {
                assert(s[j + 1] == ',');
            }
        }
    }
    assert(s.subrange(a.len() as int, (a.len() + 2) as int) =~= sep);
    lemma_find_from_is(s, sep, 0, a.len() as int);
    assert(s.subrange(0, a.len() as int) =~= a);
    assert(s.subrange((a.len() + 2) as int, s.len() as int) =~= r);
}

/// Splitting joined pieces at `, ` gives back every piece before the last
/// where none of those holds `, `; the last piece may hold anything, so the
/// split has at least as many pieces.
pub proof fn lemma_split_join_comma(p: Seq<Seq<char>>)
    requires
        p.len() >= 1,
        forall|k: int| 0 <= k < p.len() - 1 ==> !contains_seq(#[trigger] p[k], seq![',', ' ']),
    ensures
        split(join(p, seq![',', ' ']), seq![',', ' ']).len() >= p.len(),
        forall|k: int| 0 <= k < p.len() - 1 ==> split(join(p, seq![',', ' ']), seq![',', ' '])[k] == #[trigger] p[k],
    decreases p.len(),
{
    let sep = seq![',', ' '];
    if p.len() == 1 {
        assert(join(p, sep) == p[0]);
        crate::text::lemma_split_len(p[0], sep);
    } else {
        let rest = p.drop_first();
        assert(p =~= seq![p[0]] + rest);
        lemma_join_front(p[0], rest, sep);
        assert forall|k: int| 0 <= k < rest.len() - 1 implies !contains_seq(#[trigger] rest[k], sep) by {
            assert(rest[k] == p[k + 1]);
        }
        lemma_split_join_comma(rest);
        assert(!contains_seq(p[0], sep));
        lemma_split_front_comma(p[0], join(rest, sep));
        let sp = split(join(p, sep), sep);
        assert forall|k: int| 0 <= k < p.len() - 1 implies sp[k] == #[trigger] p[k] by {
            if k > 0 {
                assert(sp[k] == split(join(rest, sep), sep)[k - 1]);
                assert(rest[k - 1] == p[k]);
            }
        }
    }
}
} // verus!
