//! URL, query-string, cookie and path handling for requests.
use vstd::prelude::*;
use vstd::utf8::{decode_utf8, encode_utf8, is_continuation_byte, valid_utf8};
use crate::text::{
    chars_of, join, lemma_split_no_sep, lemma_split_nonempty, push_char, push_range, range_is,
    ranges_spell, split, split_ranges, string_from_utf8_lossy, string_of_range, trim, trim_range,
    utf8_lossy,
};

verus! {

broadcast use vstd::string::group_string_axioms;

// ---------------------------------------------------------------------------
// Finding a character and splitting once
// ---------------------------------------------------------------------------

/// The index of the first `c` in `s`, if any.
pub open spec fn find_char(s: Seq<char>, c: char) -> Option<nat>
    decreases s.len(),
{
    if s.len() == 0 {
        None
    } else if s[0] == c {
        Some(0)
    } else {
        match find_char(s.drop_first(), c) {
            Some(i) => Some(i + 1),
            None => None,
        }
    }
}

pub(crate) proof fn lemma_find_char_at(s: Seq<char>, c: char, i: int)
    requires
        0 <= i < s.len(),
        s[i] == c,
        forall|j: int| 0 <= j < i ==> s[j] != c,
    ensures
        find_char(s, c) == Some(i as nat),
    decreases i,
{
    if i > 0 {
        lemma_find_char_at(s.drop_first(), c, i - 1);
    }
}

proof fn lemma_find_char_none(s: Seq<char>, c: char)
    requires
        forall|j: int| 0 <= j < s.len() ==> s[j] != c,
    ensures
        find_char(s, c) is None,
    decreases s.len(),
{
    if s.len() > 0 {
        lemma_find_char_none(s.drop_first(), c);
    }
}

proof fn lemma_find_char_found(s: Seq<char>, c: char)
    requires
        find_char(s, c) is Some,
    ensures
        find_char(s, c)->0 < s.len(),
        s[find_char(s, c)->0 as int] == c,
        forall|j: int| 0 <= j < find_char(s, c)->0 ==> s[j] != c,
    decreases s.len(),
{
    if s.len() > 0 && s[0] != c {
        let t = s.drop_first();
        lemma_find_char_found(t, c);
        assert forall|j: int| 0 <= j < find_char(s, c)->0 implies s[j] != c by {
            if j > 0 {
                assert(s[j] == t[j - 1]);
            }
        }
    }
}

/// `s` split at its first `c` (`str::split_once` with a `char` pattern).
pub open spec fn split_once(s: Seq<char>, c: char) -> Option<(Seq<char>, Seq<char>)> {
    match find_char(s, c) {
        Some(i) => Some((s.take(i as int), s.skip(i as int + 1))),
        None => None,
    }
}

/// The position of the first `c` in `s[from..to]`.
fn find_in_range(s: &Vec<char>, from: usize, to: usize, c: char) -> (r: Option<usize>)
    requires
        from <= to <= s@.len(),
    ensures
        match r {
            Some(i) => from <= i < to && find_char(s@.subrange(from as int, to as int), c) == Some(
                (i - from) as nat,
            ),
            None => find_char(s@.subrange(from as int, to as int), c) is None,
        },
{
    let ghost sub = s@.subrange(from as int, to as int);
    let mut i = from;
    while i < to
        invariant
            from <= i <= to <= s@.len(),
            sub == s@.subrange(from as int, to as int),
            forall|j: int| 0 <= j < i - from ==> sub[j] != c,
        decreases to - i,
    {
        if s[i] == c {
            proof {
                lemma_find_char_at(sub, c, i - from);
            }
            return Some(i);
        }
        i = i + 1;
    }
    proof {
        lemma_find_char_none(sub, c);
    }
    None
}

// ---------------------------------------------------------------------------
// Query strings and cookies
// ---------------------------------------------------------------------------

/// Splits a request URL at its first `?` into the path and the query.
pub open spec fn spec_split_query(url: Seq<char>) -> (Seq<char>, Option<Seq<char>>) {
    match split_once(url, '?') {
        Some((path, query)) => (path, Some(query)),
        None => (url, None),
    }
}

/// The value that one `key=value` piece gives for `key`: the text after the
/// piece's first `=`, when the text before it is `key`.
pub open spec fn pair_value(pair: Seq<char>, key: Seq<char>) -> Option<Seq<char>> {
    match split_once(pair, '=') {
        Some((k, v)) => if k == key {
            Some(v)
        } else {
            None
        },
        None => None,
    }
}

/// The value for `key` in the first of `pieces` that has one; each piece is
/// first trimmed of surrounding whitespace when `trimmed` holds.
pub open spec fn first_value(pieces: Seq<Seq<char>>, key: Seq<char>, trimmed: bool) -> Option<
    Seq<char>,
>
    decreases pieces.len(),
{
    if pieces.len() == 0 {
        None
    } else {
        let piece = if trimmed {
            trim(pieces[0])
        } else {
            pieces[0]
        };
        match pair_value(piece, key) {
            Some(v) => Some(v),
            None => first_value(pieces.drop_first(), key, trimmed),
        }
    }
}

/// The value of parameter `key` in a query string of `&`-separated pairs.
pub open spec fn spec_query_param(query: Option<Seq<char>>, key: Seq<char>) -> Option<Seq<char>> {
    match query {
        Some(q) => first_value(split(q, '&'), key, false),
        None => None,
    }
}

/// The value of cookie `name` in a `Cookie:` header of `;`-separated pairs.
pub open spec fn spec_cookie_value(cookies: Seq<char>, name: Seq<char>) -> Option<Seq<char>> {
    first_value(split(cookies, ';'), name, true)
}

/// Finds the value for `key` among the `sep`-separated pieces of `src`.
fn lookup<'a>(src: &'a str, sep: char, key: &str, trimmed: bool) -> (r: Option<&'a str>)
    ensures
        match r {
            Some(v) => first_value(split(src@, sep), key@, trimmed) == Some(v@),
            None => first_value(split(src@, sep), key@, trimmed) is None,
        },
{
    let s = chars_of(src);
    let key_chars = chars_of(key);
    let ranges = split_ranges(&s, sep);
    let ghost pieces = split(s@, sep);
    let mut k: usize = 0;
    assert(pieces.skip(0) =~= pieces);
    while k < ranges.len()
        invariant
            s@ == src@,
            key_chars@ == key@,
            pieces == split(s@, sep),
            ranges_spell(s@, ranges@, pieces),
            0 <= k <= ranges@.len(),
            first_value(pieces, key@, trimmed) == first_value(pieces.skip(k as int), key@, trimmed),
        decreases ranges@.len() - k,
    {
        let (a0, b0) = ranges[k];
        assert(s@.subrange(ranges@[k as int].0 as int, ranges@[k as int].1 as int) == pieces[k as int]);
        let (a, b) = if trimmed {
            trim_range(&s, a0, b0)
        } else {
            (a0, b0)
        };
        let ghost piece = if trimmed {
            trim(pieces[k as int])
        } else {
            pieces[k as int]
        };
        assert(s@.subrange(a as int, b as int) == piece);
        assert(pieces.skip(k as int)[0] == pieces[k as int]);
        assert(pieces.skip(k as int).drop_first() =~= pieces.skip(k + 1));
        match find_in_range(&s, a, b, '=') {
            Some(e) => {
                assert(piece.take(e - a) =~= s@.subrange(a as int, e as int));
                assert(piece.skip(e - a + 1) =~= s@.subrange(e + 1, b as int));
                if range_is(&s, a, e, &key_chars) {
                    return Some(src.substring_char(e + 1, b));
                }
            },
            None => {},
        }
        k = k + 1;
    }
    assert(pieces.skip(k as int).len() == 0);
    None
}

/// Splits a request URL at its first `?` into the path and the query string.
pub fn split_query(url: &str) -> (r: (String, Option<&str>))
    ensures
        r.0@ == spec_split_query(url@).0,
        match r.1 {
            Some(q) => spec_split_query(url@).1 == Some(q@),
            None => spec_split_query(url@).1 is None,
        },
{
    let s = chars_of(url);
    match find_in_range(&s, 0, s.len(), '?') {
        Some(i) => {
            assert(s@.subrange(0, s@.len() as int) =~= s@);
            assert(s@.take(i as int) =~= s@.subrange(0, i as int));
            assert(s@.skip(i + 1) =~= s@.subrange(i + 1, s@.len() as int));
            (string_of_range(&s, 0, i), Some(url.substring_char(i + 1, s.len())))
        },
        None => {
            assert(s@.subrange(0, s@.len() as int) =~= s@);
            (string_of_range(&s, 0, s.len()), None)
        },
    }
}

/// The value of parameter `key` in `query`: the first `&`-separated pair whose
/// text before its first `=` is exactly `key`.
pub fn query_param<'a>(query: Option<&'a str>, key: &str) -> (r: Option<&'a str>)
    ensures
        match r {
            Some(v) => query is Some && spec_query_param(Some(query->0@), key@) == Some(v@),
            None => query is None || spec_query_param(Some(query->0@), key@) is None,
        },
{
    match query {
        Some(q) => lookup(q, '&', key, false),
        None => None,
    }
}

/// The value of cookie `name` in a `Cookie:` header: the first `;`-separated
/// pair, trimmed of surrounding whitespace, whose text before `=` is `name`.
pub fn cookie_value<'a>(cookies: &'a str, name: &str) -> (r: Option<&'a str>)
    ensures
        match r {
            Some(v) => spec_cookie_value(cookies@, name@) == Some(v@),
            None => spec_cookie_value(cookies@, name@) is None,
        },
{
    lookup(cookies, ';', name, true)
}

// ---------------------------------------------------------------------------
// Percent-decoding
// ---------------------------------------------------------------------------

pub open spec fn is_hex_digit(b: u8) -> bool {
    (48 <= b && b <= 57) || (65 <= b && b <= 70) || (97 <= b && b <= 102)
}

pub open spec fn hex_digit_value(b: u8) -> nat {
    if b <= 57 {
        (b - 48) as nat
    } else if b <= 70 {
        (b - 55) as nat
    } else {
        (b - 87) as nat
    }
}

/// The byte that the escape `%ab` stands for: `a` and `b` must both be hex digits.
pub open spec fn hex_pair(a: u8, b: u8) -> Option<u8> {
    if is_hex_digit(a) && is_hex_digit(b) {
        Some((hex_digit_value(a) * 16 + hex_digit_value(b)) as u8)
    } else {
        None
    }
}

/// Percent-decoding of bytes: `%XY` with two hex digits becomes that byte, a
/// `%` without two hex digits after it stays, `+` becomes a space, and any other byte stays.
pub open spec fn percent_decode(b: Seq<u8>) -> Seq<u8>
    decreases b.len(),
{
    if b.len() == 0 {
        Seq::<u8>::empty()
    } else if b[0] == 37 && b.len() > 2 {
        match hex_pair(b[1], b[2]) {
            Some(v) => seq![v] + percent_decode(b.skip(3)),
            None => seq![37u8] + percent_decode(b.skip(1)),
        }
    } else if b[0] == 43 {
        seq![32u8] + percent_decode(b.skip(1))
    } else {
        seq![b[0]] + percent_decode(b.skip(1))
    }
}

/// Whether decoding the UTF-8 text `b` reaches a `%` whose two following
/// bytes end inside a multi-byte character: slicing them out as text is
/// not possible there.
pub open spec fn percent_decode_cuts_char(b: Seq<u8>) -> bool
    decreases b.len(),
{
    if b.len() == 0 {
        false
    } else if b[0] == 37 && b.len() > 2 {
        if b.len() > 3 && is_continuation_byte(b[3]) {
            true
        } else {
            match hex_pair(b[1], b[2]) {
                Some(_) => percent_decode_cuts_char(b.skip(3)),
                None => percent_decode_cuts_char(b.skip(1)),
            }
        }
    } else {
        percent_decode_cuts_char(b.skip(1))
    }
}

fn hex_digit_of(b: u8) -> (r: Option<u8>)
    ensures
        match r {
            Some(v) => is_hex_digit(b) && v as nat == hex_digit_value(b),
            None => !is_hex_digit(b),
        },
{
    if 48 <= b && b <= 57 {
        Some(b - 48)
    } else if 65 <= b && b <= 70 {
        Some(b - 55)
    } else if 97 <= b && b <= 102 {
        Some(b - 87)
    } else {
        None
    }
}

/// The byte that the escape `%ab` stands for, if `a` and `b` are hex digits.
pub fn parse_hex_pair(a: u8, b: u8) -> (r: Option<u8>)
    ensures
        r == hex_pair(a, b),
{
    match (hex_digit_of(a), hex_digit_of(b)) {
        (Some(x), Some(y)) => Some(x * 16 + y),
        _ => None,
    }
}

/// The bytes that percent-decoding `s` yields.
pub fn percent_decode_bytes(s: &str) -> (out: Vec<u8>)
    ensures
        out@ == percent_decode(encode_utf8(s@)),
{
    let b = s.as_bytes();
    let n = b.len();
    let mut out: Vec<u8> = Vec::new();
    let mut i: usize = 0;
    assert(b@.skip(0) =~= b@);
    assert(out@ + percent_decode(b@) =~= percent_decode(b@));
    while i < n
        invariant
            n == b@.len(),
            b@ == encode_utf8(s@),
            i <= n,
            percent_decode(b@) == out@ + percent_decode(b@.skip(i as int)),
        decreases n - i,
    {
        let ghost rest = b@.skip(i as int);
        assert(rest[0] == b@[i as int]);
        if b[i] == 37 && n - i > 2 {
            assert(rest[1] == b@[i + 1] && rest[2] == b@[i + 2]);
            match parse_hex_pair(b[i + 1], b[i + 2]) {
                Some(v) => {
                    assert(rest.skip(3) =~= b@.skip(i + 3));
                    assert(out@ + (seq![v] + percent_decode(rest.skip(3))) =~= out@.push(v)
                        + percent_decode(b@.skip(i + 3)));
                    out.push(v);
                    i = i + 3;
                },
                None => {
                    assert(rest.skip(1) =~= b@.skip(i + 1));
                    assert(out@ + (seq![37u8] + percent_decode(rest.skip(1))) =~= out@.push(37u8)
                        + percent_decode(b@.skip(i + 1)));
                    out.push(37);
                    i = i + 1;
                },
            }
        } else if b[i] == 43 {
            assert(rest.skip(1) =~= b@.skip(i + 1));
            assert(out@ + (seq![32u8] + percent_decode(rest.skip(1))) =~= out@.push(32u8)
                + percent_decode(b@.skip(i + 1)));
            out.push(32);
            i = i + 1;
        } else {
            let x = b[i];
            assert(rest.skip(1) =~= b@.skip(i + 1));
            assert(out@ + (seq![x] + percent_decode(rest.skip(1))) =~= out@.push(x)
                + percent_decode(b@.skip(i + 1)));
            out.push(x);
            i = i + 1;
        }
    }
    assert(b@.skip(n as int) =~= Seq::<u8>::empty());
    assert(out@ + Seq::<u8>::empty() =~= out@);
    out
}

/// Whether `decode_percent(s)` would have to slice a `%XY` escape out of the
/// middle of a multi-byte character.
pub fn percent_decode_cuts(s: &str) -> (r: bool)
    ensures
        r == percent_decode_cuts_char(encode_utf8(s@)),
{
    let b = s.as_bytes();
    let n = b.len();
    let mut i: usize = 0;
    assert(b@.skip(0) =~= b@);
    while i < n
        invariant
            n == b@.len(),
            b@ == encode_utf8(s@),
            i <= n,
            percent_decode_cuts_char(b@) == percent_decode_cuts_char(b@.skip(i as int)),
        decreases n - i,
    {
        let ghost rest = b@.skip(i as int);
        assert(rest[0] == b@[i as int]);
        if b[i] == 37 && n - i > 2 {
            assert(rest[1] == b@[i + 1] && rest[2] == b@[i + 2]);
            if n - i > 3 && b[i + 3] >= 0x80 && b[i + 3] <= 0xbf {
                assert(rest[3] == b@[i + 3]);
                return true;
            }
            assert(n - i > 3 ==> rest[3] == b@[i + 3]);
            match parse_hex_pair(b[i + 1], b[i + 2]) {
                Some(_) => {
                    assert(rest.skip(3) =~= b@.skip(i + 3));
                    i = i + 3;
                },
                None => {
                    assert(rest.skip(1) =~= b@.skip(i + 1));
                    i = i + 1;
                },
            }
        } else {
            assert(rest.skip(1) =~= b@.skip(i + 1));
            i = i + 1;
        }
    }
    assert(b@.skip(n as int).len() == 0);
    false
}

/// Minimal percent-decoding (also turns `+` into a space, as form encoding
/// does); the decoded bytes are read as UTF-8, invalid sequences replaced.
pub fn decode_percent(s: &str) -> (r: String)
    requires
        !percent_decode_cuts_char(encode_utf8(s@)),
    ensures
        r@ == utf8_lossy(percent_decode(encode_utf8(s@))),
        valid_utf8(percent_decode(encode_utf8(s@))) ==> r@ == decode_utf8(
            percent_decode(encode_utf8(s@)),
        ),
        (forall|i: int| 0 <= i < s@.len() ==> #[trigger] s@[i] != '%' && s@[i] != '+') ==> r@
            == s@,
{
    let bytes = percent_decode_bytes(s);
    let r = string_from_utf8_lossy(bytes.as_slice());
    proof {
        if forall|i: int| 0 <= i < s@.len() ==> #[trigger] s@[i] != '%' && s@[i] != '+' {
            law_plain_text_decodes_to_itself(s@);
            vstd::utf8::encode_utf8_valid_utf8(s@);
            vstd::utf8::encode_utf8_decode_utf8(s@);
        }
    }
    r
}

/// `decode_percent(s)`, or `None` where it cannot be computed because an escape
/// would be sliced out of the middle of a multi-byte character.
pub fn decode_percent_checked(s: &str) -> (r: Option<String>)
    ensures
        match r {
            Some(d) => !percent_decode_cuts_char(encode_utf8(s@)) && d@ == utf8_lossy(
                percent_decode(encode_utf8(s@)),
            ),
            None => percent_decode_cuts_char(encode_utf8(s@)),
        },
{
    if percent_decode_cuts(s) {
        None
    } else {
        Some(decode_percent(s))
    }
}

/// Whether `b` holds no `%` and no `+` byte.
pub open spec fn no_escapes(b: Seq<u8>) -> bool {
    forall|i: int| 0 <= i < b.len() ==> #[trigger] b[i] != 37 && b[i] != 43
}

proof fn lemma_percent_decode_plain(b: Seq<u8>)
    requires
        no_escapes(b),
    ensures
        percent_decode(b) == b,
    decreases b.len(),
{
    if b.len() > 0 {
        assert(b[0] != 37 && b[0] != 43);
        assert(no_escapes(b.skip(1))) by {
            assert forall|i: int| 0 <= i < b.skip(1).len() implies #[trigger] b.skip(1)[i] != 37
                && b.skip(1)[i] != 43 by {
                assert(b.skip(1)[i] == b[i + 1]);
            }
        }
        lemma_percent_decode_plain(b.skip(1));
        assert(seq![b[0]] + b.skip(1) =~= b);
    }
}

proof fn lemma_encode_scalar_no_escapes(c: char)
    requires
        c != '%' && c != '+',
    ensures
        no_escapes(vstd::utf8::encode_scalar(c as u32)),
{
    let u = c as u32;
    if u <= 0x7f {
        assert((u & 0x7f) as u8 == u as u8) by (bit_vector)
            requires
                u <= 0x7f,
        ;
        assert(u != 37 && u != 43);
    } else {
        assert(forall|x: u8| #![auto] (0xC0u8 | x) >= 0xC0u8) by (bit_vector);
        assert(forall|x: u8| #![auto] (0xE0u8 | x) >= 0xE0u8) by (bit_vector);
        assert(forall|x: u8| #![auto] (0xF0u8 | x) >= 0xF0u8) by (bit_vector);
        assert(forall|x: u8| #![auto] (0x80u8 | x) >= 0x80u8) by (bit_vector);
    }
}

proof fn lemma_encode_no_escapes(s: Seq<char>)
    requires
        forall|i: int| 0 <= i < s.len() ==> #[trigger] s[i] != '%' && s[i] != '+',
    ensures
        no_escapes(encode_utf8(s)),
    decreases s.len(),
{
    if s.len() > 0 {
        lemma_encode_scalar_no_escapes(s[0]);
        assert forall|i: int| 0 <= i < s.drop_first().len() implies #[trigger] s.drop_first()[i]
            != '%' && s.drop_first()[i] != '+' by {
            assert(s.drop_first()[i] == s[i + 1]);
        }
        lemma_encode_no_escapes(s.drop_first());
        let a = vstd::utf8::encode_scalar(s[0] as u32);
        let b = encode_utf8(s.drop_first());
        assert forall|i: int| 0 <= i < (a + b).len() implies #[trigger] (a + b)[i] != 37 && (a
            + b)[i] != 43 by {
            if i < a.len() {
                assert((a + b)[i] == a[i]);
            } else {
                assert((a + b)[i] == b[i - a.len()]);
            }
        }
    }
}

/// The ASCII hexadecimal digit for `d` (below 16), upper- or lower-case.
pub open spec fn hex_digit_byte(d: nat, upper: bool) -> u8 {
    if d < 10 {
        (48 + d) as u8
    } else if upper {
        (55 + d) as u8
    } else {
        (87 + d) as u8
    }
}

/// Every byte of `data` written as a `%XY` escape.
pub open spec fn percent_escaped(data: Seq<u8>, upper: bool) -> Seq<u8>
    decreases data.len(),
{
    if data.len() == 0 {
        Seq::<u8>::empty()
    } else {
        seq![37u8, hex_digit_byte((data[0] / 16) as nat, upper), hex_digit_byte((data[0] % 16) as nat, upper)]
            + percent_escaped(data.skip(1), upper)
    }
}

/// Percent-decoding reads escapes back: `%XY` (hex digits in either case)
/// stands for the byte `0xXY` and `+` for a space, whatever follows; so the
/// escapes of any bytes decode to exactly those bytes.
pub proof fn law_percent_escapes_decode_back(x: u8, upper: bool, rest: Seq<u8>, data: Seq<u8>)
    ensures
        percent_decode(seq![37u8, hex_digit_byte((x / 16) as nat, upper), hex_digit_byte((x % 16) as nat, upper)] + rest)
            == seq![x] + percent_decode(rest),
        percent_decode(seq![43u8] + rest) == seq![32u8] + percent_decode(rest),
        percent_decode(percent_escaped(data, upper)) == data,
    decreases data.len(),
{
    let hi = hex_digit_byte((x / 16) as nat, upper);
    let lo = hex_digit_byte((x % 16) as nat, upper);
    let e = seq![37u8, hi, lo] + rest;
    assert(is_hex_digit(hi) && hex_digit_value(hi) == x / 16);
    assert(is_hex_digit(lo) && hex_digit_value(lo) == x % 16);
    assert(hex_pair(hi, lo) == Some(x));
    assert(e.skip(3) =~= rest);
    assert((seq![43u8] + rest).skip(1) =~= rest);
    if data.len() > 0 {
        law_percent_escapes_decode_back(data[0], upper, percent_escaped(data.skip(1), upper), data.skip(1));
        assert(seq![data[0]] + data.skip(1) =~= data);
    }
}

/// Percent-decoding is minimal: text without `%` and `+` decodes to itself.
pub proof fn law_plain_text_decodes_to_itself(s: Seq<char>)
    requires
        forall|i: int| 0 <= i < s.len() ==> #[trigger] s[i] != '%' && s[i] != '+',
    ensures
        !percent_decode_cuts_char(encode_utf8(s)),
        percent_decode(encode_utf8(s)) == encode_utf8(s),
{
    lemma_encode_no_escapes(s);
    lemma_percent_decode_plain(encode_utf8(s));
    lemma_no_escapes_no_cut(encode_utf8(s));
}

proof fn lemma_no_escapes_no_cut(b: Seq<u8>)
    requires
        no_escapes(b),
    ensures
        !percent_decode_cuts_char(b),
    decreases b.len(),
{
    if b.len() > 0 {
        assert(b[0] != 37);
        assert(no_escapes(b.skip(1))) by {
            assert forall|i: int| 0 <= i < b.skip(1).len() implies #[trigger] b.skip(1)[i] != 37
                && b.skip(1)[i] != 43 by {
                assert(b.skip(1)[i] == b[i + 1]);
            }
        }
        lemma_no_escapes_no_cut(b.skip(1));
    }
}

// ---------------------------------------------------------------------------
// Relative paths
// ---------------------------------------------------------------------------

/// A path segment that resolution skips: empty or `.`.
pub open spec fn is_skipped_segment(seg: Seq<char>) -> bool {
    seg.len() == 0 || seg == seq!['.']
}

/// An ASCII letter.
pub open spec fn is_ascii_letter(c: char) -> bool {
    ('a' <= c && c <= 'z') || ('A' <= c && c <= 'Z')
}

/// A segment that starts like a drive prefix (`C:`), which would replace the
/// root when pushed onto a path on Windows.
pub open spec fn has_drive_prefix(seg: Seq<char>) -> bool {
    seg.len() >= 2 && is_ascii_letter(seg[0]) && seg[1] == ':'
}

/// A path segment that resolution refuses: `..`, one holding a backslash, or
/// one that starts with a drive prefix.
pub open spec fn is_refused_segment(seg: Seq<char>) -> bool {
    seg == seq!['.', '.'] || seg.contains('\\') || has_drive_prefix(seg)
}

/// The segments of `pieces` that neither resolution skips.
pub open spec fn kept_segments(pieces: Seq<Seq<char>>) -> Seq<Seq<char>>
    decreases pieces.len(),
{
    if pieces.len() == 0 {
        Seq::<Seq<char>>::empty()
    } else if is_skipped_segment(pieces.last()) {
        kept_segments(pieces.drop_last())
    } else {
        kept_segments(pieces.drop_last()).push(pieces.last())
    }
}

/// Whether some segment of `pieces` is refused.
pub open spec fn any_refused(pieces: Seq<Seq<char>>) -> bool {
    exists|k: int| 0 <= k < pieces.len() && is_refused_segment(#[trigger] pieces[k])
}

/// The components that a client-supplied relative path names below the shared
/// root: its `/`-separated segments without empty and `.` ones, or `None` when
/// a segment is `..`, holds a backslash or starts with a drive prefix.
pub open spec fn spec_resolve_within(rel: Seq<char>) -> Option<Seq<Seq<char>>> {
    if any_refused(split(rel, '/')) {
        None
    } else {
        Some(kept_segments(split(rel, '/')))
    }
}

/// `rel` in clean `a/b/c` form: no empty or `.` segments.
pub open spec fn spec_normalize_rel(rel: Seq<char>) -> Seq<char> {
    join(kept_segments(split(rel, '/')), seq!['/'])
}

/// A single path component that is safe to create inside a folder.
pub open spec fn spec_is_plain_filename(name: Seq<char>) -> bool {
    &&& name.len() > 0
    &&& !name.contains('/')
    &&& !name.contains('\\')
    &&& name != seq!['.']
    &&& name != seq!['.', '.']
    &&& !has_drive_prefix(name)
}

/// The views of a vector of strings.
pub open spec fn string_views(v: Seq<String>) -> Seq<Seq<char>> {
    Seq::new(v.len(), |i: int| v[i]@)
}

fn is_dot(s: &Vec<char>, a: usize, b: usize) -> (r: bool)
    requires
        a <= b <= s@.len(),
    ensures
        r == (s@.subrange(a as int, b as int) == seq!['.']),
{
    let ghost d = seq!['.'];
    assert(d.len() == 1 && d[0] == '.');
    if b - a == 1 && s[a] == '.' {
        assert(s@.subrange(a as int, b as int) =~= d);
        true
    } else {
        if b - a == 1 {
            assert(s@.subrange(a as int, b as int)[0] != '.');
        }
        false
    }
}

fn is_dot_dot(s: &Vec<char>, a: usize, b: usize) -> (r: bool)
    requires
        a <= b <= s@.len(),
    ensures
        r == (s@.subrange(a as int, b as int) == seq!['.', '.']),
{
    let ghost dd = seq!['.', '.'];
    assert(dd.len() == 2 && dd[0] == '.' && dd[1] == '.');
    if b - a == 2 && s[a] == '.' && s[a + 1] == '.' {
        assert(s@.subrange(a as int, b as int) =~= dd);
        true
    } else {
        if b - a == 2 {
            assert(s@.subrange(a as int, b as int)[0] == s@[a as int]);
            assert(s@.subrange(a as int, b as int)[1] == s@[a + 1]);
        }
        false
    }
}

fn range_has(s: &Vec<char>, a: usize, b: usize, c: char) -> (r: bool)
    requires
        a <= b <= s@.len(),
    ensures
        r == s@.subrange(a as int, b as int).contains(c),
{
    match find_in_range(s, a, b, c) {
        Some(i) => {
            proof {
                lemma_find_char_found(s@.subrange(a as int, b as int), c);
            }
            assert(s@.subrange(a as int, b as int)[i - a] == c);
            true
        },
        None => {
            let ghost sub = s@.subrange(a as int, b as int);
            assert forall|j: int| 0 <= j < sub.len() implies sub[j] != c by {
                if sub[j] == c {
                    assert(find_char(sub, c) is Some) by {
                        lemma_first_occurrence(sub, c, j);
                    }
                }
            }
            false
        },
    }
}

fn range_has_drive_prefix(s: &Vec<char>, a: usize, b: usize) -> (r: bool)
    requires
        a <= b <= s@.len(),
    ensures
        r == has_drive_prefix(s@.subrange(a as int, b as int)),
{
    if b - a >= 2 {
        let c = s[a];
        let ghost sub = s@.subrange(a as int, b as int);
        assert(sub[0] == c && sub[1] == s@[a + 1]);
        (('a' <= c && c <= 'z') || ('A' <= c && c <= 'Z')) && s[a + 1] == ':'
    } else {
        false
    }
}

proof fn lemma_first_occurrence(s: Seq<char>, c: char, j: int)
    requires
        0 <= j < s.len(),
        s[j] == c,
    ensures
        find_char(s, c) is Some,
    decreases j,
{
    if s[0] != c {
        lemma_first_occurrence(s.drop_first(), c, j - 1);
    }
}

proof fn lemma_kept_push(pieces: Seq<Seq<char>>, x: Seq<char>)
    ensures
        kept_segments(pieces.push(x)) == if is_skipped_segment(x) {
            kept_segments(pieces)
        } else {
            kept_segments(pieces).push(x)
        },
{
    assert(pieces.push(x).drop_last() =~= pieces);
}

/// Resolves a client-supplied relative path to the components it names under
/// the shared root, refusing anything that could escape it: no `..` segment,
/// no backslash and no segment starting with a drive prefix is ever accepted. Empty and `.` segments are skipped, so
/// `""` names the root itself.
pub fn resolve_within(rel: &str) -> (r: Option<Vec<String>>)
    ensures
        match r {
            Some(v) => spec_resolve_within(rel@) == Some(string_views(v@)),
            None => spec_resolve_within(rel@) is None,
        },
{
    let s = chars_of(rel);
    let ranges = split_ranges(&s, '/');
    let ghost pieces = split(s@, '/');
    let mut out: Vec<String> = Vec::new();
    let mut k: usize = 0;
    assert(pieces.take(0) =~= Seq::<Seq<char>>::empty());
    assert(string_views(out@) =~= Seq::<Seq<char>>::empty());
    while k < ranges.len()
        invariant
            s@ == rel@,
            pieces == split(s@, '/'),
            ranges_spell(s@, ranges@, pieces),
            0 <= k <= ranges@.len(),
            !any_refused(pieces.take(k as int)),
            string_views(out@) == kept_segments(pieces.take(k as int)),
        decreases ranges@.len() - k,
    {
        let (a, b) = ranges[k];
        let ghost seg = pieces[k as int];
        assert(s@.subrange(a as int, b as int) == seg);
        assert(pieces.take(k + 1) =~= pieces.take(k as int).push(seg));
        proof {
            lemma_kept_push(pieces.take(k as int), seg);
        }
        if a == b || is_dot(&s, a, b) {
            assert(!any_refused(pieces.take(k + 1))) by {
                assert forall|j: int| 0 <= j < k + 1 implies !is_refused_segment(
                    #[trigger] pieces.take(k + 1)[j],
                ) by {
                    if j < k {
                        assert(pieces.take(k + 1)[j] == pieces.take(k as int)[j]);
                    } else {
                        assert(!seg.contains('\\'));
                        assert(seg.len() < 2);
                    }
                }
            }
        } else if is_dot_dot(&s, a, b) || range_has(&s, a, b, '\\') || range_has_drive_prefix(
            &s,
            a,
            b,
        ) {
            assert(pieces[k as int] == seg);
            assert(any_refused(pieces));
            return None;
        } else {
            let ghost before = string_views(out@);
            out.push(string_of_range(&s, a, b));
            assert(string_views(out@) =~= before.push(seg));
            assert(!any_refused(pieces.take(k + 1))) by {
                assert forall|j: int| 0 <= j < k + 1 implies !is_refused_segment(
                    #[trigger] pieces.take(k + 1)[j],
                ) by {
                    if j < k {
                        assert(pieces.take(k + 1)[j] == pieces.take(k as int)[j]);
                    }
                }
            }
        }
        k = k + 1;
    }
    assert(pieces.take(k as int) =~= pieces);
    Some(out)
}

/// Collapses a relative path to clean `a/b/c` form (no empty or `.` segments).
pub fn normalize_rel(rel: &str) -> (r: String)
    ensures
        r@ == spec_normalize_rel(rel@),
{
    let s = chars_of(rel);
    let ranges = split_ranges(&s, '/');
    let ghost pieces = split(s@, '/');
    let mut out = String::new();
    let mut any = false;
    let mut k: usize = 0;
    assert(pieces.take(0) =~= Seq::<Seq<char>>::empty());
    while k < ranges.len()
        invariant
            s@ == rel@,
            pieces == split(s@, '/'),
            ranges_spell(s@, ranges@, pieces),
            0 <= k <= ranges@.len(),
            out@ == join(kept_segments(pieces.take(k as int)), seq!['/']),
            any == (kept_segments(pieces.take(k as int)).len() > 0),
        decreases ranges@.len() - k,
    {
        let (a, b) = ranges[k];
        let ghost seg = pieces[k as int];
        let ghost prev = kept_segments(pieces.take(k as int));
        assert(s@.subrange(a as int, b as int) == seg);
        assert(pieces.take(k + 1) =~= pieces.take(k as int).push(seg));
        proof {
            lemma_kept_push(pieces.take(k as int), seg);
        }
        if !(a == b || is_dot(&s, a, b)) {
            let ghost nxt = prev.push(seg);
            assert(nxt.drop_last() =~= prev);
            if any {
                push_char(&mut out, '/');
                push_range(&mut out, &s, a, b);
                assert(out@ =~= join(prev, seq!['/']) + seq!['/'] + seg);
            } else {
                push_range(&mut out, &s, a, b);
                assert(out@ =~= seg);
            }
            any = true;
        }
        k = k + 1;
    }
    assert(pieces.take(k as int) =~= pieces);
    out
}

/// True if `name` is a single path component safe to create inside a folder:
/// not empty, `.` or `..`, without `/` or `\`, and not starting with a drive prefix.
pub fn is_plain_filename(name: &str) -> (r: bool)
    ensures
        r == spec_is_plain_filename(name@),
{
    let s = chars_of(name);
    let n = s.len();
    assert(s@.subrange(0, n as int) =~= s@);
    n > 0 && !range_has(&s, 0, n, '/') && !range_has(&s, 0, n, '\\') && !is_dot(&s, 0, n)
        && !is_dot_dot(&s, 0, n) && !range_has_drive_prefix(&s, 0, n)
}

// ---------------------------------------------------------------------------
// Laws of path resolution
// ---------------------------------------------------------------------------

proof fn lemma_split_pieces_lack_sep(s: Seq<char>, sep: char)
    ensures
        forall|k: int| 0 <= k < split(s, sep).len() ==> !(#[trigger] split(s, sep)[k]).contains(sep),
    decreases s.len(),
{
    lemma_split_nonempty(s, sep);
    if s.len() > 0 {
        let prev = split(s.drop_last(), sep);
        lemma_split_pieces_lack_sep(s.drop_last(), sep);
        lemma_split_nonempty(s.drop_last(), sep);
        if s.last() != sep {
            let last = prev.last().push(s.last());
            assert forall|j: int| 0 <= j < last.len() implies last[j] != sep by {
                if j < last.len() - 1 {
                    assert(last[j] == prev.last()[j]);
                }
            }
        }
        assert forall|k: int| 0 <= k < split(s, sep).len() implies !(
        #[trigger] split(s, sep)[k]).contains(sep) by {
            if k < prev.len() - 1 {
                assert(split(s, sep)[k] == prev[k]);
            } else if s.last() == sep && k == prev.len() - 1 {
                assert(split(s, sep)[k] == prev[k]);
            }
        }
    }
}

proof fn lemma_kept_from_pieces(pieces: Seq<Seq<char>>, k: int)
    requires
        0 <= k < kept_segments(pieces).len(),
    ensures
        exists|j: int|
            0 <= j < pieces.len() && pieces[j] == kept_segments(pieces)[k] && !is_skipped_segment(
                #[trigger] pieces[j],
            ),
    decreases pieces.len(),
{
    let prev = pieces.drop_last();
    if is_skipped_segment(pieces.last()) {
        lemma_kept_from_pieces(prev, k);
        let j = choose|j: int|
            0 <= j < prev.len() && prev[j] == kept_segments(prev)[k] && !is_skipped_segment(
                #[trigger] prev[j],
            );
        assert(pieces[j] == prev[j]);
    } else if k < kept_segments(prev).len() {
        lemma_kept_from_pieces(prev, k);
        let j = choose|j: int|
            0 <= j < prev.len() && prev[j] == kept_segments(prev)[k] && !is_skipped_segment(
                #[trigger] prev[j],
            );
        assert(pieces[j] == prev[j]);
    } else {
        assert(pieces[pieces.len() - 1] == pieces.last());
    }
}

/// Containment: every component that `resolve_within` accepts is a plain file
/// name (non-empty, not `.` or `..`, without `/` or `\`, not starting with a
/// drive prefix), so no component is a parent, a root or a prefix and the
/// resolved path never leaves the shared root.
pub proof fn law_resolved_components_are_plain(rel: Seq<char>)
    requires
        spec_resolve_within(rel) is Some,
    ensures
        forall|k: int|
            0 <= k < spec_resolve_within(rel)->0.len() ==> spec_is_plain_filename(
                #[trigger] spec_resolve_within(rel)->0[k],
            ),
{
    let pieces = split(rel, '/');
    let segs = kept_segments(pieces);
    lemma_split_pieces_lack_sep(rel, '/');
    assert forall|k: int| 0 <= k < segs.len() implies spec_is_plain_filename(#[trigger] segs[k]) by {
        lemma_kept_from_pieces(pieces, k);
        let j = choose|j: int|
            0 <= j < pieces.len() && pieces[j] == segs[k] && !is_skipped_segment(
                #[trigger] pieces[j],
            );
        assert(!is_refused_segment(pieces[j]));
    }
}

/// A plain file name resolves to exactly itself, and is already normalized.
pub proof fn law_plain_filename_resolves_to_itself(name: Seq<char>)
    requires
        spec_is_plain_filename(name),
    ensures
        spec_resolve_within(name) == Some(seq![name]),
        spec_normalize_rel(name) == name,
{
    assert forall|i: int| 0 <= i < name.len() implies name[i] != '/' by {
        if name[i] == '/' {
            assert(name.contains('/'));
        }
    }
    lemma_split_no_sep(name, '/');
    let pieces = split(name, '/');
    assert(pieces.drop_last() =~= Seq::<Seq<char>>::empty());
    assert(pieces.last() == name);
    assert(!is_skipped_segment(name));
    assert(kept_segments(pieces.drop_last()) =~= Seq::<Seq<char>>::empty());
    assert(kept_segments(pieces) == kept_segments(pieces.drop_last()).push(name));
    assert(kept_segments(pieces) =~= seq![name]);
    assert(!any_refused(pieces)) by {
        assert forall|k: int| 0 <= k < pieces.len() implies !is_refused_segment(
            #[trigger] pieces[k],
        ) by {
            assert(pieces[k] == name);
        }
    }
}

proof fn lemma_split_append(a: Seq<char>, sep: char, b: Seq<char>)
    requires
        forall|i: int| 0 <= i < b.len() ==> b[i] != sep,
    ensures
        split(a + seq![sep] + b, sep) == split(a, sep).push(b),
    decreases b.len(),
{
    let s = a + seq![sep] + b;
    if b.len() == 0 {
        assert(s.drop_last() =~= a);
        assert(s.last() == sep);
        assert(b =~= Seq::<char>::empty());
    } else {
        let b0 = b.drop_last();
        lemma_split_append(a, sep, b0);
        assert(s.drop_last() =~= a + seq![sep] + b0);
        assert(s.last() == b.last());
        assert(b[b.len() - 1] == b.last());
        assert(b0.push(b.last()) =~= b);
        let prev = split(a, sep).push(b0);
        assert(split(s, sep) == prev.update(prev.len() - 1, prev.last().push(b.last())));
        assert(split(s, sep) =~= split(a, sep).push(b));
    }
}

proof fn lemma_split_join(parts: Seq<Seq<char>>, sep: char)
    requires
        parts.len() >= 1,
        forall|k: int, i: int| 0 <= k < parts.len() && 0 <= i < parts[k].len() ==> #[trigger] parts[k][i]
            != sep,
    ensures
        split(join(parts, seq![sep]), sep) == parts,
    decreases parts.len(),
{
    if parts.len() == 1 {
        assert forall|i: int| 0 <= i < parts[0].len() implies parts[0][i] != sep by {
            assert(parts[0][i] != sep);
        }
        lemma_split_no_sep(parts[0], sep);
        assert(split(join(parts, seq![sep]), sep) =~= parts);
    } else {
        let p = parts.drop_last();
        assert forall|k: int, i: int| 0 <= k < p.len() && 0 <= i < p[k].len() implies #[trigger] p[k][i]
            != sep by {
            assert(p[k] == parts[k]);
        }
        lemma_split_join(p, sep);
        let last = parts.last();
        assert forall|i: int| 0 <= i < last.len() implies last[i] != sep by {
            assert(parts[parts.len() - 1] == last);
            assert(parts[parts.len() - 1][i] != sep);
        }
        lemma_split_append(join(p, seq![sep]), sep, last);
        assert(p.push(last) =~= parts);
    }
}

proof fn lemma_kept_unchanged(parts: Seq<Seq<char>>)
    requires
        forall|k: int| 0 <= k < parts.len() ==> !is_skipped_segment(#[trigger] parts[k]),
    ensures
        kept_segments(parts) == parts,
    decreases parts.len(),
{
    if parts.len() > 0 {
        let p = parts.drop_last();
        assert forall|k: int| 0 <= k < p.len() implies !is_skipped_segment(#[trigger] p[k]) by {
            assert(p[k] == parts[k]);
        }
        lemma_kept_unchanged(p);
        assert(parts[parts.len() - 1] == parts.last());
        assert(p.push(parts.last()) =~= parts);
    }
}

/// `normalize_rel` yields clean `a/b/c` form: the result is empty, or its
/// `/`-separated pieces are exactly the segments of `rel` other than empty and
/// `.` ones, in their order, so none of them is empty or `.`.
pub proof fn law_normalize_clean_form(rel: Seq<char>)
    ensures
        ({
            let k = kept_segments(split(rel, '/'));
            &&& forall|a: int| 0 <= a < k.len() ==> !is_skipped_segment(#[trigger] k[a])
            &&& k.len() == 0 ==> spec_normalize_rel(rel).len() == 0
            &&& k.len() > 0 ==> split(spec_normalize_rel(rel), '/') == k
        }),
{
    let pieces = split(rel, '/');
    let k = kept_segments(pieces);
    lemma_split_pieces_lack_sep(rel, '/');
    assert forall|a: int| 0 <= a < k.len() implies !is_skipped_segment(#[trigger] k[a]) by {
        lemma_kept_from_pieces(pieces, a);
    }
    if k.len() > 0 {
        assert forall|a: int, i: int| 0 <= a < k.len() && 0 <= i < k[a].len() implies #[trigger] k[a][i]
            != '/' by {
            lemma_kept_from_pieces(pieces, a);
            let j = choose|j: int|
                0 <= j < pieces.len() && pieces[j] == k[a] && !is_skipped_segment(
                    #[trigger] pieces[j],
                );
            assert(!pieces[j].contains('/'));
            if k[a][i] == '/' {
                assert(pieces[j][i] == '/');
            }
        }
        lemma_split_join(k, '/');
    }
}

/// `normalize_rel` is stable: normalizing a normalized path changes nothing.
pub proof fn law_normalize_idempotent(rel: Seq<char>)
    ensures
        spec_normalize_rel(spec_normalize_rel(rel)) == spec_normalize_rel(rel),
{
    let k = kept_segments(split(rel, '/'));
    law_normalize_clean_form(rel);
    if k.len() == 0 {
        assert(spec_normalize_rel(rel) =~= Seq::<char>::empty());
        assert(split(Seq::<char>::empty(), '/') =~= seq![Seq::<char>::empty()]);
        let e = seq![Seq::<char>::empty()];
        assert(e.drop_last() =~= Seq::<Seq<char>>::empty());
        assert(e.last().len() == 0);
        assert(is_skipped_segment(e.last()));
        assert(kept_segments(e.drop_last()) =~= Seq::<Seq<char>>::empty());
        assert(kept_segments(e) =~= Seq::<Seq<char>>::empty());
    } else {
        lemma_kept_unchanged(k);
    }
}

/// What `resolve_within` accepts, joined with `/`, is what `normalize_rel`
/// reports for the same path.
pub proof fn law_resolve_agrees_with_normalize(rel: Seq<char>)
    requires
        spec_resolve_within(rel) is Some,
    ensures
        join(spec_resolve_within(rel)->0, seq!['/']) == spec_normalize_rel(rel),
{
}

} // verus!
