//! JSON text for folder listings and search results.
use vstd::prelude::*;
use vstd::utf8::encode_utf8;
use crate::text::{
    chars_of, decimal, digit_char, hex_fixed, join, lowercase, push_char, push_decimal, push_hex_fixed,
    to_lowercase,
};
use crate::url::{normalize_rel, resolve_within, spec_normalize_rel, spec_resolve_within};

verus! {

broadcast use vstd::string::group_string_axioms;

// ---------------------------------------------------------------------------
// String literals
// ---------------------------------------------------------------------------

/// The JSON escape for one character: quotes, backslashes and control
/// characters are escaped, everything else stands for itself.
pub open spec fn json_escape(c: char) -> Seq<char> {
    if c == '"' {
        seq!['\\', '"']
    } else if c == '\\' {
        seq!['\\', '\\']
    } else if c == '\n' {
        seq!['\\', 'n']
    } else if c == '\r' {
        seq!['\\', 'r']
    } else if c == '\t' {
        seq!['\\', 't']
    } else if (c as u32) < 0x20 {
        seq!['\\', 'u'] + hex_fixed(c as u32 as nat, 4)
    } else {
        seq![c]
    }
}

/// The escapes of every character of `s`, in order.
pub open spec fn json_escape_all(s: Seq<char>) -> Seq<char>
    decreases s.len(),
{
    if s.len() == 0 {
        Seq::<char>::empty()
    } else {
        json_escape_all(s.drop_last()) + json_escape(s.last())
    }
}

/// `s` as a JSON string literal.
pub open spec fn spec_json_string(s: Seq<char>) -> Seq<char> {
    seq!['"'] + json_escape_all(s) + seq!['"']
}

fn push_escaped(out: &mut String, c: char)
    ensures
        final(out)@ == old(out)@ + json_escape(c),
{
    let ghost o = old(out)@;
    if c == '"' {
        push_char(out, '\\');
        push_char(out, '"');
    } else if c == '\\' {
        push_char(out, '\\');
        push_char(out, '\\');
    } else if c == '\n' {
        push_char(out, '\\');
        push_char(out, 'n');
    } else if c == '\r' {
        push_char(out, '\\');
        push_char(out, 'r');
    } else if c == '\t' {
        push_char(out, '\\');
        push_char(out, 't');
    } else if (c as u32) < 0x20 {
        push_char(out, '\\');
        push_char(out, 'u');
        push_hex_fixed(out, c as u32 as u128, 4);
        assert(out@ =~= o + json_escape(c));
        return;
    } else {
        push_char(out, c);
    }
    assert(out@ =~= o + json_escape(c));
}

/// Appends `s` as a JSON string literal to `out`.
pub fn push_json_string(out: &mut String, s: &str)
    ensures
        final(out)@ == old(out)@ + spec_json_string(s@),
{
    let ghost o = old(out)@;
    let v = chars_of(s);
    push_char(out, '"');
    let mut i: usize = 0;
    while i < v.len()
        invariant
            v@ == s@,
            i <= v@.len(),
            out@ == o + seq!['"'] + json_escape_all(v@.take(i as int)),
        decreases v@.len() - i,
    {
        push_escaped(out, v[i]);
        assert(v@.take(i + 1).drop_last() =~= v@.take(i as int));
        i = i + 1;
    }
    assert(v@.take(i as int) =~= s@);
    push_char(out, '"');
    assert(out@ =~= o + spec_json_string(s@));
}

/// JSON-encodes a string (quotes and escapes). Enough for file names.
pub fn json_string(s: &str) -> (r: String)
    ensures
        r@ == spec_json_string(s@),
{
    let mut r = String::new();
    push_json_string(&mut r, s);
    assert(Seq::<char>::empty() + spec_json_string(s@) =~= spec_json_string(s@));
    r
}

// ---------------------------------------------------------------------------
// Reading a string literal back
// ---------------------------------------------------------------------------

/// The value of one hexadecimal digit, in either case.
pub open spec fn json_hex_value(c: char) -> Option<nat> {
    let u = c as u32;
    if 48 <= u && u <= 57 {
        Some((u - 48) as nat)
    } else if 65 <= u && u <= 70 {
        Some((u - 55) as nat)
    } else if 97 <= u && u <= 102 {
        Some((u - 87) as nat)
    } else {
        None
    }
}

/// The number that the first four characters of `t` spell as hexadecimal
/// digits, most significant first.
pub open spec fn json_hex4(t: Seq<char>) -> Option<nat> {
    match (json_hex_value(t[0]), json_hex_value(t[1]), json_hex_value(t[2]), json_hex_value(t[3])) {
        (Some(a), Some(b), Some(c), Some(d)) => Some(a * 4096 + b * 256 + c * 16 + d),
        _ => None,
    }
}

/// The character that the one-letter escape `\e` stands for.
pub open spec fn json_simple_escape(e: char) -> Option<char> {
    if e == '"' {
        Some('"')
    } else if e == '\\' {
        Some('\\')
    } else if e == '/' {
        Some('/')
    } else if e == 'b' {
        Some('\u{8}')
    } else if e == 'f' {
        Some('\u{c}')
    } else if e == 'n' {
        Some('\n')
    } else if e == 'r' {
        Some('\r')
    } else if e == 't' {
        Some('\t')
    } else {
        None
    }
}

pub open spec fn prepend_char(c: char, rest: Option<Seq<char>>) -> Option<Seq<char>> {
    match rest {
        Some(r) => Some(seq![c] + r),
        None => None,
    }
}

/// The text that the inside of a JSON string literal stands for, as RFC 8259
/// reads it, or `None` where it is not valid there: an unescaped `"`, a raw
/// control character, an unknown or cut-off escape, or a `\u` escape that
/// names a surrogate outside a high-low pair.
pub open spec fn json_unescape(t: Seq<char>) -> Option<Seq<char>>
    decreases t.len(),
{
    if t.len() == 0 {
        Some(Seq::<char>::empty())
    } else if t[0] == '\\' {
        if t.len() < 2 {
            None
        } else if t[1] == 'u' {
            if t.len() < 6 {
                None
            } else {
                match json_hex4(t.subrange(2, 6)) {
                    None => None,
                    Some(v) => if v < 0xD800 || v >= 0xE000 {
                        prepend_char((v as u32) as char, json_unescape(t.skip(6)))
                    } else if v < 0xDC00 && t.len() >= 12 && t[6] == '\\' && t[7] == 'u' {
                        match json_hex4(t.subrange(8, 12)) {
                            Some(w) => if 0xDC00 <= w && w < 0xE000 {
                                prepend_char(
                                    ((0x10000 + (v - 0xD800) * 0x400 + (w - 0xDC00)) as u32) as char,
                                    json_unescape(t.skip(12)),
                                )
                            } else {
                                None
                            },
                            None => None,
                        }
                    } else {
                        None
                    },
                }
            }
        } else {
            match json_simple_escape(t[1]) {
                Some(c) => prepend_char(c, json_unescape(t.skip(2))),
                None => None,
            }
        }
    } else if t[0] == '"' || (t[0] as u32) < 0x20 {
        None
    } else {
        prepend_char(t[0], json_unescape(t.skip(1)))
    }
}

/// The text that the JSON string token `t` stands for, or `None` when `t` is
/// not one valid JSON string token.
pub open spec fn json_string_value(t: Seq<char>) -> Option<Seq<char>> {
    if t.len() >= 2 && t[0] == '"' && t[t.len() - 1] == '"' {
        json_unescape(t.subrange(1, t.len() - 1))
    } else {
        None
    }
}

proof fn lemma_escape_all_front(s: Seq<char>)
    requires
        s.len() > 0,
    ensures
        json_escape_all(s) == json_escape(s[0]) + json_escape_all(s.skip(1)),
    decreases s.len(),
{
    if s.len() == 1 {
        assert(s.drop_last() =~= Seq::<char>::empty());
        assert(s.skip(1) =~= Seq::<char>::empty());
        assert(json_escape_all(s) =~= json_escape(s[0]) + json_escape_all(s.skip(1)));
    } else {
        let d = s.drop_last();
        lemma_escape_all_front(d);
        assert(d.skip(1) =~= s.skip(1).drop_last());
        assert(s.skip(1).last() == s.last());
        assert(json_escape_all(s) =~= json_escape(s[0]) + json_escape_all(s.skip(1)));
    }
}

proof fn lemma_hex_digit_value(d: nat)
    requires
        d < 16,
    ensures
        json_hex_value(digit_char(d)) == Some(d),
{
}

proof fn lemma_unescape_one(c: char, t: Seq<char>)
    ensures
        json_unescape(json_escape(c) + t) == prepend_char(c, json_unescape(t)),
{
    let x = json_escape(c) + t;
    if c == '"' || c == '\\' || c == '\n' || c == '\r' || c == '\t' {
        assert(x.skip(2) =~= t);
    } else if (c as u32) < 0x20 {
        let n = c as u32 as nat;
        let h = hex_fixed(n, 4);
        assert(h =~= seq![digit_char(0), digit_char(0), digit_char(n / 16), digit_char(n % 16)]) by {
            let hi = n / 16;
            assert(hi < 2 && hi / 16 == 0 && hi % 16 == hi);
            assert(hex_fixed(0, 1) =~= seq![digit_char(0)]) by {
                assert(hex_fixed(0, 0) =~= Seq::<char>::empty());
            }
            assert(hex_fixed(0, 2) =~= seq![digit_char(0), digit_char(0)]);
            assert(hex_fixed(hi, 3) =~= seq![digit_char(0), digit_char(0), digit_char(hi)]);
        }
        lemma_hex_digit_value(0);
        lemma_hex_digit_value(n / 16);
        lemma_hex_digit_value(n % 16);
        assert(x.subrange(2, 6) =~= h);
        assert(json_hex4(h) == Some(n));
        assert(x.skip(6) =~= t);
        assert(((n as u32) as char) == c) by {
            vstd::utf8::char_u32_cast(c, c as u32);
        }
    } else {
        assert(x.skip(1) =~= t);
    }
}

proof fn lemma_unescape_escape_all(s: Seq<char>)
    ensures
        json_unescape(json_escape_all(s)) == Some(s),
    decreases s.len(),
{
    if s.len() == 0 {
        assert(s =~= Seq::<char>::empty());
    } else {
        lemma_escape_all_front(s);
        lemma_unescape_one(s[0], json_escape_all(s.skip(1)));
        lemma_unescape_escape_all(s.skip(1));
        assert(seq![s[0]] + s.skip(1) =~= s);
    }
}

/// What `json_string` makes of `s` is one valid JSON string token, and a
/// JSON reader gives back exactly `s` from it.
pub proof fn law_json_string_round_trip(s: Seq<char>)
    ensures
        json_string_value(spec_json_string(s)) == Some(s),
        json_unescape(json_escape_all(s)) == Some(s),
{
    let t = spec_json_string(s);
    lemma_unescape_escape_all(s);
    assert(t.subrange(1, t.len() - 1) =~= json_escape_all(s));
}

// ---------------------------------------------------------------------------
// Folder listings
// ---------------------------------------------------------------------------

/// What a directory entry is.
#[derive(PartialEq, Eq, Structural, Clone, Copy, Debug)]
pub enum EntryKind {
    Dir,
    File { size: u64 },
}

/// One entry of a folder, as the file system reports it.
#[derive(Debug)]
pub struct DirEntry {
    pub name: String,
    pub kind: EntryKind,
}

/// The JSON object for one folder entry.
pub open spec fn spec_entry_json(name: Seq<char>, kind: EntryKind) -> Seq<char> {
    match kind {
        EntryKind::Dir => "{\"name\":"@ + spec_json_string(name) + ",\"dir\":true}"@,
        EntryKind::File { size } => "{\"name\":"@ + spec_json_string(name) + ",\"dir\":false,\"size\":"@
            + decimal(size as nat) + "}"@,
    }
}

/// Byte-wise lexicographic order, the order of `String`'s `cmp`.
pub open spec fn bytes_lt(a: Seq<u8>, b: Seq<u8>) -> bool
    decreases a.len(),
{
    if a.len() == 0 {
        b.len() > 0
    } else if b.len() == 0 {
        false
    } else if a[0] < b[0] {
        true
    } else if a[0] > b[0] {
        false
    } else {
        bytes_lt(a.drop_first(), b.drop_first())
    }
}

/// `x` placed into `sorted` after every item whose key is not greater.
pub open spec fn insert_by_key(sorted: Seq<(Seq<u8>, Seq<char>)>, x: (Seq<u8>, Seq<char>)) -> Seq<
    (Seq<u8>, Seq<char>),
>
    decreases sorted.len(),
{
    if sorted.len() > 0 && bytes_lt(x.0, sorted.last().0) {
        insert_by_key(sorted.drop_last(), x).push(sorted.last())
    } else {
        sorted.push(x)
    }
}

/// `items` stably sorted by key (`slice::sort_by` on the keys).
pub open spec fn sort_by_key(items: Seq<(Seq<u8>, Seq<char>)>) -> Seq<(Seq<u8>, Seq<char>)>
    decreases items.len(),
{
    if items.len() == 0 {
        items
    } else {
        insert_by_key(sort_by_key(items.drop_last()), items.last())
    }
}

/// The entries of one kind (folders when `dirs`, else files), each keyed by
/// the UTF-8 bytes of its lower-cased name, with its JSON object.
pub open spec fn keyed_entries(entries: Seq<DirEntry>, dirs: bool) -> Seq<(Seq<u8>, Seq<char>)>
    decreases entries.len(),
{
    if entries.len() == 0 {
        Seq::empty()
    } else {
        let prev = keyed_entries(entries.drop_last(), dirs);
        let e = entries.last();
        if (e.kind == EntryKind::Dir) == dirs {
            prev.push((encode_utf8(lowercase(e.name@)), spec_entry_json(e.name@, e.kind)))
        } else {
            prev
        }
    }
}

/// The second components of `items`.
pub open spec fn values(items: Seq<(Seq<u8>, Seq<char>)>) -> Seq<Seq<char>> {
    Seq::new(items.len(), |i: int| items[i].1)
}

/// The folder listing: `{"path":<normalized rel>,"entries":[...]}` with the
/// folders first, then the files, each group sorted by lower-cased name.
pub open spec fn spec_listing_json(rel: Seq<char>, entries: Seq<DirEntry>) -> Seq<char> {
    "{\"path\":"@ + spec_json_string(spec_normalize_rel(rel)) + ",\"entries\":["@ + join(
        values(sort_by_key(keyed_entries(entries, true)) + sort_by_key(keyed_entries(entries, false))),
        seq![','],
    ) + "]}"@
}

/// The body sent when a listing is asked for a path outside the root.
pub open spec fn spec_bad_path_json() -> Seq<char> {
    "{\"error\":\"bad path\"}"@
}

/// The body sent when the folder cannot be read.
pub open spec fn spec_unreadable_json() -> Seq<char> {
    "{\"error\":\"cannot read folder\"}"@
}

/// The answer to `/api/list` for the path `rel`: the bad-path object when
/// `rel` would leave the root, the unreadable object when the folder could
/// not be read (`entries` is `None`), and the listing otherwise.
pub open spec fn spec_list_dir_json(rel: Seq<char>, entries: Option<Seq<DirEntry>>) -> Seq<char> {
    if spec_resolve_within(rel) is None {
        spec_bad_path_json()
    } else {
        match entries {
            Some(e) => spec_listing_json(rel, e),
            None => spec_unreadable_json(),
        }
    }
}

/// The views of keyed items.
pub open spec fn keyed_view(v: Seq<(Vec<u8>, String)>) -> Seq<(Seq<u8>, Seq<char>)> {
    Seq::new(v.len(), |i: int| (v[i].0@, v[i].1@))
}

/// The JSON object for one folder entry.
pub fn entry_json(name: &str, kind: EntryKind) -> (r: String)
    ensures
        r@ == spec_entry_json(name@, kind),
{
    let mut r = "{\"name\":".to_owned();
    push_json_string(&mut r, name);
    match kind {
        EntryKind::Dir => {
            r.append(",\"dir\":true}");
        },
        EntryKind::File { size } => {
            r.append(",\"dir\":false,\"size\":");
            push_decimal(&mut r, size);
            r.append("}");
        },
    }
    r
}

/// Byte-wise lexicographic comparison.
pub fn bytes_less(a: &Vec<u8>, b: &Vec<u8>) -> (r: bool)
    ensures
        r == bytes_lt(a@, b@),
{
    let mut i: usize = 0;
    assert(a@.skip(0) =~= a@ && b@.skip(0) =~= b@);
    loop
        invariant
            i <= a@.len() && i <= b@.len(),
            bytes_lt(a@, b@) == bytes_lt(a@.skip(i as int), b@.skip(i as int)),
        decreases a@.len() - i,
    {
        if i == a.len() {
            return i < b.len();
        }
        if i == b.len() {
            return false;
        }
        assert(a@.skip(i as int)[0] == a@[i as int] && b@.skip(i as int)[0] == b@[i as int]);
        if a[i] < b[i] {
            return true;
        }
        if a[i] > b[i] {
            return false;
        }
        assert(a@.skip(i as int).drop_first() =~= a@.skip(i + 1));
        assert(b@.skip(i as int).drop_first() =~= b@.skip(i + 1));
        i = i + 1;
    }
}

proof fn lemma_insert_by_key_split(s: Seq<(Seq<u8>, Seq<char>)>, x: (Seq<u8>, Seq<char>), j: int)
    requires
        0 < j <= s.len(),
        bytes_lt(x.0, s[j - 1].0),
    ensures
        insert_by_key(s.take(j), x) + s.skip(j) == insert_by_key(s.take(j - 1), x) + s.skip(j - 1),
{
    let t = s.take(j);
    assert(t.drop_last() =~= s.take(j - 1));
    assert(t.last() == s[j - 1]);
    assert(insert_by_key(t, x) == insert_by_key(s.take(j - 1), x).push(s[j - 1]));
    assert(insert_by_key(t, x) + s.skip(j) =~= insert_by_key(s.take(j - 1), x) + s.skip(j - 1));
}

/// Inserts `x` into the key-sorted `v` after every item whose key is not greater.
fn insert_sorted(v: &mut Vec<(Vec<u8>, String)>, x: (Vec<u8>, String))
    ensures
        keyed_view(final(v)@) == insert_by_key(keyed_view(old(v)@), (x.0@, x.1@)),
        final(v)@.len() == old(v)@.len() + 1,
{
    let ghost s = keyed_view(v@);
    let ghost xv = (x.0@, x.1@);
    let mut j = v.len();
    assert(s.take(j as int) =~= s && s.skip(j as int) =~= Seq::<(Seq<u8>, Seq<char>)>::empty());
    assert(insert_by_key(s, xv) =~= insert_by_key(s.take(j as int), xv) + s.skip(j as int));
    while j > 0 && bytes_less(&x.0, &v[j - 1].0)
        invariant
            j <= v@.len(),
            s == keyed_view(v@),
            xv == (x.0@, x.1@),
            insert_by_key(s, xv) == insert_by_key(s.take(j as int), xv) + s.skip(j as int),
        decreases j,
    {
        proof {
            lemma_insert_by_key_split(s, xv, j as int);
        }
        j = j - 1;
    }
    let ghost t = s.take(j as int);
    assert(insert_by_key(t, xv) == t.push(xv)) by {
        if j > 0 {
            assert(t.last() == s[j - 1]);
        }
    }
    v.insert(j, x);
    assert(keyed_view(v@) =~= t.push(xv) + s.skip(j as int));
}

/// Builds the listing body from the normalized path and the entries.
fn listing_json(rel: &str, entries: &Vec<DirEntry>) -> (r: String)
    ensures
        r@ == spec_listing_json(rel@, entries@),
{
    let mut dirs: Vec<(Vec<u8>, String)> = Vec::new();
    let mut files: Vec<(Vec<u8>, String)> = Vec::new();
    let mut i: usize = 0;
    while i < entries.len()
        invariant
            i <= entries@.len(),
            keyed_view(dirs@) == sort_by_key(keyed_entries(entries@.take(i as int), true)),
            keyed_view(files@) == sort_by_key(keyed_entries(entries@.take(i as int), false)),
            dirs@.len() + files@.len() == i,
        decreases entries@.len() - i,
    {
        let e = &entries[i];
        let lower = to_lowercase(e.name.as_str());
        let key = lower.as_str().as_bytes_vec();
        let json = entry_json(e.name.as_str(), e.kind);
        let ghost t = entries@.take(i + 1);
        assert(t.drop_last() =~= entries@.take(i as int));
        assert(t.last() == entries@[i as int]);
        let ghost item = (key@, json@);
        assert(item == (encode_utf8(lowercase(e.name@)), spec_entry_json(e.name@, e.kind)));
        match e.kind {
            EntryKind::Dir => {
                assert(keyed_entries(t, true) == keyed_entries(entries@.take(i as int), true).push(item));
                assert(keyed_entries(t, false) == keyed_entries(entries@.take(i as int), false));
                assert(keyed_entries(t, true).drop_last() =~= keyed_entries(entries@.take(i as int), true));
                insert_sorted(&mut dirs, (key, json));
                assert(keyed_view(dirs@) == sort_by_key(keyed_entries(t, true)));
            },
            EntryKind::File { .. } => {
                assert(keyed_entries(t, false) == keyed_entries(entries@.take(i as int), false).push(item));
                assert(keyed_entries(t, true) == keyed_entries(entries@.take(i as int), true));
                assert(keyed_entries(t, false).drop_last() =~= keyed_entries(entries@.take(i as int), false));
                insert_sorted(&mut files, (key, json));
                assert(keyed_view(files@) == sort_by_key(keyed_entries(t, false)));
            },
        }
        i = i + 1;
    }
    assert(entries@.take(i as int) =~= entries@);
    let mut r = "{\"path\":".to_owned();
    let norm = normalize_rel(rel);
    push_json_string(&mut r, norm.as_str());
    r.append(",\"entries\":[");
    let ghost all = keyed_view(dirs@) + keyed_view(files@);
    let ghost head = r@;
    let mut k: usize = 0;
    let total = dirs.len() + files.len();
    while k < total
        invariant
            total == dirs@.len() + files@.len(),
            all == keyed_view(dirs@) + keyed_view(files@),
            k <= total,
            r@ == head + join(values(all).take(k as int), seq![',']),
        decreases total - k,
    {
        let item = if k < dirs.len() {
            &dirs[k].1
        } else {
            &files[k - dirs.len()].1
        };
        assert(item@ == values(all)[k as int]);
        let ghost prev = values(all).take(k as int);
        assert(values(all).take(k + 1).drop_last() =~= prev);
        if k > 0 {
            push_char(&mut r, ',');
        }
        r.append(item.as_str());
        assert(r@ =~= head + join(values(all).take(k + 1), seq![',']));
        k = k + 1;
    }
    assert(values(all).take(k as int) =~= values(all));
    r.append("]}");
    r
}

// ---------------------------------------------------------------------------
// Laws of the listing order
// ---------------------------------------------------------------------------

proof fn lemma_lt_asymmetric(a: Seq<u8>, b: Seq<u8>)
    requires
        bytes_lt(a, b),
    ensures
        !bytes_lt(b, a),
    decreases a.len(),
{
    if a.len() > 0 && b.len() > 0 && a[0] == b[0] {
        lemma_lt_asymmetric(a.drop_first(), b.drop_first());
    }
}

proof fn lemma_lt_transitive(a: Seq<u8>, b: Seq<u8>, c: Seq<u8>)
    requires
        bytes_lt(a, b),
        bytes_lt(b, c),
    ensures
        bytes_lt(a, c),
    decreases a.len(),
{
    if a.len() > 0 && b.len() > 0 && c.len() > 0 && a[0] == b[0] && b[0] == c[0] {
        lemma_lt_transitive(a.drop_first(), b.drop_first(), c.drop_first());
    }
}

proof fn lemma_lt_total(a: Seq<u8>, b: Seq<u8>)
    requires
        !bytes_lt(a, b),
        !bytes_lt(b, a),
    ensures
        a == b,
    decreases a.len(),
{
    if a.len() > 0 && b.len() > 0 {
        lemma_lt_total(a.drop_first(), b.drop_first());
        assert(a =~= seq![a[0]] + a.drop_first());
        assert(b =~= seq![b[0]] + b.drop_first());
    } else {
        assert(a =~= b);
    }
}

/// `b` is less than or equal to `a` in byte order.
proof fn lemma_not_lt_trans(x: Seq<u8>, a: Seq<u8>, b: Seq<u8>)
    requires
        !bytes_lt(x, a),
        !bytes_lt(a, b),
    ensures
        !bytes_lt(x, b),
{
    if bytes_lt(x, b) {
        if a == b {
        } else {
            lemma_lt_total_or(a, b);
            lemma_lt_transitive(x, b, a);
        }
    }
}

proof fn lemma_lt_total_or(a: Seq<u8>, b: Seq<u8>)
    requires
        a != b,
        !bytes_lt(a, b),
    ensures
        bytes_lt(b, a),
{
    if !bytes_lt(b, a) {
        lemma_lt_total(a, b);
    }
}

/// Items in nondecreasing key order.
pub open spec fn sorted_by_key(s: Seq<(Seq<u8>, Seq<char>)>) -> bool {
    forall|i: int, j: int| 0 <= i < j < s.len() ==> !bytes_lt(#[trigger] s[j].0, #[trigger] s[i].0)
}

proof fn lemma_insert_bounded(s: Seq<(Seq<u8>, Seq<char>)>, x: (Seq<u8>, Seq<char>), b: Seq<u8>)
    requires
        forall|i: int| 0 <= i < s.len() ==> !bytes_lt(b, #[trigger] s[i].0),
        !bytes_lt(b, x.0),
    ensures
        forall|k: int|
            0 <= k < insert_by_key(s, x).len() ==> !bytes_lt(b, #[trigger] insert_by_key(s, x)[k].0),
        insert_by_key(s, x).len() == s.len() + 1,
    decreases s.len(),
{
    if s.len() > 0 && bytes_lt(x.0, s.last().0) {
        let p = s.drop_last();
        lemma_insert_bounded(p, x, b);
        assert(s[s.len() - 1] == s.last());
    }
}

proof fn lemma_insert_sorted(s: Seq<(Seq<u8>, Seq<char>)>, x: (Seq<u8>, Seq<char>))
    requires
        sorted_by_key(s),
    ensures
        sorted_by_key(insert_by_key(s, x)),
        insert_by_key(s, x).to_multiset() == s.to_multiset().insert(x),
    decreases s.len(),
{
    broadcast use vstd::seq_lib::group_to_multiset_ensures;

    if s.len() > 0 && bytes_lt(x.0, s.last().0) {
        let p = s.drop_last();
        let last = s.last();
        assert(sorted_by_key(p)) by {
            assert forall|i: int, j: int| 0 <= i < j < p.len() implies !bytes_lt(
                #[trigger] p[j].0,
                #[trigger] p[i].0,
            ) by {
                assert(p[i] == s[i] && p[j] == s[j]);
            }
        }
        lemma_insert_sorted(p, x);
        let q = insert_by_key(p, x);
        assert forall|i: int| 0 <= i < p.len() implies !bytes_lt(last.0, #[trigger] p[i].0) by {
            assert(p[i] == s[i]);
            assert(s[s.len() - 1] == last);
        }
        lemma_lt_asymmetric(x.0, last.0);
        lemma_insert_bounded(p, x, last.0);
        assert forall|i: int, j: int| 0 <= i < j < q.push(last).len() implies !bytes_lt(
            #[trigger] q.push(last)[j].0,
            #[trigger] q.push(last)[i].0,
        ) by {
            if j < q.len() {
                assert(q.push(last)[j] == q[j] && q.push(last)[i] == q[i]);
            } else {
                assert(q.push(last)[i] == q[i]);
            }
        }
        assert(s =~= p.push(last));
        assert(q.push(last).to_multiset() =~= s.to_multiset().insert(x));
    } else {
        assert forall|i: int| 0 <= i < s.len() implies !bytes_lt(x.0, #[trigger] s[i].0) by {
            if i < s.len() - 1 {
                assert(s[s.len() - 1] == s.last());
                lemma_not_lt_trans(x.0, s.last().0, s[i].0);
            }
        }
        assert forall|i: int, j: int| 0 <= i < j < s.push(x).len() implies !bytes_lt(
            #[trigger] s.push(x)[j].0,
            #[trigger] s.push(x)[i].0,
        ) by {
            if j < s.len() {
                assert(s.push(x)[j] == s[j] && s.push(x)[i] == s[i]);
            } else {
                assert(s.push(x)[i] == s[i]);
            }
        }
    }
}

/// Each group of a listing is in alphabetical order (by the lower-cased
/// name's bytes) and holds exactly the entries of that kind.
pub proof fn law_listing_groups_are_sorted(items: Seq<(Seq<u8>, Seq<char>)>)
    ensures
        sorted_by_key(sort_by_key(items)),
        sort_by_key(items).to_multiset() == items.to_multiset(),
    decreases items.len(),
{
    broadcast use vstd::seq_lib::group_to_multiset_ensures;

    if items.len() > 0 {
        law_listing_groups_are_sorted(items.drop_last());
        lemma_insert_sorted(sort_by_key(items.drop_last()), items.last());
        assert(items =~= items.drop_last().push(items.last()));
    } else {
        assert(sorted_by_key(items));
    }
}

/// The sort key and JSON object of one folder entry.
pub open spec fn entry_item(e: DirEntry) -> (Seq<u8>, Seq<char>) {
    (encode_utf8(lowercase(e.name@)), spec_entry_json(e.name@, e.kind))
}

/// The keys and JSON objects of `s`, in order.
pub open spec fn entry_items(s: Seq<DirEntry>) -> Seq<(Seq<u8>, Seq<char>)> {
    Seq::new(s.len(), |i: int| entry_item(s[i]))
}

/// The entries of `s` that are folders (when `dirs`) or not, in order.
pub open spec fn of_kind(s: Seq<DirEntry>, dirs: bool) -> Seq<DirEntry>
    decreases s.len(),
{
    if s.len() == 0 {
        Seq::empty()
    } else if (s.last().kind == EntryKind::Dir) == dirs {
        of_kind(s.drop_last(), dirs).push(s.last())
    } else {
        of_kind(s.drop_last(), dirs)
    }
}

/// `x` placed into `sorted` after every entry whose name key is not greater.
pub open spec fn insert_entry(sorted: Seq<DirEntry>, x: DirEntry) -> Seq<DirEntry>
    decreases sorted.len(),
{
    if sorted.len() > 0 && bytes_lt(entry_item(x).0, entry_item(sorted.last()).0) {
        insert_entry(sorted.drop_last(), x).push(sorted.last())
    } else {
        sorted.push(x)
    }
}

/// `s` stably sorted by name key.
pub open spec fn sort_entries(s: Seq<DirEntry>) -> Seq<DirEntry>
    decreases s.len(),
{
    if s.len() == 0 {
        s
    } else {
        insert_entry(sort_entries(s.drop_last()), s.last())
    }
}

proof fn lemma_items_push(s: Seq<DirEntry>, x: DirEntry)
    ensures
        entry_items(s.push(x)) == entry_items(s).push(entry_item(x)),
{
    assert(entry_items(s.push(x)) =~= entry_items(s).push(entry_item(x)));
}

proof fn lemma_keyed_entries_items(s: Seq<DirEntry>, dirs: bool)
    ensures
        keyed_entries(s, dirs) == entry_items(of_kind(s, dirs)),
    decreases s.len(),
{
    if s.len() == 0 {
        assert(entry_items(of_kind(s, dirs)) =~= Seq::<(Seq<u8>, Seq<char>)>::empty());
    } else {
        lemma_keyed_entries_items(s.drop_last(), dirs);
        lemma_items_push(of_kind(s.drop_last(), dirs), s.last());
    }
}

proof fn lemma_insert_items(u: Seq<DirEntry>, x: DirEntry)
    ensures
        insert_by_key(entry_items(u), entry_item(x)) == entry_items(insert_entry(u, x)),
        insert_entry(u, x).to_multiset() == u.to_multiset().insert(x),
    decreases u.len(),
{
    broadcast use vstd::seq_lib::group_to_multiset_ensures;

    let ku = entry_items(u);
    if u.len() > 0 && bytes_lt(entry_item(x).0, entry_item(u.last()).0) {
        let p = u.drop_last();
        assert(ku.last() == entry_item(u.last()));
        assert(ku.drop_last() =~= entry_items(p));
        lemma_insert_items(p, x);
        lemma_items_push(insert_entry(p, x), u.last());
        assert(u =~= p.push(u.last()));
        assert(insert_entry(u, x).to_multiset() =~= u.to_multiset().insert(x));
    } else {
        if u.len() > 0 {
            assert(ku.last() == entry_item(u.last()));
        }
        lemma_items_push(u, x);
    }
}

proof fn lemma_sort_items(t: Seq<DirEntry>)
    ensures
        sort_by_key(entry_items(t)) == entry_items(sort_entries(t)),
        sort_entries(t).to_multiset() == t.to_multiset(),
    decreases t.len(),
{
    broadcast use vstd::seq_lib::group_to_multiset_ensures;

    if t.len() == 0 {
        assert(entry_items(t) =~= Seq::<(Seq<u8>, Seq<char>)>::empty());
    } else {
        let p = t.drop_last();
        lemma_sort_items(p);
        assert(entry_items(t).drop_last() =~= entry_items(p));
        assert(entry_items(t).last() == entry_item(t.last()));
        lemma_insert_items(sort_entries(p), t.last());
        assert(t =~= p.push(t.last()));
    }
}

proof fn lemma_of_kind(s: Seq<DirEntry>, dirs: bool)
    ensures
        forall|i: int|
            0 <= i < of_kind(s, dirs).len() ==> ((#[trigger] of_kind(s, dirs)[i]).kind
                == EntryKind::Dir) == dirs,
        of_kind(s, true).to_multiset().add(of_kind(s, false).to_multiset()) == s.to_multiset(),
    decreases s.len(),
{
    broadcast use vstd::seq_lib::group_to_multiset_ensures;

    if s.len() == 0 {
        assert(of_kind(s, true).to_multiset() =~= vstd::multiset::Multiset::empty());
        assert(of_kind(s, false).to_multiset() =~= vstd::multiset::Multiset::empty());
        assert(s.to_multiset() =~= vstd::multiset::Multiset::empty());
    } else {
        let p = s.drop_last();
        lemma_of_kind(p, dirs);
        lemma_of_kind(p, true);
        assert(s =~= p.push(s.last()));
        assert(of_kind(s, true).to_multiset().add(of_kind(s, false).to_multiset())
            =~= s.to_multiset());
    }
}

proof fn lemma_sorted_group_kind(t: Seq<DirEntry>, dirs: bool)
    requires
        forall|i: int| 0 <= i < t.len() ==> ((#[trigger] t[i]).kind == EntryKind::Dir) == dirs,
    ensures
        forall|i: int|
            0 <= i < sort_entries(t).len() ==> ((#[trigger] sort_entries(t)[i]).kind
                == EntryKind::Dir) == dirs,
        forall|i: int, j: int|
            0 <= i < j < sort_entries(t).len() ==> !bytes_lt(
                encode_utf8(lowercase((#[trigger] sort_entries(t)[j]).name@)),
                encode_utf8(lowercase((#[trigger] sort_entries(t)[i]).name@)),
            ),
        sort_entries(t).to_multiset() == t.to_multiset(),
{
    broadcast use vstd::seq_lib::group_to_multiset_ensures;

    let d = sort_entries(t);
    lemma_sort_items(t);
    law_listing_groups_are_sorted(entry_items(t));
    assert forall|i: int| 0 <= i < d.len() implies ((#[trigger] d[i]).kind == EntryKind::Dir)
        == dirs by {
        assert(d.contains(d[i]));
        assert(d.to_multiset().count(d[i]) > 0);
        assert(t.to_multiset().count(d[i]) > 0);
        assert(t.contains(d[i]));
    }
    assert forall|i: int, j: int| 0 <= i < j < d.len() implies !bytes_lt(
        encode_utf8(lowercase((#[trigger] d[j]).name@)),
        encode_utf8(lowercase((#[trigger] d[i]).name@)),
    ) by {
        let k = entry_items(d);
        assert(k[j].0 == encode_utf8(lowercase(d[j].name@)));
        assert(k[i].0 == encode_utf8(lowercase(d[i].name@)));
    }
}

/// The listing order: the entries are listed (each once) folders first, then
/// files, and within each group in ascending order of the UTF-8 bytes of the
/// whole lower-cased name. `order` is that arrangement of `entries`.
pub proof fn law_listing_order(rel: Seq<char>, entries: Seq<DirEntry>) -> (order: Seq<DirEntry>)
    ensures
        order.to_multiset() == entries.to_multiset(),
        forall|i: int, j: int|
            0 <= i < j < order.len() && (#[trigger] order[j]).kind == EntryKind::Dir ==> (
            #[trigger] order[i]).kind == EntryKind::Dir,
        forall|i: int, j: int|
            0 <= i < j < order.len() && ((#[trigger] order[i]).kind == EntryKind::Dir) == ((
            #[trigger] order[j]).kind == EntryKind::Dir) ==> !bytes_lt(
                encode_utf8(lowercase(order[j].name@)),
                encode_utf8(lowercase(order[i].name@)),
            ),
        spec_listing_json(rel, entries) == "{\"path\":"@ + spec_json_string(spec_normalize_rel(rel))
            + ",\"entries\":["@ + join(
            Seq::new(order.len(), |i: int| spec_entry_json(order[i].name@, order[i].kind)),
            seq![','],
        ) + "]}"@,
{
    broadcast use vstd::seq_lib::group_to_multiset_ensures;

    let dt = of_kind(entries, true);
    let ft = of_kind(entries, false);
    lemma_of_kind(entries, true);
    lemma_of_kind(entries, false);
    lemma_keyed_entries_items(entries, true);
    lemma_keyed_entries_items(entries, false);
    lemma_sorted_group_kind(dt, true);
    lemma_sorted_group_kind(ft, false);
    lemma_sort_items(dt);
    lemma_sort_items(ft);
    let d = sort_entries(dt);
    let f = sort_entries(ft);
    let order = d + f;
    vstd::seq_lib::lemma_multiset_commutative(d, f);
    assert forall|i: int, j: int|
        0 <= i < j < order.len() && (#[trigger] order[j]).kind == EntryKind::Dir implies (
        #[trigger] order[i]).kind == EntryKind::Dir by {
        if j >= d.len() {
            assert(order[j] == f[j - d.len()]);
        } else {
            assert(order[j] == d[j] && order[i] == d[i]);
        }
    }
    assert forall|i: int, j: int|
        0 <= i < j < order.len() && ((#[trigger] order[i]).kind == EntryKind::Dir) == ((
        #[trigger] order[j]).kind == EntryKind::Dir) implies !bytes_lt(
        encode_utf8(lowercase(order[j].name@)),
        encode_utf8(lowercase(order[i].name@)),
    ) by {
        if j < d.len() {
            assert(order[j] == d[j] && order[i] == d[i]);
        } else if i >= d.len() {
            assert(order[j] == f[j - d.len()] && order[i] == f[i - d.len()]);
        } else {
            assert(order[j] == f[j - d.len()] && order[i] == d[i]);
        }
    }
    assert(values(entry_items(d) + entry_items(f)) =~= Seq::new(
        order.len(),
        |i: int| spec_entry_json(order[i].name@, order[i].kind),
    ));
    order
}

/// Lists the folder `rel` names: `entries` are what reading that folder
/// gave, or `None` when it could not be read. A path that would leave the
/// root is refused whatever `entries` holds.
pub fn list_dir_json(rel: &str, entries: Option<&Vec<DirEntry>>) -> (r: String)
    ensures
        r@ == spec_list_dir_json(
            rel@,
            match entries {
                Some(e) => Some(e@),
                None => None,
            },
        ),
{
    if resolve_within(rel).is_none() {
        return "{\"error\":\"bad path\"}".to_owned();
    }
    match entries {
        Some(e) => listing_json(rel, e),
        None => "{\"error\":\"cannot read folder\"}".to_owned(),
    }
}

} // verus!
