use vstd::prelude::*;

verus! {

use crate::errors::SyncError;
use crate::registry::{DocumentMetadata, MetaView};

// ---------------------------------------------------------------------------
// The snapshot text format, as specification functions over character
// sequences. Snapshots are plain JSON documents: identifier sets are arrays
// of strings, the metadata table is an object keyed by identifier. The
// encoder emits compact JSON in a fixed member order; the decoder accepts
// every well-formed document of the shapes above: JSON whitespace between
// tokens, the standard string escapes including `\uXXXX` and surrogate
// pairs, and record members in any order.
// ---------------------------------------------------------------------------

/// Relies on String::push: it appends exactly the one character.
pub assume_specification[ String::push ](s: &mut String, c: char)
    ensures
        final(s)@ == old(s)@.push(c),
;

/// Relies on char::from_u32: `Some` exactly on Unicode scalar values (not a
/// surrogate, not above the maximum), and the character carries that value.
pub assume_specification[ char::from_u32 ](n: u32) -> (r: Option<char>)
    ensures
        r == (if n < 0xD800 || (0xE000 <= n && n < 0x110000) {
            Some(n as char)
        } else {
            None::<char>
        }),
;

/// JSON whitespace.
pub open spec fn is_ws(c: char) -> bool {
    c == ' ' || c == '\t' || c == '\n' || c == '\r'
}

/// The input with its leading JSON whitespace dropped.
pub open spec fn skip_ws(s: Seq<char>) -> Seq<char>
    decreases s.len(),
{
    if s.len() > 0 && is_ws(s[0]) {
        skip_ws(s.drop_first())
    } else {
        s
    }
}

/// Dropping whitespace never lengthens the input.
pub proof fn lemma_skip_ws_len(s: Seq<char>)
    ensures
        skip_ws(s).len() <= s.len(),
    decreases s.len(),
{
    if s.len() > 0 && is_ws(s[0]) {
        lemma_skip_ws_len(s.drop_first());
    }
}

/// The lower-case hexadecimal digit of a value below sixteen.
pub open spec fn hex_digit(d: int) -> char {
    if d == 0 { '0' } else if d == 1 { '1' } else if d == 2 { '2' } else if d == 3 { '3' }
    else if d == 4 { '4' } else if d == 5 { '5' } else if d == 6 { '6' } else if d == 7 { '7' }
    else if d == 8 { '8' } else if d == 9 { '9' } else if d == 10 { 'a' } else if d == 11 { 'b' }
    else if d == 12 { 'c' } else if d == 13 { 'd' } else if d == 14 { 'e' } else { 'f' }
}

/// The value of a hexadecimal digit, either case; `-1` for any other
/// character.
pub open spec fn hex_val(c: char) -> int {
    let n = c as u32;
    if 48 <= n && n <= 57 {
        n - 48
    } else if 97 <= n && n <= 102 {
        n - 87
    } else if 65 <= n && n <= 70 {
        n - 55
    } else {
        -1
    }
}

/// Reading a digit back gives its value.
pub proof fn lemma_hex_digit_val(d: int)
    requires
        0 <= d < 16,
    ensures
        hex_val(hex_digit(d)) == d,
{
}

/// How one character stands inside an encoded JSON string: quote and
/// backslash escaped with a backslash, the common control characters by
/// their short escapes, the remaining control characters as `\u00XX`, and
/// every other character as itself.
pub open spec fn esc_char(c: char) -> Seq<char> {
    if c == '"' {
        seq!['\\', '"']
    } else if c == '\\' {
        seq!['\\', '\\']
    } else if c == '\u{8}' {
        seq!['\\', 'b']
    } else if c == '\u{c}' {
        seq!['\\', 'f']
    } else if c == '\n' {
        seq!['\\', 'n']
    } else if c == '\r' {
        seq!['\\', 'r']
    } else if c == '\t' {
        seq!['\\', 't']
    } else if (c as u32) < 32 {
        seq!['\\', 'u', '0', '0', hex_digit((c as u32) as int / 16), hex_digit(
            (c as u32) as int % 16,
        )]
    } else {
        seq![c]
    }
}

/// A character sequence with its characters escaped for a JSON string.
pub open spec fn esc(s: Seq<char>) -> Seq<char>
    decreases s.len(),
{
    if s.len() == 0 {
        Seq::empty()
    } else {
        esc_char(s[0]) + esc(s.drop_first())
    }
}

/// An encoded JSON string: the escaped characters between double quotes.
pub open spec fn quoted(s: Seq<char>) -> Seq<char> {
    seq!['"'] + esc(s) + seq!['"']
}

/// Escaping one more character appends its escape.
pub proof fn lemma_esc_push(s: Seq<char>, c: char)
    ensures
        esc(s.push(c)) == esc(s) + esc_char(c),
    decreases s.len(),
{
    if s.len() == 0 {
        assert(s.push(c)[0] == c);
        assert(s.push(c).drop_first() =~= Seq::<char>::empty());
        assert(esc(s.push(c)) == esc_char(c) + esc(Seq::<char>::empty()));
        assert(esc(s.push(c)) =~= esc(s) + esc_char(c));
    } else {
        assert(s.push(c)[0] == s[0]);
        assert(s.push(c).drop_first() =~= s.drop_first().push(c));
        lemma_esc_push(s.drop_first(), c);
        assert(esc(s.push(c)) == esc_char(s[0]) + esc(s.drop_first().push(c)));
        assert(esc(s) == esc_char(s[0]) + esc(s.drop_first()));
        assert(esc(s.push(c)) =~= esc(s) + esc_char(c));
    }
}

/// The value of the four hexadecimal digits at position `i`, or `-1` where
/// they are missing or not digits.
pub open spec fn hex4(s: Seq<char>, i: int) -> int {
    if i + 4 <= s.len() && hex_val(s[i]) >= 0 && hex_val(s[i + 1]) >= 0 && hex_val(s[i + 2]) >= 0
        && hex_val(s[i + 3]) >= 0 {
        hex_val(s[i]) * 4096 + hex_val(s[i + 1]) * 256 + hex_val(s[i + 2]) * 16 + hex_val(
            s[i + 3],
        )
    } else {
        -1
    }
}

/// One `\uXXXX` escape at the front of `s` (`s[0]` is the backslash,
/// `s[1]` the `u`): the character it spells and how many characters it
/// takes. A high surrogate must be followed by a `\uXXXX` low surrogate;
/// the pair spells one character beyond the basic plane.
pub open spec fn unicode_esc(s: Seq<char>) -> Option<(char, int)> {
    let c1 = hex4(s, 2);
    if c1 < 0 {
        None
    } else if c1 < 0xD800 || c1 >= 0xE000 {
        Some(((c1 as u32) as char, 6))
    } else if c1 < 0xDC00 {
        if s.len() >= 12 && s[6] == '\\' && s[7] == 'u' {
            let c2 = hex4(s, 8);
            if 0xDC00 <= c2 && c2 < 0xE000 {
                Some((((0x10000 + (c1 - 0xD800) * 1024 + (c2 - 0xDC00)) as u32) as char, 12))
            } else {
                None
            }
        } else {
            None
        }
    } else {
        None
    }
}

/// One escape at the front of `s` (`s[0]` is the backslash): the character
/// it spells and how many characters it takes.
pub open spec fn esc_code(s: Seq<char>) -> Option<(char, int)> {
    if s.len() < 2 {
        None
    } else if s[1] == '"' {
        Some(('"', 2))
    } else if s[1] == '\\' {
        Some(('\\', 2))
    } else if s[1] == '/' {
        Some(('/', 2))
    } else if s[1] == 'b' {
        Some(('\u{8}', 2))
    } else if s[1] == 'f' {
        Some(('\u{c}', 2))
    } else if s[1] == 'n' {
        Some(('\n', 2))
    } else if s[1] == 'r' {
        Some(('\r', 2))
    } else if s[1] == 't' {
        Some(('\t', 2))
    } else if s[1] == 'u' {
        unicode_esc(s)
    } else {
        None
    }
}

/// A recognized escape takes at least two characters and no more than the
/// input holds.
pub proof fn lemma_esc_code_bounds(s: Seq<char>)
    ensures
        esc_code(s) matches Some(p) ==> 2 <= p.1 <= s.len(),
{
}

/// Reads a JSON string body up to its closing quote. The input begins after
/// the opening quote; the result is the unescaped content and what follows
/// the closing quote.
pub open spec fn parse_str_body(s: Seq<char>) -> Option<(Seq<char>, Seq<char>)>
    decreases s.len(),
    via parse_str_body_decreases
{
    if s.len() == 0 {
        None
    } else if s[0] == '"' {
        Some((Seq::empty(), s.drop_first()))
    } else if s[0] == '\\' {
        match esc_code(s) {
            None => None,
            Some(e) => match parse_str_body(s.skip(e.1)) {
                None => None,
                Some(p) => Some((seq![e.0] + p.0, p.1)),
            },
        }
    } else {
        match parse_str_body(s.drop_first()) {
            None => None,
            Some(p) => Some((seq![s[0]] + p.0, p.1)),
        }
    }
}

#[via_fn]
proof fn parse_str_body_decreases(s: Seq<char>) {
    lemma_esc_code_bounds(s);
}

/// A parsed string consumes at least its closing quote.
pub proof fn lemma_parse_str_body_consumes(s: Seq<char>)
    ensures
        parse_str_body(s) matches Some(p) ==> p.1.len() < s.len(),
    decreases s.len(),
{
    if s.len() == 0 {
    } else if s[0] == '"' {
    } else if s[0] == '\\' {
        lemma_esc_code_bounds(s);
        match esc_code(s) {
            None => {},
            Some(e) => {
                lemma_parse_str_body_consumes(s.skip(e.1));
            },
        }
    } else {
        lemma_parse_str_body_consumes(s.drop_first());
    }
}

/// Reading back an escaped and quoted string yields the string, whatever
/// follows the closing quote.
pub proof fn lemma_parse_quoted(x: Seq<char>, rest: Seq<char>)
    ensures
        parse_str_body(esc(x) + seq!['"'] + rest) == Some((x, rest)),
    decreases x.len(),
{
    let s = esc(x) + seq!['"'] + rest;
    if x.len() == 0 {
        assert(esc(x) =~= Seq::<char>::empty());
        assert(s[0] == '"');
        assert(s.drop_first() =~= rest);
    } else {
        let c = x[0];
        let tail = esc(x.drop_first()) + seq!['"'] + rest;
        lemma_parse_quoted(x.drop_first(), rest);
        assert(seq![c] + x.drop_first() =~= x);
        if c == '"' || c == '\\' {
            let e = if c == '"' { '"' } else { '\\' };
            assert(s =~= seq!['\\', e] + tail);
            assert(s[0] == '\\' && s[1] == e);
            assert(s.skip(2) =~= tail);
        } else if c == '\u{8}' {
            assert(s =~= seq!['\\', 'b'] + tail);
            assert(s[0] == '\\' && s[1] == 'b');
            assert(s.skip(2) =~= tail);
        } else if c == '\u{c}' {
            assert(s =~= seq!['\\', 'f'] + tail);
            assert(s[0] == '\\' && s[1] == 'f');
            assert(s.skip(2) =~= tail);
        } else if c == '\n' {
            assert(s =~= seq!['\\', 'n'] + tail);
            assert(s[0] == '\\' && s[1] == 'n');
            assert(s.skip(2) =~= tail);
        } else if c == '\r' {
            assert(s =~= seq!['\\', 'r'] + tail);
            assert(s[0] == '\\' && s[1] == 'r');
            assert(s.skip(2) =~= tail);
        } else if c == '\t' {
            assert(s =~= seq!['\\', 't'] + tail);
            assert(s[0] == '\\' && s[1] == 't');
            assert(s.skip(2) =~= tail);
        } else if (c as u32) < 32 {
            let code = (c as u32) as int;
            let h1 = hex_digit(code / 16);
            let h0 = hex_digit(code % 16);
            assert(s =~= seq!['\\', 'u', '0', '0', h1, h0] + tail);
            assert(s[0] == '\\' && s[1] == 'u');
            assert(s[2] == '0' && s[3] == '0' && s[4] == h1 && s[5] == h0);
            lemma_hex_digit_val(code / 16);
            lemma_hex_digit_val(code % 16);
            assert(hex_val(s[2]) == 0 && hex_val(s[3]) == 0);
            assert(hex4(s, 2) == 16 * (code / 16) + code % 16);
            assert(hex4(s, 2) == code);
            vstd::utf8::char_u32_cast(c, c as u32);
            assert(unicode_esc(s) == Some((c, 6int)));
            assert(s.skip(6) =~= tail);
        } else {
            assert(s =~= seq![c] + tail);
            assert(s[0] == c);
            assert(s.drop_first() =~= tail);
        }
    }
}

/// The elements of a JSON array of strings: quoted, comma-separated, no
/// whitespace (the encoder's shape; the decoder tolerates whitespace).
pub open spec fn ids_body(ids: Seq<Seq<char>>) -> Seq<char>
    decreases ids.len(),
{
    if ids.len() == 0 {
        Seq::empty()
    } else if ids.len() == 1 {
        quoted(ids[0])
    } else {
        quoted(ids[0]) + seq![','] + ids_body(ids.drop_first())
    }
}

/// The encoder's JSON array of strings: the elements between brackets.
pub open spec fn ids_json(ids: Seq<Seq<char>>) -> Seq<char> {
    seq!['['] + ids_body(ids) + seq![']']
}

/// Encoding one more identifier appends a separator and its quoted form.
pub proof fn lemma_ids_body_push(ids: Seq<Seq<char>>, x: Seq<char>)
    ensures
        ids.len() == 0 ==> ids_body(ids.push(x)) == quoted(x),
        ids.len() > 0 ==> ids_body(ids.push(x)) == ids_body(ids) + seq![','] + quoted(x),
    decreases ids.len(),
{
    if ids.len() == 0 {
        assert(ids.push(x)[0] == x);
    } else {
        assert(ids.push(x)[0] == ids[0]);
        assert(ids.push(x).drop_first() =~= ids.drop_first().push(x));
        lemma_ids_body_push(ids.drop_first(), x);
        assert(ids_body(ids.push(x)) =~= ids_body(ids) + seq![','] + quoted(x));
    }
}

/// Reads the elements of an array of strings, the first element's opening
/// quote at the front, through to a closing bracket followed only by
/// whitespace.
pub open spec fn parse_elems(s: Seq<char>) -> Option<Seq<Seq<char>>>
    decreases s.len(),
    via parse_elems_decreases
{
    if s.len() == 0 || s[0] != '"' {
        None
    } else {
        match parse_str_body(s.drop_first()) {
            None => None,
            Some(p) => {
                let r = skip_ws(p.1);
                if r.len() >= 1 && r[0] == ']' {
                    if skip_ws(r.drop_first()).len() == 0 {
                        Some(seq![p.0])
                    } else {
                        None
                    }
                } else if r.len() >= 1 && r[0] == ',' {
                    match parse_elems(skip_ws(r.drop_first())) {
                        None => None,
                        Some(t) => Some(seq![p.0] + t),
                    }
                } else {
                    None
                }
            },
        }
    }
}

#[via_fn]
proof fn parse_elems_decreases(s: Seq<char>) {
    if s.len() > 0 && s[0] == '"' {
        lemma_parse_str_body_consumes(s.drop_first());
        match parse_str_body(s.drop_first()) {
            None => {},
            Some(p) => {
                lemma_skip_ws_len(p.1);
                let r = skip_ws(p.1);
                if r.len() >= 1 {
                    lemma_skip_ws_len(r.drop_first());
                }
            },
        }
    }
}

/// The identifier list a snapshot document spells: a well-formed JSON array
/// of strings, whitespace and string escapes included; `None` when the text
/// is not one.
pub open spec fn parse_ids(s: Seq<char>) -> Option<Seq<Seq<char>>> {
    let t = skip_ws(s);
    if t.len() == 0 || t[0] != '[' {
        None
    } else {
        let u = skip_ws(t.drop_first());
        if u.len() >= 1 && u[0] == ']' {
            if skip_ws(u.drop_first()).len() == 0 {
                Some(Seq::empty())
            } else {
                None
            }
        } else {
            parse_elems(u)
        }
    }
}

/// Reading back encoded elements yields the identifiers.
pub proof fn lemma_elems_round_trip(ids: Seq<Seq<char>>)
    requires
        ids.len() >= 1,
    ensures
        parse_elems(ids_body(ids) + seq![']']) == Some(ids),
    decreases ids.len(),
{
    let s = ids_body(ids) + seq![']'];
    if ids.len() == 1 {
        assert(s =~= seq!['"'] + (esc(ids[0]) + seq!['"'] + seq![']']));
        assert(s[0] == '"');
        assert(s.drop_first() =~= esc(ids[0]) + seq!['"'] + seq![']']);
        lemma_parse_quoted(ids[0], seq![']']);
        assert(skip_ws(seq![']']) == seq![']']);
        assert(skip_ws(seq![']'].drop_first()) =~= Seq::<char>::empty());
        assert(skip_ws(Seq::<char>::empty()).len() == 0);
        assert(seq![ids[0]] =~= ids);
    } else {
        let rest = seq![','] + ids_body(ids.drop_first()) + seq![']'];
        assert(s =~= seq!['"'] + (esc(ids[0]) + seq!['"'] + rest));
        assert(s[0] == '"');
        assert(s.drop_first() =~= esc(ids[0]) + seq!['"'] + rest);
        lemma_parse_quoted(ids[0], rest);
        assert(rest[0] == ',');
        assert(skip_ws(rest) == rest);
        lemma_elems_round_trip(ids.drop_first());
        assert(rest.drop_first() =~= ids_body(ids.drop_first()) + seq![']']);
        assert(quoted(ids.drop_first()[0]).len() >= 2);
        assert(rest.drop_first()[0] == '"');
        assert(skip_ws(rest.drop_first()) == rest.drop_first());
        assert(seq![ids[0]] + ids.drop_first() =~= ids);
    }
}

/// Law: an encoded identifier list reads back as itself.
pub proof fn lemma_ids_round_trip(ids: Seq<Seq<char>>)
    ensures
        parse_ids(ids_json(ids)) == Some(ids),
{
    let s = ids_json(ids);
    assert(s[0] == '[');
    assert(skip_ws(s) == s);
    if ids.len() == 0 {
        assert(ids_body(ids) =~= Seq::<char>::empty());
        assert(s =~= seq!['[', ']']);
        assert(s.drop_first() =~= seq![']']);
        assert(skip_ws(seq![']']) == seq![']']);
        assert(skip_ws(seq![']'].drop_first()) =~= Seq::<char>::empty());
    } else {
        assert(quoted(ids[0]).len() >= 2);
        assert(ids_body(ids).len() >= 2);
        assert(s.drop_first() =~= ids_body(ids) + seq![']']);
        assert(s.drop_first()[0] == '"');
        assert(skip_ws(s.drop_first()) == s.drop_first());
        lemma_elems_round_trip(ids);
    }
}

// ---------------------------------------------------------------------------
// The metadata snapshot: a JSON object mapping each identifier to a record
// with the members `id`, `title` and `summary`, the key repeating the
// record's identifier. The decoder accepts the three members in any order.
// ---------------------------------------------------------------------------

/// The identifier member's name.
pub open spec fn lit_id() -> Seq<char> {
    seq!['i', 'd']
}

/// The title member's name.
pub open spec fn lit_title() -> Seq<char> {
    seq!['t', 'i', 't', 'l', 'e']
}

/// The summary member's name.
pub open spec fn lit_summary() -> Seq<char> {
    seq!['s', 'u', 'm', 'm', 'a', 'r', 'y']
}

/// One encoded object member: quoted key, colon, quoted string value.
pub open spec fn member_json(k: Seq<char>, v: Seq<char>) -> Seq<char> {
    quoted(k) + seq![':'] + quoted(v)
}

/// One record, encoded: its three members in the fixed order.
pub open spec fn rec_json(m: MetaView) -> Seq<char> {
    seq!['{'] + member_json(lit_id(), m.id) + seq![','] + member_json(lit_title(), m.title)
        + seq![','] + member_json(lit_summary(), m.summary) + seq!['}']
}

/// One key/record pair of the object.
pub open spec fn pair_json(m: MetaView) -> Seq<char> {
    quoted(m.id) + seq![':'] + rec_json(m)
}

/// The pairs of the object, comma-separated.
pub open spec fn pairs_body(ms: Seq<MetaView>) -> Seq<char>
    decreases ms.len(),
{
    if ms.len() == 0 {
        Seq::empty()
    } else if ms.len() == 1 {
        pair_json(ms[0])
    } else {
        pair_json(ms[0]) + seq![','] + pairs_body(ms.drop_first())
    }
}

/// The whole metadata snapshot document.
pub open spec fn info_json(ms: Seq<MetaView>) -> Seq<char> {
    seq!['{'] + pairs_body(ms) + seq!['}']
}

/// Encoding one more record appends a separator and its pair.
pub proof fn lemma_pairs_body_push(ms: Seq<MetaView>, m: MetaView)
    ensures
        ms.len() == 0 ==> pairs_body(ms.push(m)) == pair_json(m),
        ms.len() > 0 ==> pairs_body(ms.push(m)) == pairs_body(ms) + seq![','] + pair_json(m),
    decreases ms.len(),
{
    if ms.len() == 0 {
        assert(ms.push(m)[0] == m);
    } else {
        assert(ms.push(m)[0] == ms[0]);
        assert(ms.push(m).drop_first() =~= ms.drop_first().push(m));
        lemma_pairs_body_push(ms.drop_first(), m);
        assert(pairs_body(ms.push(m)) =~= pairs_body(ms) + seq![','] + pair_json(m));
    }
}

/// Reads one object member whose value is a string: quoted key, whitespace,
/// colon, whitespace, quoted value. The key's opening quote is at the front.
pub open spec fn parse_member(s: Seq<char>) -> Option<((Seq<char>, Seq<char>), Seq<char>)> {
    if s.len() == 0 || s[0] != '"' {
        None
    } else {
        match parse_str_body(s.drop_first()) {
            None => None,
            Some(k) => {
                let r = skip_ws(k.1);
                if r.len() >= 1 && r[0] == ':' {
                    let v = skip_ws(r.drop_first());
                    if v.len() >= 1 && v[0] == '"' {
                        match parse_str_body(v.drop_first()) {
                            None => None,
                            Some(w) => Some(((k.0, w.0), w.1)),
                        }
                    } else {
                        None
                    }
                } else {
                    None
                }
            },
        }
    }
}

/// A parsed member consumes at least one character.
pub proof fn lemma_parse_member_consumes(s: Seq<char>)
    ensures
        parse_member(s) matches Some(p) ==> p.1.len() < s.len(),
{
    if s.len() >= 1 && s[0] == '"' {
        lemma_parse_str_body_consumes(s.drop_first());
        match parse_str_body(s.drop_first()) {
            None => {},
            Some(k) => {
                lemma_skip_ws_len(k.1);
                let r = skip_ws(k.1);
                if r.len() >= 1 && r[0] == ':' {
                    lemma_skip_ws_len(r.drop_first());
                    let v = skip_ws(r.drop_first());
                    if v.len() >= 1 && v[0] == '"' {
                        lemma_parse_str_body_consumes(v.drop_first());
                    }
                }
            },
        }
    }
}

/// The record its three members describe, whatever their order: each of
/// `id`, `title` and `summary` exactly once.
pub open spec fn assemble_rec(
    a: (Seq<char>, Seq<char>),
    b: (Seq<char>, Seq<char>),
    c: (Seq<char>, Seq<char>),
) -> Option<MetaView> {
    if a.0 == lit_id() && b.0 == lit_title() && c.0 == lit_summary() {
        Some(MetaView { id: a.1, title: b.1, summary: c.1 })
    } else if a.0 == lit_id() && b.0 == lit_summary() && c.0 == lit_title() {
        Some(MetaView { id: a.1, title: c.1, summary: b.1 })
    } else if a.0 == lit_title() && b.0 == lit_id() && c.0 == lit_summary() {
        Some(MetaView { id: b.1, title: a.1, summary: c.1 })
    } else if a.0 == lit_title() && b.0 == lit_summary() && c.0 == lit_id() {
        Some(MetaView { id: c.1, title: a.1, summary: b.1 })
    } else if a.0 == lit_summary() && b.0 == lit_id() && c.0 == lit_title() {
        Some(MetaView { id: b.1, title: c.1, summary: a.1 })
    } else if a.0 == lit_summary() && b.0 == lit_title() && c.0 == lit_id() {
        Some(MetaView { id: c.1, title: b.1, summary: a.1 })
    } else {
        None
    }
}

/// Reads one record from the front of `s`: a brace, its three members in
/// any order, a closing brace, whitespace tolerated between tokens.
pub open spec fn parse_rec(s: Seq<char>) -> Option<(MetaView, Seq<char>)> {
    if s.len() == 0 || s[0] != '{' {
        None
    } else {
        match parse_member(skip_ws(s.drop_first())) {
            None => None,
            Some(m1) => {
                let r1 = skip_ws(m1.1);
                if r1.len() >= 1 && r1[0] == ',' {
                    match parse_member(skip_ws(r1.drop_first())) {
                        None => None,
                        Some(m2) => {
                            let r2 = skip_ws(m2.1);
                            if r2.len() >= 1 && r2[0] == ',' {
                                match parse_member(skip_ws(r2.drop_first())) {
                                    None => None,
                                    Some(m3) => {
                                        let r3 = skip_ws(m3.1);
                                        if r3.len() >= 1 && r3[0] == '}' {
                                            match assemble_rec(m1.0, m2.0, m3.0) {
                                                None => None,
                                                Some(m) => Some((m, r3.drop_first())),
                                            }
                                        } else {
                                            None
                                        }
                                    },
                                }
                            } else {
                                None
                            }
                        },
                    }
                } else {
                    None
                }
            },
        }
    }
}

/// A parsed record consumes at least one character.
pub proof fn lemma_parse_rec_consumes(s: Seq<char>)
    ensures
        parse_rec(s) matches Some(p) ==> p.1.len() < s.len(),
{
    if s.len() >= 1 && s[0] == '{' {
        lemma_skip_ws_len(s.drop_first());
        lemma_parse_member_consumes(skip_ws(s.drop_first()));
        match parse_member(skip_ws(s.drop_first())) {
            None => {},
            Some(m1) => {
                lemma_skip_ws_len(m1.1);
                let r1 = skip_ws(m1.1);
                if r1.len() >= 1 && r1[0] == ',' {
                    lemma_skip_ws_len(r1.drop_first());
                    lemma_parse_member_consumes(skip_ws(r1.drop_first()));
                    match parse_member(skip_ws(r1.drop_first())) {
                        None => {},
                        Some(m2) => {
                            lemma_skip_ws_len(m2.1);
                            let r2 = skip_ws(m2.1);
                            if r2.len() >= 1 && r2[0] == ',' {
                                lemma_skip_ws_len(r2.drop_first());
                                lemma_parse_member_consumes(skip_ws(r2.drop_first()));
                                match parse_member(skip_ws(r2.drop_first())) {
                                    None => {},
                                    Some(m3) => {
                                        lemma_skip_ws_len(m3.1);
                                    },
                                }
                            }
                        },
                    }
                }
            },
        }
    }
}

/// Reads the pairs of the metadata object, the first key's opening quote at
/// the front, through to a closing brace followed only by whitespace. A pair
/// whose key is not the record's identifier is malformed.
pub open spec fn parse_pairs(s: Seq<char>) -> Option<Seq<MetaView>>
    decreases s.len(),
    via parse_pairs_decreases
{
    if s.len() == 0 || s[0] != '"' {
        None
    } else {
        match parse_str_body(s.drop_first()) {
            None => None,
            Some(k) => {
                let r = skip_ws(k.1);
                if r.len() >= 1 && r[0] == ':' {
                    match parse_rec(skip_ws(r.drop_first())) {
                        None => None,
                        Some(p) => if k.0 != p.0.id {
                            None
                        } else {
                            let r2 = skip_ws(p.1);
                            if r2.len() >= 1 && r2[0] == '}' {
                                if skip_ws(r2.drop_first()).len() == 0 {
                                    Some(seq![p.0])
                                } else {
                                    None
                                }
                            } else if r2.len() >= 1 && r2[0] == ',' {
                                match parse_pairs(skip_ws(r2.drop_first())) {
                                    None => None,
                                    Some(t) => Some(seq![p.0] + t),
                                }
                            } else {
                                None
                            }
                        },
                    }
                } else {
                    None
                }
            },
        }
    }
}

#[via_fn]
proof fn parse_pairs_decreases(s: Seq<char>) {
    if s.len() > 0 && s[0] == '"' {
        lemma_parse_str_body_consumes(s.drop_first());
        match parse_str_body(s.drop_first()) {
            None => {},
            Some(k) => {
                lemma_skip_ws_len(k.1);
                let r = skip_ws(k.1);
                if r.len() >= 1 && r[0] == ':' {
                    lemma_skip_ws_len(r.drop_first());
                    lemma_parse_rec_consumes(skip_ws(r.drop_first()));
                    match parse_rec(skip_ws(r.drop_first())) {
                        None => {},
                        Some(p) => {
                            lemma_skip_ws_len(p.1);
                            let r2 = skip_ws(p.1);
                            if r2.len() >= 1 {
                                lemma_skip_ws_len(r2.drop_first());
                            }
                        },
                    }
                }
            },
        }
    }
}

/// The metadata records a snapshot document spells, in order; `None` when
/// the text is not a well-formed JSON object of records.
pub open spec fn parse_info(s: Seq<char>) -> Option<Seq<MetaView>> {
    let t = skip_ws(s);
    if t.len() == 0 || t[0] != '{' {
        None
    } else {
        let u = skip_ws(t.drop_first());
        if u.len() >= 1 && u[0] == '}' {
            if skip_ws(u.drop_first()).len() == 0 {
                Some(Seq::empty())
            } else {
                None
            }
        } else {
            parse_pairs(u)
        }
    }
}

/// Reading back an encoded member yields its key and value, whatever
/// follows.
pub proof fn lemma_member_round_trip(k: Seq<char>, v: Seq<char>, rest: Seq<char>)
    ensures
        parse_member(member_json(k, v) + rest) == Some(((k, v), rest)),
{
    let s = member_json(k, v) + rest;
    let r1 = seq![':'] + quoted(v) + rest;
    assert(s =~= seq!['"'] + (esc(k) + seq!['"'] + r1));
    assert(s[0] == '"');
    assert(s.drop_first() =~= esc(k) + seq!['"'] + r1);
    lemma_parse_quoted(k, r1);
    assert(r1[0] == ':');
    assert(skip_ws(r1) == r1);
    assert(r1.drop_first() =~= quoted(v) + rest);
    assert((quoted(v) + rest)[0] == '"');
    assert(skip_ws(quoted(v) + rest) == quoted(v) + rest);
    assert((quoted(v) + rest).drop_first() =~= esc(v) + seq!['"'] + rest);
    lemma_parse_quoted(v, rest);
}

/// Reading back an encoded record yields the record, whatever follows.
#[verifier::rlimit(100)]
pub proof fn lemma_rec_round_trip(m: MetaView, rest: Seq<char>)
    ensures
        parse_rec(rec_json(m) + rest) == Some((m, rest)),
{
    let s = rec_json(m) + rest;
    let t1 = seq![','] + member_json(lit_title(), m.title) + seq![','] + member_json(
        lit_summary(),
        m.summary,
    ) + seq!['}'] + rest;
    let t2 = seq![','] + member_json(lit_summary(), m.summary) + seq!['}'] + rest;
    let t3 = seq!['}'] + rest;
    assert(s[0] == '{');
    assert(s.drop_first() =~= member_json(lit_id(), m.id) + t1);
    assert((member_json(lit_id(), m.id) + t1)[0] == '"');
    assert(skip_ws(s.drop_first()) == s.drop_first());
    lemma_member_round_trip(lit_id(), m.id, t1);
    assert(t1[0] == ',');
    assert(skip_ws(t1) == t1);
    assert(t1.drop_first() =~= member_json(lit_title(), m.title) + t2);
    assert((member_json(lit_title(), m.title) + t2)[0] == '"');
    assert(skip_ws(t1.drop_first()) == t1.drop_first());
    lemma_member_round_trip(lit_title(), m.title, t2);
    assert(t2[0] == ',');
    assert(skip_ws(t2) == t2);
    assert(t2.drop_first() =~= member_json(lit_summary(), m.summary) + t3);
    assert((member_json(lit_summary(), m.summary) + t3)[0] == '"');
    assert(skip_ws(t2.drop_first()) == t2.drop_first());
    lemma_member_round_trip(lit_summary(), m.summary, t3);
    assert(t3[0] == '}');
    assert(skip_ws(t3) == t3);
    assert(t3.drop_first() =~= rest);
    assert(assemble_rec((lit_id(), m.id), (lit_title(), m.title), (lit_summary(), m.summary))
        == Some(MetaView { id: m.id, title: m.title, summary: m.summary }));
    assert(MetaView { id: m.id, title: m.title, summary: m.summary } =~= m);
}

/// Reading back encoded pairs yields the records.
#[verifier::rlimit(100)]
pub proof fn lemma_pairs_round_trip(ms: Seq<MetaView>)
    requires
        ms.len() >= 1,
    ensures
        parse_pairs(pairs_body(ms) + seq!['}']) == Some(ms),
    decreases ms.len(),
{
    let s = pairs_body(ms) + seq!['}'];
    let m = ms[0];
    if ms.len() == 1 {
        let t1 = seq![':'] + rec_json(m) + seq!['}'];
        assert(s =~= seq!['"'] + (esc(m.id) + seq!['"'] + t1));
        assert(s[0] == '"');
        assert(s.drop_first() =~= esc(m.id) + seq!['"'] + t1);
        lemma_parse_quoted(m.id, t1);
        assert(t1[0] == ':');
        assert(skip_ws(t1) == t1);
        assert(t1.drop_first() =~= rec_json(m) + seq!['}']);
        assert((rec_json(m) + seq!['}'])[0] == '{');
        assert(skip_ws(t1.drop_first()) == t1.drop_first());
        lemma_rec_round_trip(m, seq!['}']);
        assert(skip_ws(seq!['}']) == seq!['}']);
        assert(skip_ws(seq!['}'].drop_first()) =~= Seq::<char>::empty());
        assert(seq![m] =~= ms);
    } else {
        let tail = seq![','] + pairs_body(ms.drop_first()) + seq!['}'];
        let t1 = seq![':'] + rec_json(m) + tail;
        assert(s =~= seq!['"'] + (esc(m.id) + seq!['"'] + t1));
        assert(s[0] == '"');
        assert(s.drop_first() =~= esc(m.id) + seq!['"'] + t1);
        lemma_parse_quoted(m.id, t1);
        assert(t1[0] == ':');
        assert(skip_ws(t1) == t1);
        assert(t1.drop_first() =~= rec_json(m) + tail);
        assert((rec_json(m) + tail)[0] == '{');
        assert(skip_ws(t1.drop_first()) == t1.drop_first());
        lemma_rec_round_trip(m, tail);
        assert(tail[0] == ',');
        assert(skip_ws(tail) == tail);
        lemma_pairs_round_trip(ms.drop_first());
        assert(tail.drop_first() =~= pairs_body(ms.drop_first()) + seq!['}']);
        assert(quoted(ms.drop_first()[0].id).len() >= 2);
        assert(tail.drop_first()[0] == '"');
        assert(skip_ws(tail.drop_first()) == tail.drop_first());
        assert(seq![m] + ms.drop_first() =~= ms);
    }
}

/// Law: an encoded metadata snapshot reads back as itself.
pub proof fn lemma_info_round_trip(ms: Seq<MetaView>)
    ensures
        parse_info(info_json(ms)) == Some(ms),
{
    let s = info_json(ms);
    assert(s[0] == '{');
    assert(skip_ws(s) == s);
    if ms.len() == 0 {
        assert(pairs_body(ms) =~= Seq::<char>::empty());
        assert(s =~= seq!['{', '}']);
        assert(s.drop_first() =~= seq!['}']);
        assert(skip_ws(seq!['}']) == seq!['}']);
        assert(skip_ws(seq!['}'].drop_first()) =~= Seq::<char>::empty());
    } else {
        assert(quoted(ms[0].id).len() >= 2);
        assert(pairs_body(ms).len() >= 2);
        assert(s.drop_first() =~= pairs_body(ms) + seq!['}']);
        assert(s.drop_first()[0] == '"');
        assert(skip_ws(s.drop_first()) == s.drop_first());
        lemma_pairs_round_trip(ms);
    }
}

// ---------------------------------------------------------------------------
// Executable encoder.
// ---------------------------------------------------------------------------

/// The views of a list of strings, in order.
pub open spec fn str_views(v: Seq<String>) -> Seq<Seq<char>> {
    v.map_values(|s: String| s@)
}

/// The views of a list of metadata records, in order.
pub open spec fn meta_views(v: Seq<DocumentMetadata>) -> Seq<MetaView> {
    v.map_values(|d: DocumentMetadata| d@)
}

/// The character of a hexadecimal digit.
fn hex_char(d: u32) -> (c: char)
    requires
        d < 16,
    ensures
        c == hex_digit(d as int),
{
    if d == 0 { '0' } else if d == 1 { '1' } else if d == 2 { '2' } else if d == 3 { '3' }
    else if d == 4 { '4' } else if d == 5 { '5' } else if d == 6 { '6' } else if d == 7 { '7' }
    else if d == 8 { '8' } else if d == 9 { '9' } else if d == 10 { 'a' } else if d == 11 { 'b' }
    else if d == 12 { 'c' } else if d == 13 { 'd' } else if d == 14 { 'e' } else { 'f' }
}

/// Appends the quoted, escaped form of `s` to `out`.
fn push_quoted(out: &mut String, s: &str)
    ensures
        final(out)@ == old(out)@ + quoted(s@),
{
    out.push('"');
    let n = s.unicode_len();
    let mut i: usize = 0;
    while i < n
        invariant
            i <= n,
            n == s@.len(),
            out@ == old(out)@ + seq!['"'] + esc(s@.take(i as int)),
        decreases n - i,
    {
        let c = s.get_char(i);
        if c == '"' || c == '\\' {
            out.push('\\');
            out.push(c);
        } else if c == '\u{8}' {
            out.push('\\');
            out.push('b');
        } else if c == '\u{c}' {
            out.push('\\');
            out.push('f');
        } else if c == '\n' {
            out.push('\\');
            out.push('n');
        } else if c == '\r' {
            out.push('\\');
            out.push('r');
        } else if c == '\t' {
            out.push('\\');
            out.push('t');
        } else if (c as u32) < 32 {
            out.push('\\');
            out.push('u');
            out.push('0');
            out.push('0');
            out.push(hex_char((c as u32) / 16));
            out.push(hex_char((c as u32) % 16));
        } else {
            out.push(c);
        }
        proof {
            lemma_esc_push(s@.take(i as int), c);
            assert(s@.take(i as int + 1) =~= s@.take(i as int).push(c));
            assert(out@ =~= old(out)@ + seq!['"'] + esc(s@.take(i as int + 1)));
        }
        i += 1;
    }
    out.push('"');
    proof {
        assert(s@.take(n as int) =~= s@);
        assert(out@ =~= old(out)@ + quoted(s@));
    }
}

/// Encodes an identifier list as a JSON array of strings, in order. The
/// order is the caller's; one registry always hands identifiers over in
/// insertion order, so one process writes reproducible snapshots.
pub fn encode_id_list(ids: &Vec<String>) -> (r: String)
    ensures
        r@ == ids_json(str_views(ids@)),
{
    let mut out = String::new();
    out.push('[');
    proof {
        assert(out@ =~= seq!['[']);
        assert(str_views(ids@.take(0)) =~= Seq::<Seq<char>>::empty());
    }
    let mut i: usize = 0;
    while i < ids.len()
        invariant
            i <= ids.len(),
            out@ == seq!['['] + ids_body(str_views(ids@.take(i as int))),
        decreases ids.len() - i,
    {
        if i > 0 {
            out.push(',');
        }
        push_quoted(&mut out, ids[i].as_str());
        proof {
            let prefix = str_views(ids@.take(i as int));
            lemma_ids_body_push(prefix, ids@[i as int]@);
            assert(str_views(ids@.take(i as int + 1)) =~= prefix.push(ids@[i as int]@));
            assert(out@ =~= seq!['['] + ids_body(str_views(ids@.take(i as int + 1))));
        }
        i += 1;
    }
    out.push(']');
    proof {
        assert(str_views(ids@.take(ids@.len() as int)) =~= str_views(ids@));
        assert(out@ =~= ids_json(str_views(ids@)));
    }
    out
}

/// Appends one key/record pair to `out`.
fn push_pair(out: &mut String, d: &DocumentMetadata)
    ensures
        final(out)@ == old(out)@ + pair_json(d@),
{
    proof {
        reveal_strlit("id");
        reveal_strlit("title");
        reveal_strlit("summary");
        assert("id"@ =~= lit_id());
        assert("title"@ =~= lit_title());
        assert("summary"@ =~= lit_summary());
    }
    push_quoted(out, d.id.as_str());
    out.push(':');
    out.push('{');
    push_quoted(out, "id");
    out.push(':');
    push_quoted(out, d.id.as_str());
    out.push(',');
    push_quoted(out, "title");
    out.push(':');
    push_quoted(out, d.title.as_str());
    out.push(',');
    push_quoted(out, "summary");
    out.push(':');
    push_quoted(out, d.summary.as_str());
    out.push('}');
    proof {
        assert(out@ =~= old(out)@ + pair_json(d@));
    }
}

/// Encodes the metadata records as a JSON object keyed by identifier, in the
/// given order.
pub fn encode_info(docs: &Vec<DocumentMetadata>) -> (r: String)
    ensures
        r@ == info_json(meta_views(docs@)),
{
    let mut out = String::new();
    out.push('{');
    proof {
        assert(out@ =~= seq!['{']);
        assert(meta_views(docs@.take(0)) =~= Seq::<MetaView>::empty());
    }
    let mut i: usize = 0;
    while i < docs.len()
        invariant
            i <= docs.len(),
            out@ == seq!['{'] + pairs_body(meta_views(docs@.take(i as int))),
        decreases docs.len() - i,
    {
        if i > 0 {
            out.push(',');
        }
        push_pair(&mut out, &docs[i]);
        proof {
            let prefix = meta_views(docs@.take(i as int));
            lemma_pairs_body_push(prefix, docs@[i as int]@);
            assert(meta_views(docs@.take(i as int + 1)) =~= prefix.push(docs@[i as int]@));
            assert(out@ =~= seq!['{'] + pairs_body(meta_views(docs@.take(i as int + 1))));
        }
        i += 1;
    }
    out.push('}');
    proof {
        assert(meta_views(docs@.take(docs@.len() as int)) =~= meta_views(docs@));
        assert(out@ =~= info_json(meta_views(docs@)));
    }
    out
}

// ---------------------------------------------------------------------------
// Executable decoder.
// ---------------------------------------------------------------------------

/// The characters of a string, as a vector.
fn to_char_vec(s: &str) -> (v: Vec<char>)
    ensures
        v@ == s@,
{
    let n = s.unicode_len();
    let mut v: Vec<char> = Vec::new();
    let mut i: usize = 0;
    while i < n
        invariant
            i <= n,
            n == s@.len(),
            v@ == s@.take(i as int),
        decreases n - i,
    {
        v.push(s.get_char(i));
        proof {
            assert(s@.take(i as int + 1) =~= s@.take(i as int).push(s@[i as int]));
        }
        i += 1;
    }
    proof {
        assert(s@.take(n as int) =~= s@);
    }
    v
}

/// Skips whitespace from position `i`.
fn dec_ws(s: &Vec<char>, i: usize) -> (j: usize)
    requires
        i <= s@.len(),
    ensures
        i <= j <= s@.len(),
        s@.skip(j as int) == skip_ws(s@.skip(i as int)),
{
    let n = s.len();
    let mut j: usize = i;
    while j < n && (s[j] == ' ' || s[j] == '\t' || s[j] == '\n' || s[j] == '\r')
        invariant
            i <= j <= n,
            n == s@.len(),
            skip_ws(s@.skip(i as int)) == skip_ws(s@.skip(j as int)),
        decreases n - j,
    {
        proof {
            assert(s@.skip(j as int)[0] == s@[j as int]);
            assert(s@.skip(j as int).drop_first() =~= s@.skip(j as int + 1));
        }
        j += 1;
    }
    proof {
        if j < n {
            assert(s@.skip(j as int)[0] == s@[j as int]);
        }
    }
    j
}

/// The value of a hexadecimal digit, `-1` for any other character.
fn hexv(c: char) -> (r: i32)
    ensures
        r as int == hex_val(c),
{
    let n = c as u32;
    if 48 <= n && n <= 57 {
        (n - 48) as i32
    } else if 97 <= n && n <= 102 {
        (n - 87) as i32
    } else if 65 <= n && n <= 70 {
        (n - 55) as i32
    } else {
        -1
    }
}

/// Reads the four hexadecimal digits at position `i`; `-1` where they are
/// missing or not digits.
fn hex4_at(s: &Vec<char>, i: usize) -> (r: i32)
    requires
        i <= s@.len(),
    ensures
        r as int == hex4(s@.skip(i as int), 0),
        r < 0x10000,
{
    proof {
        if i + 4 <= s@.len() {
            assert(s@.skip(i as int)[0] == s@[i as int]);
            assert(s@.skip(i as int)[1] == s@[i as int + 1]);
            assert(s@.skip(i as int)[2] == s@[i as int + 2]);
            assert(s@.skip(i as int)[3] == s@[i as int + 3]);
        }
    }
    if s.len() - i < 4 {
        return -1;
    }
    let d0 = hexv(s[i]);
    let d1 = hexv(s[i + 1]);
    let d2 = hexv(s[i + 2]);
    let d3 = hexv(s[i + 3]);
    if d0 < 0 || d1 < 0 || d2 < 0 || d3 < 0 {
        return -1;
    }
    d0 * 4096 + d1 * 256 + d2 * 16 + d3
}

/// Reads one string body from position `i`, after its opening quote.
fn dec_str_body(s: &Vec<char>, i: usize) -> (r: Option<(String, usize)>)
    requires
        i <= s@.len(),
    ensures
        match r {
            Some(p) => i < p.1 <= s@.len() && parse_str_body(s@.skip(i as int)) == Some(
                (p.0@, s@.skip(p.1 as int)),
            ),
            None => parse_str_body(s@.skip(i as int)) is None,
        },
    decreases s@.len() - i,
{
    let n = s.len();
    if i >= n {
        return None;
    }
    proof {
        assert(s@.skip(i as int)[0] == s@[i as int]);
    }
    if s[i] == '"' {
        proof {
            assert(s@.skip(i as int).drop_first() =~= s@.skip(i as int + 1));
        }
        Some((String::new(), i + 1))
    } else if s[i] == '\\' {
        let (c, used): (char, usize) = match dec_escape(s, i) {
            None => {
                return None;
            },
            Some(p) => p,
        };
        proof {
            assert(s@.skip(i as int).skip(used as int - i) =~= s@.skip(used as int));
        }
        match dec_str_body(s, used) {
            None => None,
            Some((t, j)) => {
                let mut head = String::new();
                head.push(c);
                head.append(t.as_str());
                proof {
                    assert(head@ =~= seq![c] + t@);
                }
                Some((head, j))
            },
        }
    } else {
        let c = s[i];
        proof {
            assert(s@.skip(i as int).drop_first() =~= s@.skip(i as int + 1));
        }
        match dec_str_body(s, i + 1) {
            None => None,
            Some((t, j)) => {
                let mut head = String::new();
                head.push(c);
                head.append(t.as_str());
                proof {
                    assert(head@ =~= seq![c] + t@);
                }
                Some((head, j))
            },
        }
    }
}

/// Reads one escape at position `i` (`s[i]` is the backslash): the character
/// it spells and the position after it.
#[verifier::rlimit(100)]
fn dec_escape(s: &Vec<char>, i: usize) -> (r: Option<(char, usize)>)
    requires
        i < s@.len(),
        s@[i as int] == '\\',
    ensures
        match r {
            Some(p) => i + 2 <= p.1 <= s@.len() && esc_code(s@.skip(i as int)) == Some(
                (p.0, p.1 - i),
            ),
            None => esc_code(s@.skip(i as int)) is None,
        },
{
    let ghost u = s@.skip(i as int);
    let n = s.len();
    if i + 1 >= n {
        return None;
    }
    proof {
        assert(u[1] == s@[i as int + 1]);
    }
    let e = s[i + 1];
    if e == '"' {
        Some(('"', i + 2))
    } else if e == '\\' {
        Some(('\\', i + 2))
    } else if e == '/' {
        Some(('/', i + 2))
    } else if e == 'b' {
        Some(('\u{8}', i + 2))
    } else if e == 'f' {
        Some(('\u{c}', i + 2))
    } else if e == 'n' {
        Some(('\n', i + 2))
    } else if e == 'r' {
        Some(('\r', i + 2))
    } else if e == 't' {
        Some(('\t', i + 2))
    } else if e == 'u' {
        proof {
            assert(u.skip(2) =~= s@.skip(i as int + 2));
            assert(hex4(u, 2) == hex4(u.skip(2), 0));
        }
        let c1 = hex4_at(s, i + 2);
        if c1 < 0 {
            return None;
        }
        let code1 = c1 as u32;
        if code1 < 0xD800 || code1 >= 0xE000 {
            match char::from_u32(code1) {
                Some(c) => Some((c, i + 6)),
                None => {
                    proof {
                        assert(false);
                    }
                    None
                },
            }
        } else if code1 < 0xDC00 {
            proof {
                if i + 12 <= s@.len() {
                    assert(u[6] == s@[i as int + 6]);
                    assert(u[7] == s@[i as int + 7]);
                }
            }
            if n - i < 12 || !(s[i + 6] == '\\' && s[i + 7] == 'u') {
                proof {
                    assert(u.len() < 12 || !(u[6] == '\\' && u[7] == 'u'));
                }
                return None;
            }
            proof {
                assert(u.skip(8) =~= s@.skip(i as int + 8));
                assert(hex4(u, 8) == hex4(u.skip(8), 0));
            }
            let c2 = hex4_at(s, i + 8);
            if c2 < 0xDC00 || c2 >= 0xE000 {
                return None;
            }
            let code: u32 = 0x10000 + (code1 - 0xD800) * 1024 + (c2 as u32 - 0xDC00);
            match char::from_u32(code) {
                Some(c) => Some((c, i + 12)),
                None => {
                    proof {
                        assert(false);
                    }
                    None
                },
            }
        } else {
            None
        }
    } else {
        None
    }
}

/// Reads one quoted string from position `i`.
fn dec_qstr(s: &Vec<char>, i: usize) -> (r: Option<(String, usize)>)
    requires
        i <= s@.len(),
    ensures
        match r {
            Some(p) => i < p.1 <= s@.len() && parse_str_body(s@.skip(i as int).drop_first())
                == Some((p.0@, s@.skip(p.1 as int))) && s@.skip(i as int).len() >= 1 && s@.skip(
                i as int,
            )[0] == '"',
            None => s@.skip(i as int).len() == 0 || s@.skip(i as int)[0] != '"' || parse_str_body(
                s@.skip(i as int).drop_first(),
            ) is None,
        },
{
    proof {
        if i < s@.len() {
            assert(s@.skip(i as int)[0] == s@[i as int]);
        }
    }
    if i < s.len() && s[i] == '"' {
        proof {
            assert(s@.skip(i as int).drop_first() =~= s@.skip(i as int + 1));
        }
        dec_str_body(s, i + 1)
    } else {
        None
    }
}

/// Reads array elements from position `i` (the first element's opening
/// quote), through to a closing bracket followed only by whitespace.
fn dec_elems(s: &Vec<char>, i: usize) -> (r: Option<Vec<String>>)
    requires
        i <= s@.len(),
    ensures
        match r {
            Some(v) => parse_elems(s@.skip(i as int)) == Some(str_views(v@)),
            None => parse_elems(s@.skip(i as int)) is None,
        },
    decreases s@.len() - i,
{
    let (t, j) = match dec_qstr(s, i) {
        None => {
            return None;
        },
        Some(p) => p,
    };
    let j2 = dec_ws(s, j);
    proof {
        if j2 < s@.len() {
            assert(s@.skip(j2 as int)[0] == s@[j2 as int]);
        }
    }
    if j2 < s.len() && s[j2] == ']' {
        proof {
            assert(s@.skip(j2 as int).drop_first() =~= s@.skip(j2 as int + 1));
        }
        let j3 = dec_ws(s, j2 + 1);
        if j3 == s.len() {
            let mut v: Vec<String> = Vec::new();
            v.push(t);
            proof {
                assert(str_views(v@) =~= seq![t@]);
            }
            Some(v)
        } else {
            None
        }
    } else if j2 < s.len() && s[j2] == ',' {
        proof {
            assert(s@.skip(j2 as int).drop_first() =~= s@.skip(j2 as int + 1));
        }
        let j3 = dec_ws(s, j2 + 1);
        match dec_elems(s, j3) {
            None => None,
            Some(rest) => {
                let mut rest = rest;
                let ghost rest_views = str_views(rest@);
                let mut v: Vec<String> = Vec::new();
                v.push(t);
                v.append(&mut rest);
                proof {
                    assert(str_views(v@) =~= seq![t@] + rest_views);
                }
                Some(v)
            },
        }
    } else {
        None
    }
}

/// Decodes an identifier-list snapshot: any well-formed JSON array of
/// strings. Any other text fails with `CorruptState`.
pub fn decode_id_list(s: &str) -> (r: Result<Vec<String>, SyncError>)
    ensures
        match r {
            Ok(v) => parse_ids(s@) == Some(str_views(v@)),
            Err(e) => e == SyncError::CorruptState && parse_ids(s@) is None,
        },
{
    let chars = to_char_vec(s);
    proof {
        assert(chars@.skip(0) =~= s@);
    }
    let i = dec_ws(&chars, 0);
    proof {
        if i < chars@.len() {
            assert(chars@.skip(i as int)[0] == chars@[i as int]);
        }
    }
    if i >= chars.len() || chars[i] != '[' {
        return Err(SyncError::CorruptState);
    }
    proof {
        assert(chars@.skip(i as int).drop_first() =~= chars@.skip(i as int + 1));
    }
    let j = dec_ws(&chars, i + 1);
    proof {
        if j < chars@.len() {
            assert(chars@.skip(j as int)[0] == chars@[j as int]);
        }
    }
    if j < chars.len() && chars[j] == ']' {
        proof {
            assert(chars@.skip(j as int).drop_first() =~= chars@.skip(j as int + 1));
        }
        let k = dec_ws(&chars, j + 1);
        if k == chars.len() {
            proof {
                assert(str_views(Seq::<String>::empty()) =~= Seq::<Seq<char>>::empty());
            }
            Ok(Vec::new())
        } else {
            Err(SyncError::CorruptState)
        }
    } else {
        match dec_elems(&chars, j) {
            Some(v) => Ok(v),
            None => Err(SyncError::CorruptState),
        }
    }
}

/// Reads one object member whose value is a string, the key's opening quote
/// at position `i`.
fn dec_member(s: &Vec<char>, i: usize) -> (r: Option<(String, String, usize)>)
    requires
        i <= s@.len(),
    ensures
        match r {
            Some(p) => i < p.2 <= s@.len() && parse_member(s@.skip(i as int)) == Some(
                ((p.0@, p.1@), s@.skip(p.2 as int)),
            ),
            None => parse_member(s@.skip(i as int)) is None,
        },
{
    let (k, j) = match dec_qstr(s, i) {
        None => {
            return None;
        },
        Some(p) => p,
    };
    let j2 = dec_ws(s, j);
    proof {
        if j2 < s@.len() {
            assert(s@.skip(j2 as int)[0] == s@[j2 as int]);
        }
    }
    if j2 >= s.len() || s[j2] != ':' {
        return None;
    }
    proof {
        assert(s@.skip(j2 as int).drop_first() =~= s@.skip(j2 as int + 1));
    }
    let j3 = dec_ws(s, j2 + 1);
    match dec_qstr(s, j3) {
        None => None,
        Some((v, j4)) => Some((k, v, j4)),
    }
}

/// Reads one record from position `i`, its three members in any order.
#[verifier::rlimit(100)]
fn dec_rec(s: &Vec<char>, i: usize) -> (r: Option<(DocumentMetadata, usize)>)
    requires
        i <= s@.len(),
    ensures
        match r {
            Some(p) => i < p.1 <= s@.len() && parse_rec(s@.skip(i as int)) == Some(
                (p.0@, s@.skip(p.1 as int)),
            ),
            None => parse_rec(s@.skip(i as int)) is None,
        },
{
    proof {
        if i < s@.len() {
            assert(s@.skip(i as int)[0] == s@[i as int]);
        }
    }
    if i >= s.len() || s[i] != '{' {
        return None;
    }
    proof {
        assert(s@.skip(i as int).drop_first() =~= s@.skip(i as int + 1));
    }
    let j0 = dec_ws(s, i + 1);
    let m1 = match dec_member(s, j0) {
        None => {
            return None;
        },
        Some(m) => m,
    };
    let j1 = dec_ws(s, m1.2);
    proof {
        if j1 < s@.len() {
            assert(s@.skip(j1 as int)[0] == s@[j1 as int]);
        }
    }
    if j1 >= s.len() || s[j1] != ',' {
        return None;
    }
    proof {
        assert(s@.skip(j1 as int).drop_first() =~= s@.skip(j1 as int + 1));
    }
    let j1b = dec_ws(s, j1 + 1);
    let m2 = match dec_member(s, j1b) {
        None => {
            return None;
        },
        Some(m) => m,
    };
    let j2 = dec_ws(s, m2.2);
    proof {
        if j2 < s@.len() {
            assert(s@.skip(j2 as int)[0] == s@[j2 as int]);
        }
    }
    if j2 >= s.len() || s[j2] != ',' {
        return None;
    }
    proof {
        assert(s@.skip(j2 as int).drop_first() =~= s@.skip(j2 as int + 1));
    }
    let j2b = dec_ws(s, j2 + 1);
    let m3 = match dec_member(s, j2b) {
        None => {
            return None;
        },
        Some(m) => m,
    };
    let j3 = dec_ws(s, m3.2);
    proof {
        if j3 < s@.len() {
            assert(s@.skip(j3 as int)[0] == s@[j3 as int]);
        }
    }
    if j3 >= s.len() || s[j3] != '}' {
        return None;
    }
    proof {
        assert(s@.skip(j3 as int).drop_first() =~= s@.skip(j3 as int + 1));
        reveal_strlit("id");
        reveal_strlit("title");
        reveal_strlit("summary");
        assert("id"@ =~= lit_id());
        assert("title"@ =~= lit_title());
        assert("summary"@ =~= lit_summary());
    }
    let kid = String::from_str("id");
    let ktitle = String::from_str("title");
    let ksummary = String::from_str("summary");
    let d: DocumentMetadata = if m1.0 == kid && m2.0 == ktitle && m3.0 == ksummary {
        DocumentMetadata { id: m1.1, title: m2.1, summary: m3.1 }
    } else if m1.0 == kid && m2.0 == ksummary && m3.0 == ktitle {
        DocumentMetadata { id: m1.1, title: m3.1, summary: m2.1 }
    } else if m1.0 == ktitle && m2.0 == kid && m3.0 == ksummary {
        DocumentMetadata { id: m2.1, title: m1.1, summary: m3.1 }
    } else if m1.0 == ktitle && m2.0 == ksummary && m3.0 == kid {
        DocumentMetadata { id: m3.1, title: m1.1, summary: m2.1 }
    } else if m1.0 == ksummary && m2.0 == kid && m3.0 == ktitle {
        DocumentMetadata { id: m2.1, title: m3.1, summary: m1.1 }
    } else if m1.0 == ksummary && m2.0 == ktitle && m3.0 == kid {
        DocumentMetadata { id: m3.1, title: m2.1, summary: m1.1 }
    } else {
        return None;
    };
    proof {
        let parsed = parse_rec(s@.skip(i as int)).unwrap().0;
        assert(d@ =~= parsed);
    }
    Some((d, j3 + 1))
}

/// Reads object pairs from position `i` (the first key's opening quote),
/// through to a closing brace followed only by whitespace.
fn dec_pairs(s: &Vec<char>, i: usize) -> (r: Option<Vec<DocumentMetadata>>)
    requires
        i <= s@.len(),
    ensures
        match r {
            Some(v) => parse_pairs(s@.skip(i as int)) == Some(meta_views(v@)),
            None => parse_pairs(s@.skip(i as int)) is None,
        },
    decreases s@.len() - i,
{
    let (key, j) = match dec_qstr(s, i) {
        None => {
            return None;
        },
        Some(p) => p,
    };
    let j2 = dec_ws(s, j);
    proof {
        if j2 < s@.len() {
            assert(s@.skip(j2 as int)[0] == s@[j2 as int]);
        }
    }
    if j2 >= s.len() || s[j2] != ':' {
        return None;
    }
    proof {
        assert(s@.skip(j2 as int).drop_first() =~= s@.skip(j2 as int + 1));
    }
    let j3 = dec_ws(s, j2 + 1);
    let (d, j4) = match dec_rec(s, j3) {
        None => {
            return None;
        },
        Some(p) => p,
    };
    if !(key == d.id) {
        return None;
    }
    let j5 = dec_ws(s, j4);
    proof {
        if j5 < s@.len() {
            assert(s@.skip(j5 as int)[0] == s@[j5 as int]);
        }
    }
    if j5 < s.len() && s[j5] == '}' {
        proof {
            assert(s@.skip(j5 as int).drop_first() =~= s@.skip(j5 as int + 1));
        }
        let j6 = dec_ws(s, j5 + 1);
        if j6 == s.len() {
            let mut v: Vec<DocumentMetadata> = Vec::new();
            v.push(d);
            proof {
                assert(meta_views(v@) =~= seq![d@]);
            }
            Some(v)
        } else {
            None
        }
    } else if j5 < s.len() && s[j5] == ',' {
        proof {
            assert(s@.skip(j5 as int).drop_first() =~= s@.skip(j5 as int + 1));
        }
        let j6 = dec_ws(s, j5 + 1);
        match dec_pairs(s, j6) {
            None => None,
            Some(rest) => {
                let mut rest = rest;
                let ghost rest_views = meta_views(rest@);
                let mut v: Vec<DocumentMetadata> = Vec::new();
                v.push(d);
                v.append(&mut rest);
                proof {
                    assert(meta_views(v@) =~= seq![d@] + rest_views);
                }
                Some(v)
            },
        }
    } else {
        None
    }
}

/// Decodes a metadata snapshot: any well-formed JSON object whose values are
/// records with the members `id`, `title` and `summary` in any order, each
/// key repeating its record's identifier. Any other text fails with
/// `CorruptState`.
pub fn decode_info(s: &str) -> (r: Result<Vec<DocumentMetadata>, SyncError>)
    ensures
        match r {
            Ok(v) => parse_info(s@) == Some(meta_views(v@)),
            Err(e) => e == SyncError::CorruptState && parse_info(s@) is None,
        },
{
    let chars = to_char_vec(s);
    proof {
        assert(chars@.skip(0) =~= s@);
    }
    let i = dec_ws(&chars, 0);
    proof {
        if i < chars@.len() {
            assert(chars@.skip(i as int)[0] == chars@[i as int]);
        }
    }
    if i >= chars.len() || chars[i] != '{' {
        return Err(SyncError::CorruptState);
    }
    proof {
        assert(chars@.skip(i as int).drop_first() =~= chars@.skip(i as int + 1));
    }
    let j = dec_ws(&chars, i + 1);
    proof {
        if j < chars@.len() {
            assert(chars@.skip(j as int)[0] == chars@[j as int]);
        }
    }
    if j < chars.len() && chars[j] == '}' {
        proof {
            assert(chars@.skip(j as int).drop_first() =~= chars@.skip(j as int + 1));
        }
        let k = dec_ws(&chars, j + 1);
        if k == chars.len() {
            proof {
                assert(meta_views(Seq::<DocumentMetadata>::empty()) =~= Seq::<MetaView>::empty());
            }
            Ok(Vec::new())
        } else {
            Err(SyncError::CorruptState)
        }
    } else {
        match dec_pairs(&chars, j) {
            Some(v) => Ok(v),
            None => Err(SyncError::CorruptState),
        }
    }
}

} // verus!
