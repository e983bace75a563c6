//! JSON codec for the two shapes the library exchanges with its
//! collaborators: the model reply, read as a JSON array of tag strings, and
//! the history store file, written and read back as a JSON object holding the
//! tag map under one well-known key.
//!
//! The grammar is stated as recursive specification functions over character
//! sequences; the executable parser and serializer are proved equal to them,
//! and serializing then parsing is proved to give back what was serialized.

use vstd::prelude::*;
use vstd::string::StringExecFns;

use crate::strutil::char_from_scalar;
use crate::strutil::push_char;
use crate::strutil::str_chars;

verus! {

// ---------------------------------------------------------------------------
// Whitespace and hexadecimal digits
// ---------------------------------------------------------------------------

/// JSON insignificant whitespace.
pub open spec fn is_ws(c: char) -> bool {
    c == ' ' || c == '\n' || c == '\r' || c == '\t'
}

/// The suffix of `s` that starts at its first non-whitespace character.
pub open spec fn skip_ws(s: Seq<char>) -> Seq<char>
    decreases s.len(),
{
    if s.len() > 0 && is_ws(s[0]) {
        skip_ws(s.skip(1))
    } else {
        s
    }
}

pub open spec fn is_hex_digit(c: char) -> bool {
    ('0' as u32 <= c as u32 && c as u32 <= '9' as u32)
    || ('a' as u32 <= c as u32 && c as u32 <= 'f' as u32)
    || ('A' as u32 <= c as u32 && c as u32 <= 'F' as u32)
}

/// Numeric value of one hexadecimal digit.
pub open spec fn hex_val(c: char) -> int {
    if '0' as u32 <= c as u32 && c as u32 <= '9' as u32 {
        c as u32 - '0' as u32
    } else if 'a' as u32 <= c as u32 && c as u32 <= 'f' as u32 {
        c as u32 - 'a' as u32 + 10
    } else {
        c as u32 - 'A' as u32 + 10
    }
}

/// Value of the four hexadecimal digits at the front of `s`.
pub open spec fn hex4(s: Seq<char>) -> int
    recommends s.len() >= 4,
{
    hex_val(s[0]) * 0x1000 + hex_val(s[1]) * 0x100 + hex_val(s[2]) * 0x10 + hex_val(s[3])
}

/// The lowercase hexadecimal digit for a value below 16.
pub open spec fn hex_digit(v: int) -> char
    recommends 0 <= v < 16,
{
    if v == 0 { '0' } else if v == 1 { '1' } else if v == 2 { '2' } else if v == 3 { '3' }
    else if v == 4 { '4' } else if v == 5 { '5' } else if v == 6 { '6' } else if v == 7 { '7' }
    else if v == 8 { '8' } else if v == 9 { '9' } else if v == 10 { 'a' } else if v == 11 { 'b' }
    else if v == 12 { 'c' } else if v == 13 { 'd' } else if v == 14 { 'e' } else { 'f' }
}

pub proof fn lemma_hex_digit_val(v: int)
    requires 0 <= v < 16,
    ensures
        is_hex_digit(hex_digit(v)),
        hex_val(hex_digit(v)) == v,
{
}

// ---------------------------------------------------------------------------
// JSON string contents: escaping (serializer side)
// ---------------------------------------------------------------------------

/// How one character appears inside a serialized JSON string: quotes and
/// backslashes are escaped, control characters take the `\u00XX` form, and
/// every other character stands for itself.
pub open spec fn escape_char(c: char) -> Seq<char> {
    if c == '"' {
        seq!['\\', '"']
    } else if c == '\\' {
        seq!['\\', '\\']
    } else if (c as u32) < 0x20 {
        seq!['\\', 'u', '0', '0', hex_digit(c as u32 as int / 16), hex_digit(c as u32 as int % 16)]
    } else {
        seq![c]
    }
}

/// The serialized body of a JSON string with contents `s`.
pub open spec fn escape_str(s: Seq<char>) -> Seq<char>
    decreases s.len(),
{
    if s.len() == 0 {
        Seq::empty()
    } else {
        escape_char(s[0]) + escape_str(s.skip(1))
    }
}

/// A whole serialized JSON string: quote, escaped body, quote.
pub open spec fn json_string(s: Seq<char>) -> Seq<char> {
    seq!['"'] + escape_str(s) + seq!['"']
}

pub proof fn lemma_escape_push(s: Seq<char>, c: char)
    ensures
        escape_str(s.push(c)) == escape_str(s) + escape_char(c),
    decreases s.len(),
{
    if s.len() == 0 {
        assert(s.push(c)[0] == c);
        assert(s.push(c).skip(1) =~= Seq::<char>::empty());
        assert(escape_str(Seq::<char>::empty()) == Seq::<char>::empty());
        assert(escape_str(s.push(c)) == escape_char(c) + escape_str(Seq::<char>::empty()));
        assert(escape_str(s.push(c)) =~= escape_str(s) + escape_char(c));
    } else {
        assert(s.push(c)[0] == s[0]);
        assert(s.push(c).skip(1) =~= s.skip(1).push(c));
        lemma_escape_push(s.skip(1), c);
        assert(escape_str(s.push(c)) == escape_char(s[0]) + escape_str(s.skip(1).push(c)));
        assert(escape_str(s) == escape_char(s[0]) + escape_str(s.skip(1)));
        assert(escape_char(s[0]) + (escape_str(s.skip(1)) + escape_char(c))
            =~= (escape_char(s[0]) + escape_str(s.skip(1))) + escape_char(c));
        assert(escape_str(s.push(c)) =~= escape_str(s) + escape_char(c));
    }
}

// ---------------------------------------------------------------------------
// JSON string contents: parsing
// ---------------------------------------------------------------------------

/// The character a short escape `\x` stands for, if `x` is one of the eight
/// short escapes of JSON.
pub open spec fn unescape_short(e: char) -> Option<char> {
    if e == '"' { Some('"') }
    else if e == '\\' { Some('\\') }
    else if e == '/' { Some('/') }
    else if e == 'b' { Some('\u{0008}') }
    else if e == 'f' { Some('\u{000C}') }
    else if e == 'n' { Some('\n') }
    else if e == 'r' { Some('\r') }
    else if e == 't' { Some('\t') }
    else { None }
}

/// Parses the body of a JSON string from the front of `s`, up to and
/// including the closing quote; returns the decoded contents and the rest of
/// the input. The opening quote has already been consumed.
pub open spec fn parse_string_body(s: Seq<char>) -> Option<(Seq<char>, Seq<char>)>
    decreases s.len(), 1int,
{
    if s.len() == 0 {
        None
    } else if s[0] == '"' {
        Some((Seq::empty(), s.skip(1)))
    } else if s[0] == '\\' {
        if s.len() < 2 {
            None
        } else if s[1] == 'u' {
            parse_unicode_escape(s)
        } else {
            match unescape_short(s[1]) {
                Some(c) => match parse_string_body(s.skip(2)) {
                    Some(p) => Some((seq![c] + p.0, p.1)),
                    None => None,
                },
                None => None,
            }
        }
    } else if (s[0] as u32) < 0x20 {
        None
    } else {
        match parse_string_body(s.skip(1)) {
            Some(p) => Some((seq![s[0]] + p.0, p.1)),
            None => None,
        }
    }
}

/// Parses a `\uXXXX` escape (with a following low-surrogate escape where the
/// first code unit is a high surrogate) at the front of `s`, then the rest of
/// the string body.
pub open spec fn parse_unicode_escape(s: Seq<char>) -> Option<(Seq<char>, Seq<char>)>
    recommends s.len() >= 2, s[0] == '\\', s[1] == 'u',
    decreases s.len(), 0int,
{
    if s.len() < 6 {
        None
    } else if !(is_hex_digit(s[2]) && is_hex_digit(s[3]) && is_hex_digit(s[4]) && is_hex_digit(s[5])) {
        None
    } else {
        let code = hex4(s.subrange(2, 6));
        if 0xD800 <= code && code < 0xDC00 {
            if s.len() < 12 {
                None
            } else if !(s[6] == '\\' && s[7] == 'u' && is_hex_digit(s[8]) && is_hex_digit(s[9])
                && is_hex_digit(s[10]) && is_hex_digit(s[11])) {
                None
            } else {
                let low = hex4(s.subrange(8, 12));
                if 0xDC00 <= low && low < 0xE000 {
                    let c = ((0x10000 + (code - 0xD800) * 0x400 + (low - 0xDC00)) as u32) as char;
                    match parse_string_body(s.skip(12)) {
                        Some(p) => Some((seq![c] + p.0, p.1)),
                        None => None,
                    }
                } else {
                    None
                }
            }
        } else if 0xDC00 <= code && code < 0xE000 {
            None
        } else {
            let c = (code as u32) as char;
            match parse_string_body(s.skip(6)) {
                Some(p) => Some((seq![c] + p.0, p.1)),
                None => None,
            }
        }
    }
}

// ---------------------------------------------------------------------------
// Shrinking lemmas (used for termination of the compound parsers)
// ---------------------------------------------------------------------------

pub proof fn lemma_skip_ws_len(s: Seq<char>)
    ensures skip_ws(s).len() <= s.len(),
    decreases s.len(),
{
    if s.len() > 0 && is_ws(s[0]) {
        lemma_skip_ws_len(s.skip(1));
    }
}

pub proof fn lemma_string_body_shrinks(s: Seq<char>)
    ensures
        parse_string_body(s) is Some ==> (parse_string_body(s)->0).1.len() < s.len(),
    decreases s.len(), 1int,
{
    if s.len() == 0 {
    } else if s[0] == '"' {
    } else if s[0] == '\\' {
        if s.len() >= 2 {
            if s[1] == 'u' {
                lemma_unicode_escape_shrinks(s);
            } else {
                lemma_string_body_shrinks(s.skip(2));
            }
        }
    } else if (s[0] as u32) < 0x20 {
    } else {
        lemma_string_body_shrinks(s.skip(1));
    }
}

pub proof fn lemma_unicode_escape_shrinks(s: Seq<char>)
    ensures
        parse_unicode_escape(s) is Some ==> (parse_unicode_escape(s)->0).1.len() < s.len(),
    decreases s.len(), 0int,
{
    if s.len() >= 6 {
        lemma_string_body_shrinks(s.skip(6));
        if s.len() >= 12 {
            lemma_string_body_shrinks(s.skip(12));
        }
    }
}

// ---------------------------------------------------------------------------
// Round trip: parsing a serialized string gives back its contents
// ---------------------------------------------------------------------------

/// Parsing a string body that was produced by escaping `s`, followed by its
/// closing quote, yields exactly `s` and leaves `rest`.
pub proof fn lemma_parse_escaped(s: Seq<char>, rest: Seq<char>)
    ensures
        parse_string_body(escape_str(s) + seq!['"'] + rest) == Some((s, rest)),
    decreases s.len(),
{
    let input = escape_str(s) + seq!['"'] + rest;
    if s.len() == 0 {
        assert(input[0] == '"');
        assert(input.skip(1) =~= rest);
        assert(parse_string_body(input) == Some((Seq::<char>::empty(), rest)));
        assert(Seq::<char>::empty() =~= s);
    } else {
        let c = s[0];
        let s2 = s.skip(1);
        let tail = escape_str(s2) + seq!['"'] + rest;
        lemma_parse_escaped(s2, rest);
        assert(escape_str(s) == escape_char(c) + escape_str(s2));
        assert(input =~= escape_char(c) + tail);
        if c == '"' {
            assert(input[0] == '\\' && input[1] == '"');
            assert(input.skip(2) =~= tail);
            assert(seq![c] + s2 =~= s);
        } else if c == '\\' {
            assert(input[0] == '\\' && input[1] == '\\');
            assert(input.skip(2) =~= tail);
            assert(seq![c] + s2 =~= s);
        } else if (c as u32) < 0x20 {
            let hi = c as u32 as int / 16;
            let lo = c as u32 as int % 16;
            lemma_hex_digit_val(hi);
            lemma_hex_digit_val(lo);
            lemma_hex_digit_val(0);
            assert(input[0] == '\\' && input[1] == 'u');
            assert(input.len() >= 6 + tail.len() - 1);
            assert(input.subrange(2, 6) =~= seq!['0', '0', hex_digit(hi), hex_digit(lo)]);
            let code = hex4(input.subrange(2, 6));
            assert(code == 16 * hi + lo);
            assert(code == c as u32);
            assert(input.skip(6) =~= tail);
            assert(code < 0x20);
            crate::strutil::lemma_char_cast_roundtrip(c);
            assert((c as u32) as char == c);
            assert(code as u32 == c as u32);
            assert(((code as u32) as char) == c);
            assert(parse_unicode_escape(input) == Some((seq![c] + s2, rest)));
            assert(seq![c] + s2 =~= s);
        } else {
            assert(input[0] == c);
            assert(input.skip(1) =~= tail);
            assert(seq![c] + s2 =~= s);
        }
    }
}

// ---------------------------------------------------------------------------
// Arrays of strings: the shape of a model reply
// ---------------------------------------------------------------------------

/// Parses the elements of a non-empty JSON array of strings, from the point
/// where an element is expected (right after `[` or `,`), up to and including
/// the closing bracket.
pub open spec fn parse_tag_items(s: Seq<char>) -> Option<(Seq<Seq<char>>, Seq<char>)>
    decreases s.len(),
    via parse_tag_items_dec
{
    let s1 = skip_ws(s);
    if s1.len() == 0 || s1[0] != '"' {
        None
    } else {
        match parse_string_body(s1.skip(1)) {
            None => None,
            Some(p) => {
                let r1 = skip_ws(p.1);
                if r1.len() == 0 {
                    None
                } else if r1[0] == ']' {
                    Some((seq![p.0], r1.skip(1)))
                } else if r1[0] == ',' {
                    match parse_tag_items(r1.skip(1)) {
                        Some(q) => Some((seq![p.0] + q.0, q.1)),
                        None => None,
                    }
                } else {
                    None
                }
            },
        }
    }
}

#[via_fn]
proof fn parse_tag_items_dec(s: Seq<char>) {
    let s1 = skip_ws(s);
    lemma_skip_ws_len(s);
    if s1.len() > 0 && s1[0] == '"' {
        lemma_string_body_shrinks(s1.skip(1));
        if parse_string_body(s1.skip(1)) is Some {
            lemma_skip_ws_len((parse_string_body(s1.skip(1))->0).1);
        }
    }
}

/// Parses a whole JSON array of strings from the front of `s`.
pub open spec fn parse_tag_array(s: Seq<char>) -> Option<(Seq<Seq<char>>, Seq<char>)> {
    let s1 = skip_ws(s);
    if s1.len() == 0 || s1[0] != '[' {
        None
    } else {
        let s2 = skip_ws(s1.skip(1));
        if s2.len() > 0 && s2[0] == ']' {
            Some((Seq::empty(), s2.skip(1)))
        } else {
            parse_tag_items(s1.skip(1))
        }
    }
}

/// What a model reply means: the tag list it spells, if the whole reply is
/// one JSON array of strings (with nothing but whitespace around it).
pub open spec fn tags_of(s: Seq<char>) -> Option<Seq<Seq<char>>> {
    match parse_tag_array(s) {
        Some(p) => if skip_ws(p.1).len() == 0 {
            Some(p.0)
        } else {
            None
        },
        None => None,
    }
}

// ---------------------------------------------------------------------------
// Serializing a tag list
// ---------------------------------------------------------------------------

/// The serialized elements after the first one: a comma before each.
pub open spec fn json_tags_rest(ts: Seq<Seq<char>>) -> Seq<char>
    decreases ts.len(),
{
    if ts.len() == 0 {
        Seq::empty()
    } else {
        seq![','] + json_string(ts[0]) + json_tags_rest(ts.skip(1))
    }
}

/// The serialized body of a JSON array of strings, without the brackets.
pub open spec fn json_tags_body(ts: Seq<Seq<char>>) -> Seq<char> {
    if ts.len() == 0 {
        Seq::empty()
    } else {
        json_string(ts[0]) + json_tags_rest(ts.skip(1))
    }
}

/// A serialized JSON array of strings.
pub open spec fn json_tags(ts: Seq<Seq<char>>) -> Seq<char> {
    seq!['['] + json_tags_body(ts) + seq![']']
}

/// A sequence whose first character is not whitespace is its own `skip_ws`.
pub proof fn lemma_skip_ws_noop(s: Seq<char>)
    requires s.len() == 0 || !is_ws(s[0]),
    ensures skip_ws(s) == s,
{
}

/// Parsing serialized array elements gives back exactly those elements.
pub proof fn lemma_parse_items(ts: Seq<Seq<char>>, rest: Seq<char>)
    requires ts.len() > 0,
    ensures
        parse_tag_items(json_string(ts[0]) + json_tags_rest(ts.skip(1)) + seq![']'] + rest)
            == Some((ts, rest)),
    decreases ts.len(),
{
    let input = json_string(ts[0]) + json_tags_rest(ts.skip(1)) + seq![']'] + rest;
    assert(input[0] == '"');
    lemma_skip_ws_noop(input);
    if ts.len() == 1 {
        let tail = seq![']'] + rest;
        assert(json_tags_rest(ts.skip(1)) =~= Seq::<char>::empty());
        assert(input.skip(1) =~= escape_str(ts[0]) + seq!['"'] + tail);
        lemma_parse_escaped(ts[0], tail);
        assert(parse_string_body(input.skip(1)) == Some((ts[0], tail)));
        lemma_skip_ws_noop(tail);
        assert(tail[0] == ']');
        assert(tail.skip(1) =~= rest);
        assert(seq![ts[0]] =~= ts);
    } else {
        let ts2 = ts.skip(1);
        let tail = seq![','] + json_string(ts2[0]) + json_tags_rest(ts2.skip(1)) + seq![']'] + rest;
        assert(json_tags_rest(ts.skip(1))
            =~= seq![','] + json_string(ts2[0]) + json_tags_rest(ts2.skip(1)));
        assert(input.skip(1) =~= escape_str(ts[0]) + seq!['"'] + tail);
        lemma_parse_escaped(ts[0], tail);
        assert(parse_string_body(input.skip(1)) == Some((ts[0], tail)));
        lemma_skip_ws_noop(tail);
        assert(tail[0] == ',');
        assert(tail.skip(1) =~= json_string(ts2[0]) + json_tags_rest(ts2.skip(1)) + seq![']'] + rest);
        lemma_parse_items(ts2, rest);
        assert(parse_tag_items(tail.skip(1)) == Some((ts2, rest)));
        assert(seq![ts[0]] + ts2 =~= ts);
    }
}

/// Parsing a serialized tag list followed by `rest` gives back exactly that
/// list and leaves `rest`.
pub proof fn lemma_parse_tag_array(ts: Seq<Seq<char>>, rest: Seq<char>)
    ensures
        parse_tag_array(json_tags(ts) + rest) == Some((ts, rest)),
{
    let input = json_tags(ts) + rest;
    assert(input[0] == '[');
    lemma_skip_ws_noop(input);
    if ts.len() == 0 {
        assert(input.skip(1) =~= seq![']'] + rest);
        lemma_skip_ws_noop(input.skip(1));
        assert(input.skip(1).skip(1) =~= rest);
        assert(parse_tag_array(input) == Some((Seq::<Seq<char>>::empty(), rest)));
        assert(Seq::<Seq<char>>::empty() =~= ts);
    } else {
        assert(input.skip(1) =~= json_string(ts[0]) + json_tags_rest(ts.skip(1)) + seq![']'] + rest);
        lemma_parse_items(ts, rest);
        assert(parse_tag_items(input.skip(1)) == Some((ts, rest)));
        assert(input.skip(1)[0] == '"');
        lemma_skip_ws_noop(input.skip(1));
    }
}

/// Parsing a serialized tag list gives back exactly that list.
pub proof fn lemma_tags_round_trip(ts: Seq<Seq<char>>)
    ensures
        tags_of(json_tags(ts)) == Some(ts),
{
    lemma_parse_tag_array(ts, Seq::<char>::empty());
    assert(json_tags(ts) + Seq::<char>::empty() =~= json_tags(ts));
    assert(skip_ws(Seq::<char>::empty()).len() == 0);
}

// ---------------------------------------------------------------------------
// The history object: a JSON object from text keys to tag arrays
// ---------------------------------------------------------------------------

pub proof fn lemma_tag_items_shrinks(s: Seq<char>)
    ensures
        parse_tag_items(s) is Some ==> (parse_tag_items(s)->0).1.len() < s.len(),
    decreases s.len(),
{
    let s1 = skip_ws(s);
    lemma_skip_ws_len(s);
    if s1.len() > 0 && s1[0] == '"' {
        lemma_string_body_shrinks(s1.skip(1));
        match parse_string_body(s1.skip(1)) {
            None => {},
            Some(p) => {
                let r1 = skip_ws(p.1);
                lemma_skip_ws_len(p.1);
                if r1.len() > 0 && r1[0] == ',' {
                    lemma_tag_items_shrinks(r1.skip(1));
                }
            },
        }
    }
}

pub proof fn lemma_tag_array_shrinks(s: Seq<char>)
    ensures
        parse_tag_array(s) is Some ==> (parse_tag_array(s)->0).1.len() < s.len(),
{
    let s1 = skip_ws(s);
    lemma_skip_ws_len(s);
    if s1.len() > 0 && s1[0] == '[' {
        lemma_skip_ws_len(s1.skip(1));
        lemma_tag_items_shrinks(s1.skip(1));
    }
}

/// Parses the entries of a non-empty history object, from the point where an
/// entry (`"text": [tags]`) is expected, up to and including the closing
/// brace.
pub open spec fn parse_entry_items(s: Seq<char>) -> Option<(Seq<(Seq<char>, Seq<Seq<char>>)>, Seq<char>)>
    decreases s.len(),
    via parse_entry_items_dec
{
    let s1 = skip_ws(s);
    if s1.len() == 0 || s1[0] != '"' {
        None
    } else {
        match parse_string_body(s1.skip(1)) {
            None => None,
            Some(p) => {
                let r1 = skip_ws(p.1);
                if r1.len() == 0 || r1[0] != ':' {
                    None
                } else {
                    match parse_tag_array(r1.skip(1)) {
                        None => None,
                        Some(q) => {
                            let r2 = skip_ws(q.1);
                            if r2.len() == 0 {
                                None
                            } else if r2[0] == '}' {
                                Some((seq![(p.0, q.0)], r2.skip(1)))
                            } else if r2[0] == ',' {
                                match parse_entry_items(r2.skip(1)) {
                                    Some(w) => Some((seq![(p.0, q.0)] + w.0, w.1)),
                                    None => None,
                                }
                            } else {
                                None
                            }
                        },
                    }
                }
            },
        }
    }
}

#[via_fn]
proof fn parse_entry_items_dec(s: Seq<char>) {
    let s1 = skip_ws(s);
    lemma_skip_ws_len(s);
    if s1.len() > 0 && s1[0] == '"' {
        lemma_string_body_shrinks(s1.skip(1));
        match parse_string_body(s1.skip(1)) {
            None => {},
            Some(p) => {
                let r1 = skip_ws(p.1);
                lemma_skip_ws_len(p.1);
                if r1.len() > 0 && r1[0] == ':' {
                    lemma_tag_array_shrinks(r1.skip(1));
                    match parse_tag_array(r1.skip(1)) {
                        None => {},
                        Some(q) => {
                            lemma_skip_ws_len(q.1);
                        },
                    }
                }
            },
        }
    }
}

/// Parses a whole history object from the front of `s`.
pub open spec fn parse_history_object(s: Seq<char>) -> Option<(Seq<(Seq<char>, Seq<Seq<char>>)>, Seq<char>)> {
    let s1 = skip_ws(s);
    if s1.len() == 0 || s1[0] != '{' {
        None
    } else {
        let s2 = skip_ws(s1.skip(1));
        if s2.len() > 0 && s2[0] == '}' {
            Some((Seq::empty(), s2.skip(1)))
        } else {
            parse_entry_items(s1.skip(1))
        }
    }
}

/// The well-known key the history map is stored under.
pub open spec fn store_key() -> Seq<char> {
    "clipboardHistory.text_with_related_tags"@
}

/// What a store file means: the entry sequence of the history object stored
/// under the well-known key, if the whole file is one JSON object of the
/// expected shape.
pub open spec fn history_entries_of(s: Seq<char>) -> Option<Seq<(Seq<char>, Seq<Seq<char>>)>> {
    let s1 = skip_ws(s);
    if s1.len() == 0 || s1[0] != '{' {
        None
    } else {
        let s2 = skip_ws(s1.skip(1));
        if s2.len() == 0 || s2[0] != '"' {
            None
        } else {
            match parse_string_body(s2.skip(1)) {
                None => None,
                Some(p) => {
                    if p.0 != store_key() {
                        None
                    } else {
                        let r1 = skip_ws(p.1);
                        if r1.len() == 0 || r1[0] != ':' {
                            None
                        } else {
                            match parse_history_object(r1.skip(1)) {
                                None => None,
                                Some(q) => {
                                    let r2 = skip_ws(q.1);
                                    if r2.len() > 0 && r2[0] == '}'
                                        && skip_ws(r2.skip(1)).len() == 0 {
                                        Some(q.0)
                                    } else {
                                        None
                                    }
                                },
                            }
                        }
                    }
                },
            }
        }
    }
}

// ---------------------------------------------------------------------------
// Serializing the history
// ---------------------------------------------------------------------------

/// One serialized history entry: `"text":[tags]`.
pub open spec fn json_entry(e: (Seq<char>, Seq<Seq<char>>)) -> Seq<char> {
    json_string(e.0) + seq![':'] + json_tags(e.1)
}

/// The serialized entries after the first one: a comma before each.
pub open spec fn json_entries_rest(es: Seq<(Seq<char>, Seq<Seq<char>>)>) -> Seq<char>
    decreases es.len(),
{
    if es.len() == 0 {
        Seq::empty()
    } else {
        seq![','] + json_entry(es[0]) + json_entries_rest(es.skip(1))
    }
}

/// The serialized body of a history object, without the braces.
pub open spec fn json_entries_body(es: Seq<(Seq<char>, Seq<Seq<char>>)>) -> Seq<char> {
    if es.len() == 0 {
        Seq::empty()
    } else {
        json_entry(es[0]) + json_entries_rest(es.skip(1))
    }
}

/// A serialized history object.
pub open spec fn json_history_object(es: Seq<(Seq<char>, Seq<Seq<char>>)>) -> Seq<char> {
    seq!['{'] + json_entries_body(es) + seq!['}']
}

/// The whole store file for a history with the given entries.
pub open spec fn store_file_of(es: Seq<(Seq<char>, Seq<Seq<char>>)>) -> Seq<char> {
    seq!['{'] + json_string(store_key()) + seq![':'] + json_history_object(es) + seq!['}']
}

/// Parsing serialized history entries gives back exactly those entries.
#[verifier::rlimit(60)]
pub proof fn lemma_parse_entries(es: Seq<(Seq<char>, Seq<Seq<char>>)>, rest: Seq<char>)
    requires es.len() > 0,
    ensures
        parse_entry_items(json_entry(es[0]) + json_entries_rest(es.skip(1)) + seq!['}'] + rest)
            == Some((es, rest)),
    decreases es.len(),
{
    let input = json_entry(es[0]) + json_entries_rest(es.skip(1)) + seq!['}'] + rest;
    assert(input[0] == '"');
    lemma_skip_ws_noop(input);
    if es.len() == 1 {
        let tail2 = seq!['}'] + rest;
        let tail = seq![':'] + json_tags(es[0].1) + tail2;
        assert(json_entries_rest(es.skip(1)) =~= Seq::<char>::empty());
        assert(input.skip(1) =~= escape_str(es[0].0) + seq!['"'] + tail);
        lemma_parse_escaped(es[0].0, tail);
        assert(parse_string_body(input.skip(1)) == Some((es[0].0, tail)));
        lemma_skip_ws_noop(tail);
        assert(tail[0] == ':');
        assert(tail.skip(1) =~= json_tags(es[0].1) + tail2);
        lemma_parse_tag_array(es[0].1, tail2);
        lemma_skip_ws_noop(tail2);
        assert(tail2[0] == '}');
        assert(tail2.skip(1) =~= rest);
        assert(seq![(es[0].0, es[0].1)] =~= es);
    } else {
        let es2 = es.skip(1);
        let tail2 = seq![','] + json_entry(es2[0]) + json_entries_rest(es2.skip(1)) + seq!['}'] + rest;
        let tail = seq![':'] + json_tags(es[0].1) + tail2;
        assert(json_entries_rest(es.skip(1))
            =~= seq![','] + json_entry(es2[0]) + json_entries_rest(es2.skip(1)));
        assert(input.skip(1) =~= escape_str(es[0].0) + seq!['"'] + tail);
        lemma_parse_escaped(es[0].0, tail);
        assert(parse_string_body(input.skip(1)) == Some((es[0].0, tail)));
        lemma_skip_ws_noop(tail);
        assert(tail[0] == ':');
        assert(tail.skip(1) =~= json_tags(es[0].1) + tail2);
        lemma_parse_tag_array(es[0].1, tail2);
        lemma_skip_ws_noop(tail2);
        assert(tail2[0] == ',');
        assert(tail2.skip(1) =~= json_entry(es2[0]) + json_entries_rest(es2.skip(1)) + seq!['}'] + rest);
        lemma_parse_entries(es2, rest);
        assert(parse_entry_items(tail2.skip(1)) == Some((es2, rest)));
        assert(seq![(es[0].0, es[0].1)] + es2 =~= es);
    }
}

/// Parsing a serialized history object followed by `rest` gives back exactly
/// its entries and leaves `rest`.
pub proof fn lemma_parse_history_object(es: Seq<(Seq<char>, Seq<Seq<char>>)>, rest: Seq<char>)
    ensures
        parse_history_object(json_history_object(es) + rest) == Some((es, rest)),
{
    let input = json_history_object(es) + rest;
    assert(input[0] == '{');
    lemma_skip_ws_noop(input);
    if es.len() == 0 {
        assert(input.skip(1) =~= seq!['}'] + rest);
        lemma_skip_ws_noop(input.skip(1));
        assert(input.skip(1).skip(1) =~= rest);
        assert(Seq::<(Seq<char>, Seq<Seq<char>>)>::empty() =~= es);
    } else {
        assert(input.skip(1)
            =~= json_entry(es[0]) + json_entries_rest(es.skip(1)) + seq!['}'] + rest);
        lemma_parse_entries(es, rest);
        assert(input.skip(1)[0] == '"');
        lemma_skip_ws_noop(input.skip(1));
    }
}

/// Round trip of the store file: parsing a serialized history gives back
/// exactly the entries that were serialized.
pub proof fn lemma_store_round_trip(es: Seq<(Seq<char>, Seq<Seq<char>>)>)
    ensures
        history_entries_of(store_file_of(es)) == Some(es),
{
    let input = store_file_of(es);
    assert(input[0] == '{');
    lemma_skip_ws_noop(input);
    let close = seq!['}'];
    let tail = seq![':'] + json_history_object(es) + close;
    assert(input.skip(1) =~= seq!['"'] + escape_str(store_key()) + seq!['"'] + tail);
    assert(input.skip(1)[0] == '"');
    lemma_skip_ws_noop(input.skip(1));
    assert(input.skip(1).skip(1) =~= escape_str(store_key()) + seq!['"'] + tail);
    lemma_parse_escaped(store_key(), tail);
    assert(parse_string_body(input.skip(1).skip(1)) == Some((store_key(), tail)));
    lemma_skip_ws_noop(tail);
    assert(tail[0] == ':');
    assert(tail.skip(1) =~= json_history_object(es) + close);
    lemma_parse_history_object(es, close);
    assert(parse_history_object(tail.skip(1)) == Some((es, close)));
    lemma_skip_ws_noop(close);
    assert(close[0] == '}');
    assert(close.skip(1) =~= Seq::<char>::empty());
    assert(skip_ws(Seq::<char>::empty()).len() == 0);
}

// ---------------------------------------------------------------------------
// The executable parser
// ---------------------------------------------------------------------------

proof fn lemma_skip_skip(s: Seq<char>, i: int, k: int)
    requires 0 <= i, 0 <= k, i + k <= s.len(),
    ensures s.skip(i + k) == s.skip(i).skip(k),
{
    assert(s.skip(i).skip(k) =~= s.skip(i + k));
}

fn is_ws_exec(c: char) -> (r: bool)
    ensures r == is_ws(c),
{
    c == ' ' || c == '\n' || c == '\r' || c == '\t'
}

fn skip_ws_exec(v: &Vec<char>, i: usize) -> (j: usize)
    requires i <= v@.len(),
    ensures
        i <= j && j <= v@.len(),
        skip_ws(v@.skip(i as int)) == v@.skip(j as int),
{
    let mut j: usize = i;
    loop
        invariant
            i <= j && j <= v@.len(),
            skip_ws(v@.skip(i as int)) == skip_ws(v@.skip(j as int)),
        decreases v@.len() - j,
    {
        if j < v.len() {
            let c = v[j];
            if is_ws_exec(c) {
                proof {
                    assert(v@.skip(j as int)[0] == c);
                    lemma_skip_skip(v@, j as int, 1);
                }
                j = j + 1;
            } else {
                proof {
                    assert(v@.skip(j as int)[0] == c);
                    lemma_skip_ws_noop(v@.skip(j as int));
                }
                return j;
            }
        } else {
            proof {
                lemma_skip_ws_noop(v@.skip(j as int));
            }
            return j;
        }
    }
}

fn is_hex_digit_exec(c: char) -> (r: bool)
    ensures r == is_hex_digit(c),
{
    let u = c as u32;
    ('0' as u32 <= u && u <= '9' as u32)
    || ('a' as u32 <= u && u <= 'f' as u32)
    || ('A' as u32 <= u && u <= 'F' as u32)
}

fn hex_val_exec(c: char) -> (r: u32)
    requires is_hex_digit(c),
    ensures r < 16, r as int == hex_val(c),
{
    let u = c as u32;
    if '0' as u32 <= u && u <= '9' as u32 {
        u - '0' as u32
    } else if 'a' as u32 <= u && u <= 'f' as u32 {
        u - 'a' as u32 + 10
    } else {
        u - 'A' as u32 + 10
    }
}

fn unescape_short_exec(e: char) -> (r: Option<char>)
    ensures r == unescape_short(e),
{
    if e == '"' { Some('"') }
    else if e == '\\' { Some('\\') }
    else if e == '/' { Some('/') }
    else if e == 'b' { Some('\u{0008}') }
    else if e == 'f' { Some('\u{000C}') }
    else if e == 'n' { Some('\n') }
    else if e == 'r' { Some('\r') }
    else if e == 't' { Some('\t') }
    else { None }
}

/// Prepends one character to a parsed remainder.
fn prepend_char(c: char, t: String) -> (r: String)
    ensures r@ == seq![c] + t@,
{
    let mut out = String::new();
    push_char(&mut out, c);
    out.append(t.as_str());
    proof {
        assert(out@ =~= seq![c] + t@);
    }
    out
}

fn parse_string_body_exec(v: &Vec<char>, i: usize) -> (r: Option<(String, usize)>)
    requires i <= v@.len(),
    ensures
        match r {
            Some(p) => parse_string_body(v@.skip(i as int)) == Some((p.0@, v@.skip(p.1 as int)))
                && i < p.1 && p.1 <= v@.len(),
            None => parse_string_body(v@.skip(i as int)) is None,
        },
    decreases v@.len() - i, 1int,
{
    let ghost s = v@.skip(i as int);
    if i == v.len() {
        return None;
    }
    let c = v[i];
    proof {
        assert(s[0] == c);
    }
    if c == '"' {
        proof {
            lemma_skip_skip(v@, i as int, 1);
        }
        Some((String::new(), i + 1))
    } else if c == '\\' {
        if i + 1 == v.len() {
            proof {
                assert(s.len() < 2);
            }
            return None;
        }
        let e = v[i + 1];
        proof {
            assert(s[1] == e);
        }
        if e == 'u' {
            parse_unicode_exec(v, i)
        } else {
            match unescape_short_exec(e) {
                None => None,
                Some(c2) => {
                    proof {
                        lemma_skip_skip(v@, i as int, 2);
                    }
                    match parse_string_body_exec(v, i + 2) {
                        None => None,
                        Some((t, j)) => Some((prepend_char(c2, t), j)),
                    }
                },
            }
        }
    } else if (c as u32) < 0x20 {
        None
    } else {
        proof {
            lemma_skip_skip(v@, i as int, 1);
        }
        match parse_string_body_exec(v, i + 1) {
            None => None,
            Some((t, j)) => Some((prepend_char(c, t), j)),
        }
    }
}

fn parse_unicode_exec(v: &Vec<char>, i: usize) -> (r: Option<(String, usize)>)
    requires i <= v@.len(),
    ensures
        match r {
            Some(p) => parse_unicode_escape(v@.skip(i as int)) == Some((p.0@, v@.skip(p.1 as int)))
                && i < p.1 && p.1 <= v@.len(),
            None => parse_unicode_escape(v@.skip(i as int)) is None,
        },
    decreases v@.len() - i, 0int,
{
    let ghost s = v@.skip(i as int);
    if v.len() - i < 6 {
        return None;
    }
    let h0 = v[i + 2];
    let h1 = v[i + 3];
    let h2 = v[i + 4];
    let h3 = v[i + 5];
    proof {
        assert(s[2] == h0 && s[3] == h1 && s[4] == h2 && s[5] == h3);
    }
    if !(is_hex_digit_exec(h0) && is_hex_digit_exec(h1) && is_hex_digit_exec(h2)
        && is_hex_digit_exec(h3)) {
        return None;
    }
    let code: u32 = hex_val_exec(h0) * 0x1000 + hex_val_exec(h1) * 0x100 + hex_val_exec(h2) * 0x10
        + hex_val_exec(h3);
    proof {
        assert(s.subrange(2, 6) =~= seq![h0, h1, h2, h3]);
        assert(code as int == hex4(s.subrange(2, 6)));
    }
    if 0xD800 <= code && code < 0xDC00 {
        if v.len() - i < 12 {
            return None;
        }
        let l0 = v[i + 8];
        let l1 = v[i + 9];
        let l2 = v[i + 10];
        let l3 = v[i + 11];
        proof {
            assert(s[6] == v@[i + 6] && s[7] == v@[i + 7]);
            assert(s[8] == l0 && s[9] == l1 && s[10] == l2 && s[11] == l3);
        }
        if !(v[i + 6] == '\\' && v[i + 7] == 'u' && is_hex_digit_exec(l0) && is_hex_digit_exec(l1)
            && is_hex_digit_exec(l2) && is_hex_digit_exec(l3)) {
            return None;
        }
        let low: u32 = hex_val_exec(l0) * 0x1000 + hex_val_exec(l1) * 0x100 + hex_val_exec(l2) * 0x10
            + hex_val_exec(l3);
        proof {
            assert(s.subrange(8, 12) =~= seq![l0, l1, l2, l3]);
            assert(low as int == hex4(s.subrange(8, 12)));
        }
        if 0xDC00 <= low && low < 0xE000 {
            let u: u32 = 0x10000 + (code - 0xD800) * 0x400 + (low - 0xDC00);
            let c = char_from_scalar(u);
            proof {
                lemma_skip_skip(v@, i as int, 12);
            }
            match parse_string_body_exec(v, i + 12) {
                None => None,
                Some((t, j)) => Some((prepend_char(c, t), j)),
            }
        } else {
            None
        }
    } else if 0xDC00 <= code && code < 0xE000 {
        None
    } else {
        let c = char_from_scalar(code);
        proof {
            lemma_skip_skip(v@, i as int, 6);
        }
        match parse_string_body_exec(v, i + 6) {
            None => None,
            Some((t, j)) => Some((prepend_char(c, t), j)),
        }
    }
}

fn parse_tag_array_exec(v: &Vec<char>, i: usize) -> (r: Option<(Vec<String>, usize)>)
    requires i <= v@.len(),
    ensures
        match r {
            Some(p) => parse_tag_array(v@.skip(i as int)) == Some((p.0.deep_view(), v@.skip(p.1 as int)))
                && i < p.1 && p.1 <= v@.len(),
            None => parse_tag_array(v@.skip(i as int)) is None,
        },
{
    let j0 = skip_ws_exec(v, i);
    if j0 == v.len() || !(v[j0] == '[') {
        proof {
            if j0 < v@.len() {
                assert(v@.skip(j0 as int)[0] == v@[j0 as int]);
            }
        }
        return None;
    }
    proof {
        assert(v@.skip(j0 as int)[0] == '[');
        lemma_skip_skip(v@, j0 as int, 1);
    }
    let j1 = skip_ws_exec(v, j0 + 1);
    if j1 < v.len() && v[j1] == ']' {
        let out: Vec<String> = Vec::new();
        proof {
            assert(v@.skip(j1 as int)[0] == ']');
            lemma_skip_skip(v@, j1 as int, 1);
            assert(out.deep_view() =~= Seq::<Seq<char>>::empty());
        }
        return Some((out, j1 + 1));
    }
    proof {
        if j1 < v@.len() {
            assert(v@.skip(j1 as int)[0] == v@[j1 as int]);
        }
    }
    parse_tag_items_exec(v, j0 + 1)
}

fn parse_tag_items_exec(v: &Vec<char>, i: usize) -> (r: Option<(Vec<String>, usize)>)
    requires i <= v@.len(),
    ensures
        match r {
            Some(p) => parse_tag_items(v@.skip(i as int)) == Some((p.0.deep_view(), v@.skip(p.1 as int)))
                && i < p.1 && p.1 <= v@.len(),
            None => parse_tag_items(v@.skip(i as int)) is None,
        },
    decreases v@.len() - i,
{
    let j0 = skip_ws_exec(v, i);
    if j0 == v.len() || !(v[j0] == '"') {
        proof {
            if j0 < v@.len() {
                assert(v@.skip(j0 as int)[0] == v@[j0 as int]);
            }
        }
        return None;
    }
    proof {
        assert(v@.skip(j0 as int)[0] == '"');
        lemma_skip_skip(v@, j0 as int, 1);
    }
    match parse_string_body_exec(v, j0 + 1) {
        None => None,
        Some((t, j1)) => {
            let j2 = skip_ws_exec(v, j1);
            if j2 == v.len() {
                return None;
            }
            let c = v[j2];
            proof {
                assert(v@.skip(j2 as int)[0] == c);
            }
            if c == ']' {
                proof {
                    lemma_skip_skip(v@, j2 as int, 1);
                }
                let mut out: Vec<String> = Vec::new();
                out.push(t);
                proof {
                    assert(out.deep_view() =~= seq![out@[0]@]);
                }
                Some((out, j2 + 1))
            } else if c == ',' {
                proof {
                    lemma_skip_skip(v@, j2 as int, 1);
                }
                match parse_tag_items_exec(v, j2 + 1) {
                    None => None,
                    Some((mut ts, j3)) => {
                        let ghost tail = ts.deep_view();
                        let mut out: Vec<String> = Vec::new();
                        out.push(t);
                        out.append(&mut ts);
                        proof {
                            assert(out.deep_view() =~= seq![out@[0]@] + tail);
                        }
                        Some((out, j3))
                    },
                }
            } else {
                None
            }
        },
    }
}

/// Parses a model reply as a JSON array of strings: the executable side of
/// `tags_of`. Returns the tag list exactly when the whole reply is one JSON
/// array of strings.
pub fn parse_tags(reply: &str) -> (r: Option<Vec<String>>)
    ensures
        match r {
            Some(ts) => tags_of(reply@) == Some(ts.deep_view()),
            None => tags_of(reply@) is None,
        },
{
    let v = str_chars(reply);
    proof {
        assert(v@.skip(0) =~= reply@);
    }
    match parse_tag_array_exec(&v, 0) {
        None => None,
        Some((ts, j)) => {
            let j_end = skip_ws_exec(&v, j);
            if j_end == v.len() {
                proof {
                    assert(v@.skip(j_end as int).len() == 0);
                }
                Some(ts)
            } else {
                proof {
                    assert(v@.skip(j_end as int).len() > 0);
                }
                None
            }
        },
    }
}

// ---------------------------------------------------------------------------
// The executable parser for the store file
// ---------------------------------------------------------------------------

fn parse_entry_items_exec(v: &Vec<char>, i: usize) -> (r: Option<(Vec<(String, Vec<String>)>, usize)>)
    requires i <= v@.len(),
    ensures
        match r {
            Some(p) => parse_entry_items(v@.skip(i as int))
                == Some((p.0.deep_view(), v@.skip(p.1 as int))) && i < p.1 && p.1 <= v@.len(),
            None => parse_entry_items(v@.skip(i as int)) is None,
        },
    decreases v@.len() - i,
{
    let j0 = skip_ws_exec(v, i);
    if j0 == v.len() || !(v[j0] == '"') {
        proof {
            if j0 < v@.len() {
                assert(v@.skip(j0 as int)[0] == v@[j0 as int]);
            }
        }
        return None;
    }
    proof {
        assert(v@.skip(j0 as int)[0] == '"');
        lemma_skip_skip(v@, j0 as int, 1);
    }
    match parse_string_body_exec(v, j0 + 1) {
        None => None,
        Some((t, j1)) => {
            let j2 = skip_ws_exec(v, j1);
            if j2 == v.len() || !(v[j2] == ':') {
                proof {
                    if j2 < v@.len() {
                        assert(v@.skip(j2 as int)[0] == v@[j2 as int]);
                    }
                }
                return None;
            }
            proof {
                assert(v@.skip(j2 as int)[0] == ':');
                lemma_skip_skip(v@, j2 as int, 1);
            }
            match parse_tag_array_exec(v, j2 + 1) {
                None => None,
                Some((tags, j3)) => {
                    let j4 = skip_ws_exec(v, j3);
                    if j4 == v.len() {
                        return None;
                    }
                    let c = v[j4];
                    proof {
                        assert(v@.skip(j4 as int)[0] == c);
                    }
                    if c == '}' {
                        proof {
                            lemma_skip_skip(v@, j4 as int, 1);
                        }
                        let mut out: Vec<(String, Vec<String>)> = Vec::new();
                        out.push((t, tags));
                        proof {
                            assert(out.deep_view() =~= seq![(out@[0].0@, out@[0].1.deep_view())]);
                        }
                        Some((out, j4 + 1))
                    } else if c == ',' {
                        proof {
                            lemma_skip_skip(v@, j4 as int, 1);
                        }
                        match parse_entry_items_exec(v, j4 + 1) {
                            None => None,
                            Some((mut es, j5)) => {
                                let ghost tail = es.deep_view();
                                let mut out: Vec<(String, Vec<String>)> = Vec::new();
                                out.push((t, tags));
                                out.append(&mut es);
                                proof {
                                    assert(out.deep_view()
                                        =~= seq![(out@[0].0@, out@[0].1.deep_view())] + tail);
                                }
                                Some((out, j5))
                            },
                        }
                    } else {
                        None
                    }
                },
            }
        },
    }
}

fn parse_history_object_exec(v: &Vec<char>, i: usize) -> (r: Option<(Vec<(String, Vec<String>)>, usize)>)
    requires i <= v@.len(),
    ensures
        match r {
            Some(p) => parse_history_object(v@.skip(i as int))
                == Some((p.0.deep_view(), v@.skip(p.1 as int))) && i < p.1 && p.1 <= v@.len(),
            None => parse_history_object(v@.skip(i as int)) is None,
        },
{
    let j0 = skip_ws_exec(v, i);
    if j0 == v.len() || !(v[j0] == '{') {
        proof {
            if j0 < v@.len() {
                assert(v@.skip(j0 as int)[0] == v@[j0 as int]);
            }
        }
        return None;
    }
    proof {
        assert(v@.skip(j0 as int)[0] == '{');
        lemma_skip_skip(v@, j0 as int, 1);
    }
    let j1 = skip_ws_exec(v, j0 + 1);
    if j1 < v.len() && v[j1] == '}' {
        let out: Vec<(String, Vec<String>)> = Vec::new();
        proof {
            assert(v@.skip(j1 as int)[0] == '}');
            lemma_skip_skip(v@, j1 as int, 1);
            assert(out.deep_view() =~= Seq::<(Seq<char>, Seq<Seq<char>>)>::empty());
        }
        return Some((out, j1 + 1));
    }
    proof {
        if j1 < v@.len() {
            assert(v@.skip(j1 as int)[0] == v@[j1 as int]);
        }
    }
    parse_entry_items_exec(v, j0 + 1)
}

/// Parses a store file as the JSON object holding the history map under the
/// well-known key: the executable side of `history_entries_of`.
pub fn parse_store_file(content: &str) -> (r: Option<Vec<(String, Vec<String>)>>)
    ensures
        match r {
            Some(es) => history_entries_of(content@) == Some(es.deep_view()),
            None => history_entries_of(content@) is None,
        },
{
    let v = str_chars(content);
    proof {
        assert(v@.skip(0) =~= content@);
    }
    let j0 = skip_ws_exec(&v, 0);
    if j0 == v.len() || !(v[j0] == '{') {
        proof {
            if j0 < v@.len() {
                assert(v@.skip(j0 as int)[0] == v@[j0 as int]);
            }
        }
        return None;
    }
    proof {
        assert(v@.skip(j0 as int)[0] == '{');
        lemma_skip_skip(v@, j0 as int, 1);
    }
    let j1 = skip_ws_exec(&v, j0 + 1);
    if j1 == v.len() || !(v[j1] == '"') {
        proof {
            if j1 < v@.len() {
                assert(v@.skip(j1 as int)[0] == v@[j1 as int]);
            }
        }
        return None;
    }
    proof {
        assert(v@.skip(j1 as int)[0] == '"');
        lemma_skip_skip(v@, j1 as int, 1);
    }
    match parse_string_body_exec(&v, j1 + 1) {
        None => None,
        Some((key, j2)) => {
            let expected: String = "clipboardHistory.text_with_related_tags".to_owned();
            if !(key == expected) {
                return None;
            }
            proof {
                assert(key@ == store_key());
            }
            let j3 = skip_ws_exec(&v, j2);
            if j3 == v.len() || !(v[j3] == ':') {
                proof {
                    if j3 < v@.len() {
                        assert(v@.skip(j3 as int)[0] == v@[j3 as int]);
                    }
                }
                return None;
            }
            proof {
                assert(v@.skip(j3 as int)[0] == ':');
                lemma_skip_skip(v@, j3 as int, 1);
            }
            match parse_history_object_exec(&v, j3 + 1) {
                None => None,
                Some((es, j4)) => {
                    let j5 = skip_ws_exec(&v, j4);
                    if j5 == v.len() || !(v[j5] == '}') {
                        proof {
                            if j5 < v@.len() {
                                assert(v@.skip(j5 as int)[0] == v@[j5 as int]);
                            }
                        }
                        return None;
                    }
                    proof {
                        assert(v@.skip(j5 as int)[0] == '}');
                        lemma_skip_skip(v@, j5 as int, 1);
                    }
                    let j6 = skip_ws_exec(&v, j5 + 1);
                    if j6 == v.len() {
                        proof {
                            assert(v@.skip(j6 as int).len() == 0);
                        }
                        Some(es)
                    } else {
                        proof {
                            assert(v@.skip(j6 as int).len() > 0);
                        }
                        None
                    }
                },
            }
        },
    }
}

// ---------------------------------------------------------------------------
// The executable serializer
// ---------------------------------------------------------------------------

fn hex_digit_exec(d: u8) -> (r: char)
    requires d < 16,
    ensures r == hex_digit(d as int),
{
    if d < 10 {
        (48 + d) as char
    } else {
        (87 + d) as char
    }
}

fn push_escaped(out: &mut String, c: char)
    ensures final(out)@ == old(out)@ + escape_char(c),
{
    if c == '"' {
        push_char(out, '\\');
        push_char(out, '"');
        proof {
            assert(old(out)@.push('\\').push('"') =~= old(out)@ + escape_char(c));
        }
    } else if c == '\\' {
        push_char(out, '\\');
        push_char(out, '\\');
        proof {
            assert(old(out)@.push('\\').push('\\') =~= old(out)@ + escape_char(c));
        }
    } else {
        let u = c as u32;
        if u < 0x20 {
            push_char(out, '\\');
            push_char(out, 'u');
            push_char(out, '0');
            push_char(out, '0');
            let hi = (u / 16) as u8;
            let lo = (u % 16) as u8;
            push_char(out, hex_digit_exec(hi));
            push_char(out, hex_digit_exec(lo));
            proof {
                assert(old(out)@.push('\\').push('u').push('0').push('0').push(hex_digit(hi as int))
                    .push(hex_digit(lo as int)) =~= old(out)@ + escape_char(c));
            }
        } else {
            push_char(out, c);
            proof {
                assert(old(out)@.push(c) =~= old(out)@ + escape_char(c));
            }
        }
    }
}

fn write_json_string(out: &mut String, s: &str)
    ensures
        final(out)@ == old(out)@ + json_string(s@),
{
    let v = str_chars(s);
    push_char(out, '"');
    let mut k: usize = 0;
    while k < v.len()
        invariant
            k <= v@.len(),
            v@ == s@,
            out@ == old(out)@ + seq!['"'] + escape_str(s@.take(k as int)),
        decreases v@.len() - k,
    {
        let c = v[k];
        proof {
            assert(s@.take((k + 1) as int) =~= s@.take(k as int).push(c));
            lemma_escape_push(s@.take(k as int), c);
            assert((old(out)@ + seq!['"'] + escape_str(s@.take(k as int))) + escape_char(c)
                =~= old(out)@ + seq!['"'] + (escape_str(s@.take(k as int)) + escape_char(c)));
        }
        push_escaped(out, c);
        k = k + 1;
    }
    proof {
        assert(s@.take(v@.len() as int) =~= s@);
    }
    push_char(out, '"');
    proof {
        assert((old(out)@ + seq!['"'] + escape_str(s@)).push('"')
            =~= old(out)@ + json_string(s@));
    }
}

fn write_tags_rest(out: &mut String, tags: &Vec<String>, k: usize)
    requires k <= tags@.len(),
    ensures
        final(out)@ == old(out)@ + json_tags_rest(tags.deep_view().skip(k as int)),
    decreases tags@.len() - k,
{
    if k == tags.len() {
        proof {
            assert(tags.deep_view().skip(k as int) =~= Seq::<Seq<char>>::empty());
            assert(old(out)@ + json_tags_rest(Seq::<Seq<char>>::empty()) =~= old(out)@);
        }
    } else {
        let ghost ts = tags.deep_view().skip(k as int);
        push_char(out, ',');
        write_json_string(out, tags[k].as_str());
        write_tags_rest(out, tags, k + 1);
        proof {
            assert(ts[0] == tags.deep_view()[k as int]);
            assert(ts.skip(1) =~= tags.deep_view().skip(k as int + 1));
            assert(((old(out)@.push(',')) + json_string(ts[0])) + json_tags_rest(ts.skip(1))
                =~= old(out)@ + (seq![','] + json_string(ts[0]) + json_tags_rest(ts.skip(1))));
        }
    }
}

/// Serializes a tag list as a JSON array of strings: the executable side of
/// `json_tags`.
pub fn serialize_tags(tags: &Vec<String>) -> (r: String)
    ensures
        r@ == json_tags(tags.deep_view()),
{
    let mut out = String::new();
    push_char(&mut out, '[');
    if tags.len() > 0 {
        write_json_string(&mut out, tags[0].as_str());
        write_tags_rest(&mut out, tags, 1);
        proof {
            assert(tags.deep_view()[0] == tags@[0]@);
        }
    }
    push_char(&mut out, ']');
    proof {
        let ts = tags.deep_view();
        if ts.len() == 0 {
            assert(out@ =~= seq!['['] + json_tags_body(ts) + seq![']']);
        } else {
            assert(ts.skip(0) =~= ts);
            assert(out@ =~= seq!['['] + (json_string(ts[0]) + json_tags_rest(ts.skip(1))) + seq![']']);
        }
    }
    out
}

fn write_entry(out: &mut String, text: &String, tags: &Vec<String>)
    ensures
        final(out)@ == old(out)@ + json_entry((text@, tags.deep_view())),
{
    write_json_string(out, text.as_str());
    push_char(out, ':');
    let t = serialize_tags(tags);
    out.append(t.as_str());
    proof {
        assert(((old(out)@ + json_string(text@)).push(':')) + json_tags(tags.deep_view())
            =~= old(out)@ + json_entry((text@, tags.deep_view())));
    }
}

fn write_entries_rest(out: &mut String, entries: &Vec<(String, Vec<String>)>, k: usize)
    requires k <= entries@.len(),
    ensures
        final(out)@ == old(out)@ + json_entries_rest(entries.deep_view().skip(k as int)),
    decreases entries@.len() - k,
{
    if k == entries.len() {
        proof {
            assert(entries.deep_view().skip(k as int)
                =~= Seq::<(Seq<char>, Seq<Seq<char>>)>::empty());
            assert(old(out)@ + json_entries_rest(Seq::<(Seq<char>, Seq<Seq<char>>)>::empty())
                =~= old(out)@);
        }
    } else {
        let ghost es = entries.deep_view().skip(k as int);
        push_char(out, ',');
        let e = &entries[k];
        write_entry(out, &e.0, &e.1);
        write_entries_rest(out, entries, k + 1);
        proof {
            assert(es[0] == entries.deep_view()[k as int]);
            assert(es.skip(1) =~= entries.deep_view().skip(k as int + 1));
            assert(((old(out)@.push(',')) + json_entry(es[0])) + json_entries_rest(es.skip(1))
                =~= old(out)@ + (seq![','] + json_entry(es[0]) + json_entries_rest(es.skip(1))));
        }
    }
}

/// Serializes history entries as the whole store file: the executable side of
/// `store_file_of`.
pub fn serialize_store_file(entries: &Vec<(String, Vec<String>)>) -> (r: String)
    ensures
        r@ == store_file_of(entries.deep_view()),
{
    let mut out = String::new();
    push_char(&mut out, '{');
    write_json_string(&mut out, "clipboardHistory.text_with_related_tags");
    push_char(&mut out, ':');
    push_char(&mut out, '{');
    let ghost mid = out@;
    if entries.len() > 0 {
        let e = &entries[0];
        write_entry(&mut out, &e.0, &e.1);
        write_entries_rest(&mut out, entries, 1);
        proof {
            assert(entries.deep_view()[0] == (entries@[0].0@, entries@[0].1.deep_view()));
        }
    }
    push_char(&mut out, '}');
    push_char(&mut out, '}');
    proof {
        let es = entries.deep_view();
        if es.len() == 0 {
            assert(mid =~= ((seq!['{'] + json_string(store_key())).push(':')).push('{'));
            assert(out@ =~= store_file_of(es));
        } else {
            assert(es.skip(0) =~= es);
            assert(mid =~= ((seq!['{'] + json_string(store_key())).push(':')).push('{'));
            assert(out@ =~= store_file_of(es));
        }
    }
    out
}

} // verus!
