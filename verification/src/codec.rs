//! The persisted JSON form of the pattern store, and its parser.
//!
//! The store is saved as a pretty-printed JSON object
//! `{ "patterns": [ { "pattern": <string>, "enabled": <bool> }, ... ] }`
//! with two-space indentation; the field names `patterns`, `pattern` and
//! `enabled` are fixed for compatibility with files written earlier. Inside
//! a pattern string, `"`, `\` and every control character are escaped, the
//! common ones by their one-letter forms and the rest as `\u00XX`.
//!
//! [`parse_config`] is the specification of the decoder. It accepts any
//! inter-token whitespace, the two entry fields in either order, and the
//! escapes `\"` `\\` `\/` `\b` `\f` `\n` `\r` `\t` and `\u00XX`, so a file
//! of this schema written with other spacing or field order still loads;
//! anything of a different shape is malformed, including fields beyond the
//! two documented ones and `\u` escapes outside the `\u00XX` range (writers
//! of this schema use `\u` for control characters only). [`lemma_json_roundtrip`]
//! proves that decoding an encoded store yields the same entries, flags,
//! and order. Reading and writing the file itself is the embedding
//! program's task.

use vstd::prelude::*;
use crate::store::{EntryModel, IgnorePattern, IgnoreConfig, models};
use crate::glob::chars_of;

verus! {

// ---------------------------------------------------------------------------
// The fixed pieces of the canonical layout the encoder emits.
// ---------------------------------------------------------------------------

/// `{`, a line break, and the opening of the `patterns` array.
pub open spec fn json_header() -> Seq<char> {
    seq!['{', '\n', ' ', ' ', '"', 'p', 'a', 't', 't', 'e', 'r', 'n', 's', '"', ':', ' ', '[']
}

/// Closes an empty `patterns` array and the object.
pub open spec fn json_empty_tail() -> Seq<char> {
    seq![']', '\n', '}']
}

/// Opens one entry object up to the opening quote of its pattern string.
pub open spec fn json_entry_open() -> Seq<char> {
    seq![
        '\n', ' ', ' ', ' ', ' ', '{', '\n', ' ', ' ', ' ', ' ', ' ', ' ', '"', 'p', 'a', 't',
        't', 'e', 'r', 'n', '"', ':', ' ', '"',
    ]
}

/// From after the pattern string's closing quote to the `enabled` value.
pub open spec fn json_after_pattern() -> Seq<char> {
    seq![
        ',', '\n', ' ', ' ', ' ', ' ', ' ', ' ', '"', 'e', 'n', 'a', 'b', 'l', 'e', 'd', '"',
        ':', ' ',
    ]
}

/// Closes one entry object.
pub open spec fn json_entry_close() -> Seq<char> {
    seq!['\n', ' ', ' ', ' ', ' ', '}']
}

/// The separator between two entry objects.
pub open spec fn json_sep() -> Seq<char> {
    seq![',']
}

/// Closes a non-empty `patterns` array and the object.
pub open spec fn json_tail() -> Seq<char> {
    seq!['\n', ' ', ' ', ']', '\n', '}']
}

/// The JSON boolean literals.
pub open spec fn bool_lit(b: bool) -> Seq<char> {
    if b {
        seq!['t', 'r', 'u', 'e']
    } else {
        seq!['f', 'a', 'l', 's', 'e']
    }
}

/// The quoted `patterns` field name.
pub open spec fn patterns_key() -> Seq<char> {
    seq!['"', 'p', 'a', 't', 't', 'e', 'r', 'n', 's', '"']
}

/// The quoted `pattern` field name.
pub open spec fn pattern_key() -> Seq<char> {
    seq!['"', 'p', 'a', 't', 't', 'e', 'r', 'n', '"']
}

/// The quoted `enabled` field name.
pub open spec fn enabled_key() -> Seq<char> {
    seq!['"', 'e', 'n', 'a', 'b', 'l', 'e', 'd', '"']
}

// ---------------------------------------------------------------------------
// String escaping.
// ---------------------------------------------------------------------------

/// The lowercase hexadecimal digit of a value below sixteen.
pub open spec fn hex_digit(n: int) -> char {
    if n == 0 {
        '0'
    } else if n == 1 {
        '1'
    } else if n == 2 {
        '2'
    } else if n == 3 {
        '3'
    } else if n == 4 {
        '4'
    } else if n == 5 {
        '5'
    } else if n == 6 {
        '6'
    } else if n == 7 {
        '7'
    } else if n == 8 {
        '8'
    } else if n == 9 {
        '9'
    } else if n == 10 {
        'a'
    } else if n == 11 {
        'b'
    } else if n == 12 {
        'c'
    } else if n == 13 {
        'd'
    } else if n == 14 {
        'e'
    } else {
        'f'
    }
}

/// The value of a hexadecimal digit, either case.
pub open spec fn hex_val(c: char) -> Option<int> {
    if c == '0' {
        Some(0)
    } else if c == '1' {
        Some(1)
    } else if c == '2' {
        Some(2)
    } else if c == '3' {
        Some(3)
    } else if c == '4' {
        Some(4)
    } else if c == '5' {
        Some(5)
    } else if c == '6' {
        Some(6)
    } else if c == '7' {
        Some(7)
    } else if c == '8' {
        Some(8)
    } else if c == '9' {
        Some(9)
    } else if c == 'a' || c == 'A' {
        Some(10)
    } else if c == 'b' || c == 'B' {
        Some(11)
    } else if c == 'c' || c == 'C' {
        Some(12)
    } else if c == 'd' || c == 'D' {
        Some(13)
    } else if c == 'e' || c == 'E' {
        Some(14)
    } else if c == 'f' || c == 'F' {
        Some(15)
    } else {
        None
    }
}

/// The JSON spelling of one character inside a string: the one-letter
/// escapes for the common characters, `\u00XX` for the other control
/// characters, the character itself for everything else.
pub open spec fn escape_char(c: char) -> Seq<char> {
    if c == '"' {
        seq!['\\', '"']
    } else if c == '\\' {
        seq!['\\', '\\']
    } else if c == '\n' {
        seq!['\\', 'n']
    } else if c == '\r' {
        seq!['\\', 'r']
    } else if c == '\t' {
        seq!['\\', 't']
    } else if c == '\u{8}' {
        seq!['\\', 'b']
    } else if c == '\u{c}' {
        seq!['\\', 'f']
    } else if (c as u32) < 32 {
        seq![
            '\\', 'u', '0', '0', hex_digit((c as u32) as int / 16),
            hex_digit((c as u32) as int % 16),
        ]
    } else {
        seq![c]
    }
}

/// The JSON spelling of a whole string's content, without its quotes.
pub open spec fn escape(s: Seq<char>) -> Seq<char>
    decreases s.len(),
{
    if s.len() == 0 {
        Seq::empty()
    } else {
        escape_char(s[0]) + escape(s.skip(1))
    }
}

/// The character named by one escape letter, if the letter is known.
pub open spec fn unescape_char(c: char) -> Option<char> {
    if c == '"' {
        Some('"')
    } else if c == '\\' {
        Some('\\')
    } else if c == '/' {
        Some('/')
    } else if c == 'n' {
        Some('\n')
    } else if c == 'r' {
        Some('\r')
    } else if c == 't' {
        Some('\t')
    } else if c == 'b' {
        Some('\u{8}')
    } else if c == 'f' {
        Some('\u{c}')
    } else {
        None
    }
}

// ---------------------------------------------------------------------------
// The encoder.
// ---------------------------------------------------------------------------

/// The canonical text of one entry object.
pub open spec fn encode_entry(e: EntryModel) -> Seq<char> {
    json_entry_open() + escape(e.pattern) + seq!['"'] + json_after_pattern() + bool_lit(e.enabled)
        + json_entry_close()
}

/// The canonical text of one or more entry objects, comma-separated.
pub open spec fn encode_entries(s: Seq<EntryModel>) -> Seq<char>
    decreases s.len(),
{
    if s.len() <= 1 {
        if s.len() == 0 {
            Seq::empty()
        } else {
            encode_entry(s[0])
        }
    } else {
        encode_entry(s[0]) + json_sep() + encode_entries(s.skip(1))
    }
}

/// The canonical text of a whole store.
pub open spec fn encode_config(s: Seq<EntryModel>) -> Seq<char> {
    if s.len() == 0 {
        json_header() + json_empty_tail()
    } else {
        json_header() + encode_entries(s) + json_tail()
    }
}

// ---------------------------------------------------------------------------
// The parser: the specification of the decoder.
// ---------------------------------------------------------------------------

/// JSON inter-token whitespace.
pub open spec fn is_ws(c: char) -> bool {
    c == ' ' || c == '\n' || c == '\r' || c == '\t'
}

/// Drops every leading whitespace character.
pub open spec fn skip_ws(s: Seq<char>) -> Seq<char>
    decreases s.len(),
{
    if s.len() > 0 && is_ws(s[0]) {
        skip_ws(s.skip(1))
    } else {
        s
    }
}

/// Consumes the literal `lit` from the front of `s`, or fails.
pub open spec fn expect(s: Seq<char>, lit: Seq<char>) -> Option<Seq<char>> {
    if lit.len() <= s.len() && s.take(lit.len() as int) == lit {
        Some(s.skip(lit.len() as int))
    } else {
        None
    }
}

/// Consumes a string body up to and including its closing quote, undoing
/// the escapes; yields the content and the remainder.
pub open spec fn parse_string_body(s: Seq<char>) -> Option<(Seq<char>, Seq<char>)>
    decreases s.len(),
{
    if s.len() == 0 {
        None
    } else if s[0] == '"' {
        Some((Seq::empty(), s.skip(1)))
    } else if s[0] == '\\' {
        if s.len() < 2 {
            None
        } else if s[1] == 'u' {
            if s.len() < 6 || s[2] != '0' || s[3] != '0' {
                None
            } else {
                match (hex_val(s[4]), hex_val(s[5])) {
                    (Some(h), Some(l)) => match parse_string_body(s.skip(6)) {
                        None => None,
                        Some((body, rest)) => Some(
                            (seq![(((16 * h + l) as u8) as char)] + body, rest),
                        ),
                    },
                    _ => None,
                }
            }
        } else {
            match unescape_char(s[1]) {
                None => None,
                Some(c) => match parse_string_body(s.skip(2)) {
                    None => None,
                    Some((body, rest)) => Some((seq![c] + body, rest)),
                },
            }
        }
    } else {
        match parse_string_body(s.skip(1)) {
            None => None,
            Some((body, rest)) => Some((seq![s[0]] + body, rest)),
        }
    }
}

/// Consumes a JSON boolean.
pub open spec fn parse_bool(s: Seq<char>) -> Option<(bool, Seq<char>)> {
    match expect(s, bool_lit(true)) {
        Some(r) => Some((true, r)),
        None => match expect(s, bool_lit(false)) {
            Some(r) => Some((false, r)),
            None => None,
        },
    }
}

/// After a field name: a colon and a quoted string, any whitespace around.
pub open spec fn parse_colon_string(s: Seq<char>) -> Option<(Seq<char>, Seq<char>)> {
    match expect(skip_ws(s), seq![':']) {
        None => None,
        Some(r) => match expect(skip_ws(r), seq!['"']) {
            None => None,
            Some(r2) => parse_string_body(r2),
        },
    }
}

/// After a field name: a colon and a boolean, any whitespace around.
pub open spec fn parse_colon_bool(s: Seq<char>) -> Option<(bool, Seq<char>)> {
    match expect(skip_ws(s), seq![':']) {
        None => None,
        Some(r) => parse_bool(skip_ws(r)),
    }
}

/// Consumes one entry object: its two fields, in either order.
pub open spec fn parse_entry(s: Seq<char>) -> Option<(EntryModel, Seq<char>)> {
    match expect(skip_ws(s), seq!['{']) {
        None => None,
        Some(s1) => {
            let s2 = skip_ws(s1);
            match expect(s2, pattern_key()) {
                Some(sa) => match parse_colon_string(sa) {
                    None => None,
                    Some((pat, r)) => match expect(skip_ws(r), json_sep()) {
                        None => None,
                        Some(r2) => match expect(skip_ws(r2), enabled_key()) {
                            None => None,
                            Some(r3) => match parse_colon_bool(r3) {
                                None => None,
                                Some((b, r4)) => match expect(skip_ws(r4), seq!['}']) {
                                    None => None,
                                    Some(r5) => Some(
                                        (EntryModel { pattern: pat, enabled: b }, r5),
                                    ),
                                },
                            },
                        },
                    },
                },
                None => match expect(s2, enabled_key()) {
                    None => None,
                    Some(sb) => match parse_colon_bool(sb) {
                        None => None,
                        Some((b, r)) => match expect(skip_ws(r), json_sep()) {
                            None => None,
                            Some(r2) => match expect(skip_ws(r2), pattern_key()) {
                                None => None,
                                Some(r3) => match parse_colon_string(r3) {
                                    None => None,
                                    Some((pat, r4)) => match expect(skip_ws(r4), seq!['}']) {
                                        None => None,
                                        Some(r5) => Some(
                                            (EntryModel { pattern: pat, enabled: b }, r5),
                                        ),
                                    },
                                },
                            },
                        },
                    },
                },
            }
        },
    }
}

/// Consumes one or more comma-separated entry objects.
pub open spec fn parse_entries(s: Seq<char>) -> Option<(Seq<EntryModel>, Seq<char>)>
    decreases s.len(),
    via parse_entries_decreases
{
    match parse_entry(s) {
        None => None,
        Some((e, r)) => match expect(skip_ws(r), json_sep()) {
            None => Some((seq![e], r)),
            Some(r2) => match parse_entries(r2) {
                None => None,
                Some((es, r3)) => Some((seq![e] + es, r3)),
            },
        },
    }
}

#[via_fn]
proof fn parse_entries_decreases(s: Seq<char>) {
    lemma_parse_entry_shrinks(s);
    match parse_entry(s) {
        None => {},
        Some((e, r)) => {
            lemma_skip_ws_len(r);
        },
    }
}

/// The closing brace and nothing but whitespace after it.
pub open spec fn parse_end(s: Seq<char>, es: Seq<EntryModel>) -> Option<Seq<EntryModel>> {
    match expect(skip_ws(s), seq!['}']) {
        None => None,
        Some(r) => if skip_ws(r).len() == 0 {
            Some(es)
        } else {
            None
        },
    }
}

/// Parses a whole store; the input must be consumed entirely.
pub open spec fn parse_config(s: Seq<char>) -> Option<Seq<EntryModel>> {
    match expect(skip_ws(s), seq!['{']) {
        None => None,
        Some(s1) => match expect(skip_ws(s1), patterns_key()) {
            None => None,
            Some(s2) => match expect(skip_ws(s2), seq![':']) {
                None => None,
                Some(s3) => match expect(skip_ws(s3), seq!['[']) {
                    None => None,
                    Some(s4) => match expect(skip_ws(s4), seq![']']) {
                        Some(r) => parse_end(r, Seq::empty()),
                        None => match parse_entries(s4) {
                            None => None,
                            Some((es, r)) => match expect(skip_ws(r), seq![']']) {
                                None => None,
                                Some(r2) => parse_end(r2, es),
                            },
                        },
                    },
                },
            },
        },
    }
}

// ---------------------------------------------------------------------------
// The parser consumes ground: needed for its own termination.
// ---------------------------------------------------------------------------

proof fn lemma_skip_ws_len(s: Seq<char>)
    ensures
        skip_ws(s).len() <= s.len(),
    decreases s.len(),
{
    if s.len() > 0 && is_ws(s[0]) {
        lemma_skip_ws_len(s.skip(1));
    }
}

proof fn lemma_parse_string_body_shrinks(s: Seq<char>)
    ensures
        parse_string_body(s) matches Some((body, rest)) ==> rest.len() < s.len(),
    decreases s.len(),
{
    if s.len() == 0 {
    } else if s[0] == '"' {
    } else if s[0] == '\\' {
        if s.len() >= 2 {
            if s[1] == 'u' {
                if s.len() >= 6 {
                    lemma_parse_string_body_shrinks(s.skip(6));
                }
            } else if unescape_char(s[1]) is Some {
                lemma_parse_string_body_shrinks(s.skip(2));
            }
        }
    } else {
        lemma_parse_string_body_shrinks(s.skip(1));
    }
}

proof fn lemma_parse_colon_string_shrinks(s: Seq<char>)
    ensures
        parse_colon_string(s) matches Some((body, rest)) ==> rest.len() < s.len(),
{
    lemma_skip_ws_len(s);
    match expect(skip_ws(s), seq![':']) {
        None => {},
        Some(r) => {
            lemma_skip_ws_len(r);
            match expect(skip_ws(r), seq!['"']) {
                None => {},
                Some(r2) => {
                    lemma_parse_string_body_shrinks(r2);
                },
            }
        },
    }
}

proof fn lemma_parse_colon_bool_shrinks(s: Seq<char>)
    ensures
        parse_colon_bool(s) matches Some((b, rest)) ==> rest.len() < s.len(),
{
    lemma_skip_ws_len(s);
    match expect(skip_ws(s), seq![':']) {
        None => {},
        Some(r) => {
            lemma_skip_ws_len(r);
        },
    }
}

proof fn lemma_parse_entry_shrinks(s: Seq<char>)
    ensures
        parse_entry(s) matches Some((e, rest)) ==> rest.len() < s.len(),
{
    lemma_skip_ws_len(s);
    match expect(skip_ws(s), seq!['{']) {
        None => {},
        Some(s1) => {
            let s2 = skip_ws(s1);
            lemma_skip_ws_len(s1);
            match expect(s2, pattern_key()) {
                Some(sa) => {
                    lemma_parse_colon_string_shrinks(sa);
                    match parse_colon_string(sa) {
                        None => {},
                        Some((pat, r)) => {
                            lemma_skip_ws_len(r);
                            match expect(skip_ws(r), json_sep()) {
                                None => {},
                                Some(r2) => {
                                    lemma_skip_ws_len(r2);
                                    match expect(skip_ws(r2), enabled_key()) {
                                        None => {},
                                        Some(r3) => {
                                            lemma_parse_colon_bool_shrinks(r3);
                                            match parse_colon_bool(r3) {
                                                None => {},
                                                Some((b, r4)) => {
                                                    lemma_skip_ws_len(r4);
                                                },
                                            }
                                        },
                                    }
                                },
                            }
                        },
                    }
                },
                None => {
                    match expect(s2, enabled_key()) {
                        None => {},
                        Some(sb) => {
                            lemma_parse_colon_bool_shrinks(sb);
                            match parse_colon_bool(sb) {
                                None => {},
                                Some((b, r)) => {
                                    lemma_skip_ws_len(r);
                                    match expect(skip_ws(r), json_sep()) {
                                        None => {},
                                        Some(r2) => {
                                            lemma_skip_ws_len(r2);
                                            match expect(skip_ws(r2), pattern_key()) {
                                                None => {},
                                                Some(r3) => {
                                                    lemma_parse_colon_string_shrinks(r3);
                                                    match parse_colon_string(r3) {
                                                        None => {},
                                                        Some((pat, r4)) => {
                                                            lemma_skip_ws_len(r4);
                                                        },
                                                    }
                                                },
                                            }
                                        },
                                    }
                                },
                            }
                        },
                    }
                },
            }
        },
    }
}

// ---------------------------------------------------------------------------
// Round trip: parsing an encoded store gives the store back.
// ---------------------------------------------------------------------------

proof fn lemma_expect_prefix(lit: Seq<char>, rest: Seq<char>)
    ensures
        expect(lit + rest, lit) == Some(rest),
{
    let s = lit + rest;
    assert(s.take(lit.len() as int) =~= lit);
    assert(s.skip(lit.len() as int) =~= rest);
}

proof fn lemma_skip_ws_all(ws: Seq<char>, rest: Seq<char>)
    requires
        forall|k: int| 0 <= k < ws.len() ==> is_ws(#[trigger] ws[k]),
        rest.len() == 0 || !is_ws(rest[0]),
    ensures
        skip_ws(ws + rest) == rest,
    decreases ws.len(),
{
    if ws.len() == 0 {
        assert(ws + rest =~= rest);
    } else {
        assert((ws + rest)[0] == ws[0]);
        assert((ws + rest).skip(1) =~= ws.skip(1) + rest);
        lemma_skip_ws_all(ws.skip(1), rest);
    }
}

/// Whitespace, then a token, is consumed as that token.
proof fn lemma_token(ws: Seq<char>, tok: Seq<char>, rest: Seq<char>)
    requires
        forall|k: int| 0 <= k < ws.len() ==> is_ws(#[trigger] ws[k]),
        tok.len() > 0,
        !is_ws(tok[0]),
    ensures
        expect(skip_ws(ws + tok + rest), tok) == Some(rest),
{
    assert(ws + tok + rest =~= ws + (tok + rest));
    assert((tok + rest)[0] == tok[0]);
    lemma_skip_ws_all(ws, tok + rest);
    lemma_expect_prefix(tok, rest);
}

/// One character's escape spelling parses back to that character.
proof fn lemma_parse_one_escaped(c: char, rest: Seq<char>)
    ensures
        parse_string_body(escape_char(c) + rest) == prepend_chars(
            seq![c],
            parse_string_body(rest),
        ),
{
    let s = escape_char(c) + rest;
    if c == '"' || c == '\\' || c == '\n' || c == '\r' || c == '\t' || c == '\u{8}' || c
        == '\u{c}' {
        assert(escape_char(c).len() == 2 && escape_char(c)[0] == '\\');
        assert(s[0] == '\\');
        assert(s[1] == escape_char(c)[1]);
        assert(s[1] != 'u');
        assert(unescape_char(s[1]) == Some(c));
        assert(s.skip(2) =~= rest);
    } else if (c as u32) < 32 {
        let n = (c as u32) as int;
        assert(escape_char(c) =~= seq![
            '\\', 'u', '0', '0', hex_digit(n / 16), hex_digit(n % 16),
        ]);
        assert(s[0] == '\\' && s[1] == 'u' && s[2] == '0' && s[3] == '0');
        assert(s[4] == hex_digit(n / 16) && s[5] == hex_digit(n % 16));
        assert(0 <= n < 32);
        assert(hex_val(hex_digit(n / 16)) == Some(n / 16));
        assert(hex_val(hex_digit(n % 16)) == Some(n % 16));
        vstd::arithmetic::div_mod::lemma_fundamental_div_mod(n, 16);
        assert(16 * (n / 16) + n % 16 == n);
        assert((n as u8) == ((c as u32) as u8));
        assert((((c as u32) as u8) as char) == c);
        assert((((16 * (n / 16) + n % 16) as u8) as char) == c);
        assert(s.skip(6) =~= rest);
    } else {
        assert(escape_char(c) =~= seq![c]);
        assert(s[0] == c);
        assert(c != '"' && c != '\\');
        assert(s.skip(1) =~= rest);
    }
}

proof fn lemma_parse_escaped(content: Seq<char>, rest: Seq<char>)
    ensures
        parse_string_body(escape(content) + seq!['"'] + rest) == Some((content, rest)),
    decreases content.len(),
{
    let s = escape(content) + seq!['"'] + rest;
    if content.len() == 0 {
        assert(s =~= seq!['"'] + rest);
        assert(s[0] == '"');
        assert(s.skip(1) =~= rest);
    } else {
        let c = content[0];
        let tail = content.skip(1);
        assert(escape(content) == escape_char(c) + escape(tail));
        let s2 = escape(tail) + seq!['"'] + rest;
        assert(s =~= escape_char(c) + s2);
        lemma_parse_escaped(tail, rest);
        lemma_parse_one_escaped(c, s2);
        assert(seq![c] + tail =~= content);
    }
}

#[verifier::rlimit(100)]
#[verifier::spinoff_prover]
proof fn lemma_parse_entry_of_encode(e: EntryModel, rest: Seq<char>)
    ensures
        parse_entry(encode_entry(e) + rest) == Some((e, rest)),
{
    let s = encode_entry(e) + rest;
    let ws_open = seq!['\n', ' ', ' ', ' ', ' '];
    let ws_field = seq!['\n', ' ', ' ', ' ', ' ', ' ', ' '];
    let sp = seq![' '];

    // The opening brace.
    let a1 = ws_field + pattern_key() + seq![':'] + sp + seq!['"'] + escape(e.pattern)
        + seq!['"'] + json_after_pattern() + bool_lit(e.enabled) + json_entry_close() + rest;
    assert(s =~= ws_open + seq!['{'] + a1);
    lemma_token(ws_open, seq!['{'], a1);

    // The `pattern` field name.
    let a2 = seq![':'] + sp + seq!['"'] + escape(e.pattern) + seq!['"'] + json_after_pattern()
        + bool_lit(e.enabled) + json_entry_close() + rest;
    assert(a1 =~= ws_field + pattern_key() + a2);
    lemma_token(ws_field, pattern_key(), a2);

    // Its colon, quote, and string body.
    let a3 = sp + seq!['"'] + escape(e.pattern) + seq!['"'] + json_after_pattern() + bool_lit(
        e.enabled,
    ) + json_entry_close() + rest;
    assert(a2 =~= Seq::<char>::empty() + seq![':'] + a3);
    lemma_token(Seq::empty(), seq![':'], a3);
    let a4 = escape(e.pattern) + seq!['"'] + (json_after_pattern() + bool_lit(e.enabled)
        + json_entry_close() + rest);
    assert(a3 =~= sp + seq!['"'] + (escape(e.pattern) + seq!['"'] + (json_after_pattern()
        + bool_lit(e.enabled) + json_entry_close() + rest)));
    lemma_token(sp, seq!['"'], escape(e.pattern) + seq!['"'] + (json_after_pattern() + bool_lit(
        e.enabled,
    ) + json_entry_close() + rest));
    let a5 = json_after_pattern() + bool_lit(e.enabled) + json_entry_close() + rest;
    lemma_parse_escaped(e.pattern, a5);
    assert(parse_colon_string(a2) == Some((e.pattern, a5)));

    // The comma between the fields.
    let a6 = ws_field + enabled_key() + seq![':'] + sp + bool_lit(e.enabled)
        + json_entry_close() + rest;
    assert(a5 =~= Seq::<char>::empty() + json_sep() + a6);
    lemma_token(Seq::empty(), json_sep(), a6);

    // The `enabled` field name.
    let a7 = seq![':'] + sp + bool_lit(e.enabled) + json_entry_close() + rest;
    assert(a6 =~= ws_field + enabled_key() + a7);
    lemma_token(ws_field, enabled_key(), a7);

    // Its colon and boolean.
    let a8 = sp + bool_lit(e.enabled) + json_entry_close() + rest;
    assert(a7 =~= Seq::<char>::empty() + seq![':'] + a8);
    lemma_token(Seq::empty(), seq![':'], a8);
    let a9 = bool_lit(e.enabled) + (json_entry_close() + rest);
    assert(a8 =~= sp + a9);
    lemma_skip_ws_all(sp, a9);
    let a10 = json_entry_close() + rest;
    if e.enabled {
        assert(a9 =~= bool_lit(true) + a10);
        lemma_expect_prefix(bool_lit(true), a10);
    } else {
        assert(a9 =~= bool_lit(false) + a10);
        if expect(a9, bool_lit(true)) is Some {
            assert(a9.take(4) == bool_lit(true));
            assert(a9.take(4)[0] == a9[0]);
            assert(a9[0] == 'f');
            assert(false);
        }
        lemma_expect_prefix(bool_lit(false), a10);
    }
    assert(parse_colon_bool(a7) == Some((e.enabled, a10)));

    // The closing brace.
    assert(a10 =~= ws_open + seq!['}'] + rest);
    lemma_token(ws_open, seq!['}'], rest);
    assert(EntryModel { pattern: e.pattern, enabled: e.enabled } == e);
}

proof fn lemma_parse_entries_of_encode(entries: Seq<EntryModel>, rest: Seq<char>)
    requires
        entries.len() > 0,
        skip_ws(rest).len() == 0 || skip_ws(rest)[0] != ',',
    ensures
        parse_entries(encode_entries(entries) + rest) == Some((entries, rest)),
    decreases entries.len(),
{
    let s = encode_entries(entries) + rest;
    if entries.len() == 1 {
        assert(encode_entries(entries) == encode_entry(entries[0]));
        lemma_parse_entry_of_encode(entries[0], rest);
        if expect(skip_ws(rest), json_sep()) is Some {
            assert(skip_ws(rest).take(1) == json_sep());
            assert(skip_ws(rest).take(1)[0] == skip_ws(rest)[0]);
            assert(false);
        }
        assert(seq![entries[0]] =~= entries);
    } else {
        let e0 = entries[0];
        let tail = entries.skip(1);
        assert(encode_entries(entries) == encode_entry(e0) + json_sep() + encode_entries(tail));
        let r1 = json_sep() + encode_entries(tail) + rest;
        assert(s =~= encode_entry(e0) + r1);
        lemma_parse_entry_of_encode(e0, r1);
        let r2 = encode_entries(tail) + rest;
        assert(r1 =~= Seq::<char>::empty() + json_sep() + r2);
        lemma_token(Seq::empty(), json_sep(), r2);
        lemma_parse_entries_of_encode(tail, rest);
        assert(seq![e0] + tail =~= entries);
    }
}

/// Saving and then loading a store yields identical entries, flags, and
/// order: parsing the canonical text of any store gives that store back.
pub proof fn lemma_json_roundtrip(entries: Seq<EntryModel>)
    ensures
        parse_config(encode_config(entries)) == Some(entries),
{
    let s = encode_config(entries);
    let ws_h = seq!['\n', ' ', ' '];
    let sp = seq![' '];
    let body = if entries.len() == 0 {
        json_empty_tail()
    } else {
        encode_entries(entries) + json_tail()
    };

    // The opening brace, the `patterns` field name, its colon, the bracket.
    let b1 = ws_h + patterns_key() + seq![':'] + sp + seq!['['] + body;
    assert(s =~= Seq::<char>::empty() + seq!['{'] + b1);
    lemma_token(Seq::empty(), seq!['{'], b1);
    let b2 = seq![':'] + sp + seq!['['] + body;
    assert(b1 =~= ws_h + patterns_key() + b2);
    lemma_token(ws_h, patterns_key(), b2);
    let b3 = sp + seq!['['] + body;
    assert(b2 =~= Seq::<char>::empty() + seq![':'] + b3);
    lemma_token(Seq::empty(), seq![':'], b3);
    assert(b3 =~= sp + seq!['['] + body);
    lemma_token(sp, seq!['['], body);

    if entries.len() == 0 {
        // The empty array and the closing brace.
        let c1 = seq!['\n'] + seq!['}'];
        assert(body =~= Seq::<char>::empty() + seq![']'] + c1);
        lemma_token(Seq::empty(), seq![']'], c1);
        assert(c1 =~= seq!['\n'] + seq!['}'] + Seq::<char>::empty());
        lemma_token(seq!['\n'], seq!['}'], Seq::empty());
        assert(entries =~= Seq::<EntryModel>::empty());
    } else {
        // A non-empty array opens with an entry object, never the bracket
        // that closes an empty one.
        lemma_parse_entries_of_encode_tail(entries);
        lemma_parse_entries_of_encode(entries, json_tail());
        assert(parse_entry(body) is Some);
        if expect(skip_ws(body), seq![']']) is Some {
            assert(expect(skip_ws(body), seq!['{']) is Some);
            assert(skip_ws(body).take(1) == seq![']']);
            assert(skip_ws(body).take(1) == seq!['{']);
            assert(seq![']'][0] == seq!['{'][0]);
            assert(false);
        }
        // The bracket and brace that close a non-empty store.
        let d1 = seq!['\n'] + seq!['}'];
        assert(json_tail() =~= ws_h + seq![']'] + d1);
        lemma_token(ws_h, seq![']'], d1);
        assert(d1 =~= seq!['\n'] + seq!['}'] + Seq::<char>::empty());
        lemma_token(seq!['\n'], seq!['}'], Seq::empty());
    }
}

/// After the last encoded entry comes the array's closing bracket, never a
/// comma.
proof fn lemma_parse_entries_of_encode_tail(entries: Seq<EntryModel>)
    ensures
        skip_ws(json_tail()).len() == 0 || skip_ws(json_tail())[0] != ',',
{
    let ws_h = seq!['\n', ' ', ' '];
    let t = seq![']', '\n', '}'];
    assert(json_tail() =~= ws_h + t);
    lemma_skip_ws_all(ws_h, t);
}

// ---------------------------------------------------------------------------
// The string literals used by the executable code name the same characters
// as the spec-level pieces above.
// ---------------------------------------------------------------------------

proof fn lemma_header_lit()
    ensures
        "{\n  \"patterns\": ["@ == json_header(),
{
    reveal_strlit("{\n  \"patterns\": [");
    assert("{\n  \"patterns\": ["@ =~= json_header());
}

proof fn lemma_empty_tail_lit()
    ensures
        "]\n}"@ == json_empty_tail(),
{
    reveal_strlit("]\n}");
    assert("]\n}"@ =~= json_empty_tail());
}

proof fn lemma_entry_open_lit()
    ensures
        "\n    {\n      \"pattern\": \""@ == json_entry_open(),
{
    reveal_strlit("\n    {\n      \"pattern\": \"");
    assert("\n    {\n      \"pattern\": \""@ =~= json_entry_open());
}

proof fn lemma_after_pattern_lit()
    ensures
        ",\n      \"enabled\": "@ == json_after_pattern(),
{
    reveal_strlit(",\n      \"enabled\": ");
    assert(",\n      \"enabled\": "@ =~= json_after_pattern());
}

proof fn lemma_entry_close_lit()
    ensures
        "\n    }"@ == json_entry_close(),
{
    reveal_strlit("\n    }");
    assert("\n    }"@ =~= json_entry_close());
}

proof fn lemma_sep_lit()
    ensures
        ","@ == json_sep(),
{
    reveal_strlit(",");
    assert(","@ =~= json_sep());
}

proof fn lemma_tail_lit()
    ensures
        "\n  ]\n}"@ == json_tail(),
{
    reveal_strlit("\n  ]\n}");
    assert("\n  ]\n}"@ =~= json_tail());
}

proof fn lemma_true_lit()
    ensures
        "true"@ == bool_lit(true),
{
    reveal_strlit("true");
    assert("true"@ =~= bool_lit(true));
}

proof fn lemma_false_lit()
    ensures
        "false"@ == bool_lit(false),
{
    reveal_strlit("false");
    assert("false"@ =~= bool_lit(false));
}

proof fn lemma_lbrace_lit()
    ensures
        "{"@ == seq!['{'],
{
    reveal_strlit("{");
    assert("{"@ =~= seq!['{']);
}

proof fn lemma_rbrace_lit()
    ensures
        "}"@ == seq!['}'],
{
    reveal_strlit("}");
    assert("}"@ =~= seq!['}']);
}

proof fn lemma_lbracket_lit()
    ensures
        "["@ == seq!['['],
{
    reveal_strlit("[");
    assert("["@ =~= seq!['[']);
}

proof fn lemma_rbracket_lit()
    ensures
        "]"@ == seq![']'],
{
    reveal_strlit("]");
    assert("]"@ =~= seq![']']);
}

proof fn lemma_colon_lit()
    ensures
        ":"@ == seq![':'],
{
    reveal_strlit(":");
    assert(":"@ =~= seq![':']);
}

proof fn lemma_quote_lit()
    ensures
        "\""@ == seq!['"'],
{
    reveal_strlit("\"");
    assert("\""@ =~= seq!['"']);
}

proof fn lemma_patterns_key_lit()
    ensures
        "\"patterns\""@ == patterns_key(),
{
    reveal_strlit("\"patterns\"");
    assert("\"patterns\""@ =~= patterns_key());
}

proof fn lemma_pattern_key_lit()
    ensures
        "\"pattern\""@ == pattern_key(),
{
    reveal_strlit("\"pattern\"");
    assert("\"pattern\""@ =~= pattern_key());
}

proof fn lemma_enabled_key_lit()
    ensures
        "\"enabled\""@ == enabled_key(),
{
    reveal_strlit("\"enabled\"");
    assert("\"enabled\""@ =~= enabled_key());
}

// ---------------------------------------------------------------------------
// The executable encoder.
// ---------------------------------------------------------------------------

/// Relies on `String`'s `FromIterator` over copied `char`s: collecting the
/// characters of a vector yields the string of exactly those characters,
/// in order.
#[verifier::external_body]
fn string_from_chars(v: &Vec<char>) -> (r: String)
    ensures
        r@ == v@,
{
    v.iter().collect()
}

/// Appends every character of `s` to `out`.
#[verifier::loop_isolation(false)]
fn append_lit(out: &mut Vec<char>, s: &str)
    ensures
        final(out)@ == old(out)@ + s@,
{
    let v = chars_of(s);
    let mut i: usize = 0;
    while i < v.len()
        invariant
            i <= v.len(),
            v@ == s@,
            out@ == old(out)@ + s@.take(i as int),
        decreases v.len() - i,
    {
        out.push(v[i]);
        proof {
            assert(old(out)@ + s@.take(i + 1 as int) =~= (old(out)@ + s@.take(i as int)).push(
                s@[i as int],
            ));
        }
        i = i + 1;
    }
    proof {
        assert(s@.take(s@.len() as int) =~= s@);
    }
}

proof fn lemma_escape_snoc(s: Seq<char>, c: char)
    ensures
        escape(s.push(c)) == escape(s) + escape_char(c),
    decreases s.len(),
{
    if s.len() == 0 {
        assert(s.push(c).skip(1) =~= Seq::<char>::empty());
        assert(s.push(c)[0] == c);
        assert(escape(Seq::<char>::empty()) == Seq::<char>::empty());
        assert(escape(s.push(c)) == escape_char(c) + Seq::<char>::empty());
        assert(escape_char(c) + Seq::<char>::empty() =~= escape(s) + escape_char(c));
    } else {
        assert(s.push(c).skip(1) =~= s.skip(1).push(c));
        lemma_escape_snoc(s.skip(1), c);
        assert(s.push(c)[0] == s[0]);
        assert(escape(s.push(c)) == escape_char(s[0]) + escape(s.skip(1).push(c)));
        assert(escape(s) == escape_char(s[0]) + escape(s.skip(1)));
        assert(escape_char(s[0]) + (escape(s.skip(1)) + escape_char(c)) =~= (escape_char(s[0])
            + escape(s.skip(1))) + escape_char(c));
    }
}

/// The lowercase hexadecimal digit of a value below sixteen.
fn hex_char(n: u8) -> (r: char)
    requires
        n < 16,
    ensures
        r == hex_digit(n as int),
{
    if n == 0 {
        '0'
    } else if n == 1 {
        '1'
    } else if n == 2 {
        '2'
    } else if n == 3 {
        '3'
    } else if n == 4 {
        '4'
    } else if n == 5 {
        '5'
    } else if n == 6 {
        '6'
    } else if n == 7 {
        '7'
    } else if n == 8 {
        '8'
    } else if n == 9 {
        '9'
    } else if n == 10 {
        'a'
    } else if n == 11 {
        'b'
    } else if n == 12 {
        'c'
    } else if n == 13 {
        'd'
    } else if n == 14 {
        'e'
    } else {
        'f'
    }
}

/// Appends the escaped JSON spelling of `s` to `out`.
#[verifier::loop_isolation(false)]
fn append_escaped(out: &mut Vec<char>, s: &str)
    ensures
        final(out)@ == old(out)@ + escape(s@),
{
    let v = chars_of(s);
    let mut i: usize = 0;
    while i < v.len()
        invariant
            i <= v.len(),
            v@ == s@,
            out@ == old(out)@ + escape(s@.take(i as int)),
        decreases v.len() - i,
    {
        let ghost before = out@;
        let c = v[i];
        if c == '"' {
            out.push('\\');
            out.push('"');
        } else if c == '\\' {
            out.push('\\');
            out.push('\\');
        } else if c == '\n' {
            out.push('\\');
            out.push('n');
        } else if c == '\r' {
            out.push('\\');
            out.push('r');
        } else if c == '\t' {
            out.push('\\');
            out.push('t');
        } else if c == '\u{8}' {
            out.push('\\');
            out.push('b');
        } else if c == '\u{c}' {
            out.push('\\');
            out.push('f');
        } else if (c as u32) < 32 {
            let code = c as u32;
            out.push('\\');
            out.push('u');
            out.push('0');
            out.push('0');
            out.push(hex_char((code / 16) as u8));
            out.push(hex_char((code % 16) as u8));
        } else {
            out.push(c);
        }
        proof {
            assert(out@ =~= before + escape_char(c));
            lemma_escape_snoc(s@.take(i as int), c);
            assert(s@.take(i as int).push(c) =~= s@.take(i + 1 as int));
            assert(out@ =~= old(out)@ + escape(s@.take(i + 1 as int)));
        }
        i = i + 1;
    }
    proof {
        assert(s@.take(s@.len() as int) =~= s@);
    }
}

proof fn lemma_encode_entries_snoc(s: Seq<EntryModel>, e: EntryModel)
    ensures
        s.len() == 0 ==> encode_entries(s.push(e)) == encode_entry(e),
        s.len() > 0 ==> encode_entries(s.push(e)) == encode_entries(s) + json_sep()
            + encode_entry(e),
    decreases s.len(),
{
    if s.len() == 0 {
        assert(s.push(e)[0] == e);
    } else {
        assert(s.push(e).skip(1) =~= s.skip(1).push(e));
        lemma_encode_entries_snoc(s.skip(1), e);
        if s.len() == 1 {
            assert(encode_entries(s.push(e)) =~= encode_entries(s) + json_sep()
                + encode_entry(e));
        } else {
            assert(encode_entries(s.push(e)) =~= encode_entries(s) + json_sep()
                + encode_entry(e));
        }
    }
}

impl IgnoreConfig {
    /// The canonical pretty-printed JSON text of this store.
    #[verifier::loop_isolation(false)]
    pub fn to_json(&self) -> (r: String)
        ensures
            r@ == encode_config(self@),
    {
        let mut out: Vec<char> = Vec::new();
        append_lit(&mut out, "{\n  \"patterns\": [");
        proof {
            lemma_header_lit();
        }
        if self.patterns.len() == 0 {
            append_lit(&mut out, "]\n}");
            proof {
                lemma_empty_tail_lit();
                assert(out@ =~= encode_config(self@));
            }
            return string_from_chars(&out);
        }
        let mut i: usize = 0;
        while i < self.patterns.len()
            invariant
                i <= self.patterns.len(),
                out@ == json_header() + encode_entries(self@.take(i as int)),
            decreases self.patterns.len() - i,
        {
            let ghost base = out@;
            if i > 0 {
                out.push(',');
                proof {
                    lemma_sep_lit();
                    assert(out@ =~= base + json_sep());
                }
            }
            let ghost mid = out@;
            append_lit(&mut out, "\n    {\n      \"pattern\": \"");
            append_escaped(&mut out, self.patterns[i].pattern.as_str());
            out.push('"');
            append_lit(&mut out, ",\n      \"enabled\": ");
            if self.patterns[i].enabled {
                append_lit(&mut out, "true");
            } else {
                append_lit(&mut out, "false");
            }
            append_lit(&mut out, "\n    }");
            proof {
                lemma_entry_open_lit();
                lemma_after_pattern_lit();
                lemma_entry_close_lit();
                lemma_true_lit();
                lemma_false_lit();
                let e = self@[i as int];
                assert(e.pattern == self.patterns@[i as int].pattern@);
                assert(out@ =~= mid + encode_entry(e));
                lemma_encode_entries_snoc(self@.take(i as int), e);
                assert(self@.take(i as int).push(e) =~= self@.take(i + 1 as int));
                assert(out@ =~= json_header() + encode_entries(self@.take(i + 1 as int)));
            }
            i = i + 1;
        }
        append_lit(&mut out, "\n  ]\n}");
        proof {
            lemma_tail_lit();
            assert(self@.take(self@.len() as int) =~= self@);
            assert(out@ =~= encode_config(self@));
        }
        string_from_chars(&out)
    }
}

// ---------------------------------------------------------------------------
// The executable decoder.
// ---------------------------------------------------------------------------

/// Failure of [`IgnoreConfig::from_json`]: the text is not JSON of the
/// store's schema.
#[derive(Clone, Copy, PartialEq, Eq, Structural, Debug)]
pub enum DecodeError {
    Malformed,
}

/// Advances past every whitespace character from position `i` of `s`.
#[verifier::loop_isolation(false)]
fn skip_ws_at(s: &Vec<char>, i: usize) -> (j: usize)
    requires
        i <= s.len(),
    ensures
        i <= j <= s.len(),
        s@.skip(j as int) == skip_ws(s@.skip(i as int)),
{
    let mut j = i;
    while j < s.len() && (s[j] == ' ' || s[j] == '\n' || s[j] == '\r' || s[j] == '\t')
        invariant
            i <= j <= s.len(),
            skip_ws(s@.skip(i as int)) == skip_ws(s@.skip(j as int)),
        decreases s.len() - j,
    {
        proof {
            assert(s@.skip(j as int)[0] == s@[j as int]);
            assert(s@.skip(j as int).skip(1) =~= s@.skip(j + 1));
        }
        j = j + 1;
    }
    proof {
        if j < s.len() {
            assert(s@.skip(j as int)[0] == s@[j as int]);
        }
        assert(skip_ws(s@.skip(j as int)) == s@.skip(j as int));
    }
    j
}

/// Consumes the literal `lit` at position `i` of `s`, yielding the position
/// after it.
#[verifier::loop_isolation(false)]
fn expect_str(s: &Vec<char>, i: usize, lit: &str) -> (r: Option<usize>)
    requires
        i <= s.len(),
    ensures
        match r {
            Some(j) => i <= j <= s.len() && j - i == lit@.len() && expect(
                s@.skip(i as int),
                lit@,
            ) == Some(s@.skip(j as int)),
            None => expect(s@.skip(i as int), lit@) is None,
        },
{
    let v = chars_of(lit);
    let m = v.len();
    let ghost t = s@.skip(i as int);
    if m > s.len() - i {
        return None;
    }
    let mut j: usize = 0;
    while j < m
        invariant
            j <= m,
            m == lit@.len(),
            v@ == lit@,
            i + m <= s.len(),
            t == s@.skip(i as int),
            forall|x: int| 0 <= x < j ==> t[x] == lit@[x],
        decreases m - j,
    {
        if s[i + j] != v[j] {
            proof {
                assert(t[j as int] == s@[i + j]);
                if expect(t, lit@) is Some {
                    assert(t.take(m as int)[j as int] == t[j as int]);
                    assert(false);
                }
            }
            return None;
        }
        j = j + 1;
    }
    proof {
        assert(t.take(m as int) =~= lit@);
        assert(t.skip(m as int) =~= s@.skip(i + m));
    }
    Some(i + m)
}

/// `r` with `pre` put before the parsed content.
spec fn prepend_chars(pre: Seq<char>, r: Option<(Seq<char>, Seq<char>)>) -> Option<
    (Seq<char>, Seq<char>),
> {
    match r {
        None => None,
        Some((body, rest)) => Some((pre + body, rest)),
    }
}

proof fn lemma_prepend_chars_assoc(a: Seq<char>, b: Seq<char>, r: Option<(Seq<char>, Seq<char>)>)
    ensures
        prepend_chars(a, prepend_chars(b, r)) == prepend_chars(a + b, r),
{
    match r {
        None => {},
        Some((body, rest)) => {
            assert(a + (b + body) =~= (a + b) + body);
        },
    }
}

/// The value of a hexadecimal digit, either case.
fn hex_val_at(c: char) -> (r: Option<u8>)
    ensures
        match r {
            Some(v) => v < 16 && hex_val(c) == Some(v as int),
            None => hex_val(c) is None,
        },
{
    if c == '0' {
        Some(0)
    } else if c == '1' {
        Some(1)
    } else if c == '2' {
        Some(2)
    } else if c == '3' {
        Some(3)
    } else if c == '4' {
        Some(4)
    } else if c == '5' {
        Some(5)
    } else if c == '6' {
        Some(6)
    } else if c == '7' {
        Some(7)
    } else if c == '8' {
        Some(8)
    } else if c == '9' {
        Some(9)
    } else if c == 'a' || c == 'A' {
        Some(10)
    } else if c == 'b' || c == 'B' {
        Some(11)
    } else if c == 'c' || c == 'C' {
        Some(12)
    } else if c == 'd' || c == 'D' {
        Some(13)
    } else if c == 'e' || c == 'E' {
        Some(14)
    } else if c == 'f' || c == 'F' {
        Some(15)
    } else {
        None
    }
}

/// Consumes a string body from position `i`, undoing the escapes; yields the
/// content and the position after the closing quote.
#[verifier::loop_isolation(false)]
fn parse_string_at(s: &Vec<char>, i: usize) -> (r: Option<(Vec<char>, usize)>)
    requires
        i <= s.len(),
    ensures
        match r {
            Some((body, j)) => i < j <= s.len() && parse_string_body(s@.skip(i as int)) == Some(
                (body@, s@.skip(j as int)),
            ),
            None => parse_string_body(s@.skip(i as int)) is None,
        },
{
    let mut acc: Vec<char> = Vec::new();
    let mut k = i;
    loop
        invariant
            i <= k <= s.len(),
            parse_string_body(s@.skip(i as int)) == prepend_chars(
                acc@,
                parse_string_body(s@.skip(k as int)),
            ),
        decreases s.len() - k,
    {
        let ghost t = s@.skip(k as int);
        if k == s.len() {
            return None;
        }
        let c = s[k];
        proof {
            assert(t[0] == c);
        }
        if c == '"' {
            proof {
                assert(t.skip(1) =~= s@.skip(k + 1));
                assert(acc@ + Seq::<char>::empty() =~= acc@);
            }
            return Some((acc, k + 1));
        }
        if c == '\\' {
            if k + 1 == s.len() {
                proof {
                    assert(t.len() < 2);
                }
                return None;
            }
            let e = s[k + 1];
            proof {
                assert(t[1] == e);
            }
            if e == 'u' {
                if s.len() - k < 6 {
                    proof {
                        assert(t.len() < 6);
                    }
                    return None;
                }
                proof {
                    assert(t[2] == s@[k + 2] && t[3] == s@[k + 3]);
                    assert(t[4] == s@[k + 4] && t[5] == s@[k + 5]);
                }
                if s[k + 2] != '0' || s[k + 3] != '0' {
                    return None;
                }
                let h = hex_val_at(s[k + 4]);
                let l = hex_val_at(s[k + 5]);
                match (h, l) {
                    (Some(hv), Some(lv)) => {
                        let code: u8 = 16 * hv + lv;
                        let c2 = code as char;
                        let ghost prev = acc@;
                        acc.push(c2);
                        proof {
                            assert(t.skip(6) =~= s@.skip(k + 6));
                            assert(parse_string_body(t) == prepend_chars(
                                seq![c2],
                                parse_string_body(s@.skip(k + 6)),
                            ));
                            lemma_prepend_chars_assoc(
                                prev,
                                seq![c2],
                                parse_string_body(s@.skip(k + 6)),
                            );
                            assert(prev + seq![c2] =~= acc@);
                        }
                        k = k + 6;
                    },
                    _ => {
                        return None;
                    },
                }
            } else {
                let u: Option<char> = if e == '"' {
                    Some('"')
                } else if e == '\\' {
                    Some('\\')
                } else if e == '/' {
                    Some('/')
                } else if e == 'n' {
                    Some('\n')
                } else if e == 'r' {
                    Some('\r')
                } else if e == 't' {
                    Some('\t')
                } else if e == 'b' {
                    Some('\u{8}')
                } else if e == 'f' {
                    Some('\u{c}')
                } else {
                    None
                };
                proof {
                    assert(u == unescape_char(e));
                }
                match u {
                    None => {
                        return None;
                    },
                    Some(c2) => {
                        let ghost prev = acc@;
                        acc.push(c2);
                        proof {
                            assert(t.skip(2) =~= s@.skip(k + 2));
                            assert(parse_string_body(t) == prepend_chars(
                                seq![c2],
                                parse_string_body(s@.skip(k + 2)),
                            ));
                            lemma_prepend_chars_assoc(
                                prev,
                                seq![c2],
                                parse_string_body(s@.skip(k + 2)),
                            );
                            assert(prev + seq![c2] =~= acc@);
                        }
                        k = k + 2;
                    },
                }
            }
        } else {
            let ghost prev = acc@;
            acc.push(c);
            proof {
                assert(t.skip(1) =~= s@.skip(k + 1));
                assert(parse_string_body(t) == prepend_chars(
                    seq![c],
                    parse_string_body(s@.skip(k + 1)),
                ));
                lemma_prepend_chars_assoc(prev, seq![c], parse_string_body(s@.skip(k + 1)));
                assert(prev + seq![c] =~= acc@);
            }
            k = k + 1;
        }
    }
}

/// Consumes a colon and a quoted string from position `i`.
fn parse_colon_string_at(s: &Vec<char>, i: usize) -> (r: Option<(Vec<char>, usize)>)
    requires
        i <= s.len(),
    ensures
        match r {
            Some((body, j)) => i <= j <= s.len() && parse_colon_string(s@.skip(i as int)) == Some(
                (body@, s@.skip(j as int)),
            ),
            None => parse_colon_string(s@.skip(i as int)) is None,
        },
{
    proof {
        lemma_colon_lit();
        lemma_quote_lit();
    }
    let i1 = skip_ws_at(s, i);
    let i2 = match expect_str(s, i1, ":") {
        None => {
            return None;
        },
        Some(j) => j,
    };
    let i3 = skip_ws_at(s, i2);
    let i4 = match expect_str(s, i3, "\"") {
        None => {
            return None;
        },
        Some(j) => j,
    };
    parse_string_at(s, i4)
}

/// Consumes a colon and a boolean from position `i`.
fn parse_colon_bool_at(s: &Vec<char>, i: usize) -> (r: Option<(bool, usize)>)
    requires
        i <= s.len(),
    ensures
        match r {
            Some((b, j)) => i <= j <= s.len() && parse_colon_bool(s@.skip(i as int)) == Some(
                (b, s@.skip(j as int)),
            ),
            None => parse_colon_bool(s@.skip(i as int)) is None,
        },
{
    proof {
        lemma_colon_lit();
        lemma_true_lit();
        lemma_false_lit();
    }
    let i1 = skip_ws_at(s, i);
    let i2 = match expect_str(s, i1, ":") {
        None => {
            return None;
        },
        Some(j) => j,
    };
    let i3 = skip_ws_at(s, i2);
    match expect_str(s, i3, "true") {
        Some(j) => Some((true, j)),
        None => match expect_str(s, i3, "false") {
            Some(j) => Some((false, j)),
            None => None,
        },
    }
}

/// Consumes one entry object from position `i`: two fields, either order.
fn parse_entry_at(s: &Vec<char>, i: usize) -> (r: Option<(IgnorePattern, usize)>)
    requires
        i <= s.len(),
    ensures
        match r {
            Some((p, j)) => i < j <= s.len() && parse_entry(s@.skip(i as int)) == Some(
                (p@, s@.skip(j as int)),
            ),
            None => parse_entry(s@.skip(i as int)) is None,
        },
{
    proof {
        lemma_lbrace_lit();
        lemma_rbrace_lit();
        lemma_sep_lit();
        lemma_pattern_key_lit();
        lemma_enabled_key_lit();
    }
    let i1 = skip_ws_at(s, i);
    let i2 = match expect_str(s, i1, "{") {
        None => {
            return None;
        },
        Some(j) => j,
    };
    let i3 = skip_ws_at(s, i2);
    match expect_str(s, i3, "\"pattern\"") {
        Some(ia) => {
            let (body, i4) = match parse_colon_string_at(s, ia) {
                None => {
                    return None;
                },
                Some(x) => x,
            };
            let i5 = skip_ws_at(s, i4);
            let i6 = match expect_str(s, i5, ",") {
                None => {
                    return None;
                },
                Some(j) => j,
            };
            let i7 = skip_ws_at(s, i6);
            let i8 = match expect_str(s, i7, "\"enabled\"") {
                None => {
                    return None;
                },
                Some(j) => j,
            };
            let (b, i9) = match parse_colon_bool_at(s, i8) {
                None => {
                    return None;
                },
                Some(x) => x,
            };
            let i10 = skip_ws_at(s, i9);
            let i11 = match expect_str(s, i10, "}") {
                None => {
                    return None;
                },
                Some(j) => j,
            };
            let p = IgnorePattern { pattern: string_from_chars(&body), enabled: b };
            Some((p, i11))
        },
        None => {
            let ib = match expect_str(s, i3, "\"enabled\"") {
                None => {
                    return None;
                },
                Some(j) => j,
            };
            let (b, i4) = match parse_colon_bool_at(s, ib) {
                None => {
                    return None;
                },
                Some(x) => x,
            };
            let i5 = skip_ws_at(s, i4);
            let i6 = match expect_str(s, i5, ",") {
                None => {
                    return None;
                },
                Some(j) => j,
            };
            let i7 = skip_ws_at(s, i6);
            let i8 = match expect_str(s, i7, "\"pattern\"") {
                None => {
                    return None;
                },
                Some(j) => j,
            };
            let (body, i9) = match parse_colon_string_at(s, i8) {
                None => {
                    return None;
                },
                Some(x) => x,
            };
            let i10 = skip_ws_at(s, i9);
            let i11 = match expect_str(s, i10, "}") {
                None => {
                    return None;
                },
                Some(j) => j,
            };
            let p = IgnorePattern { pattern: string_from_chars(&body), enabled: b };
            Some((p, i11))
        },
    }
}

/// `r` with `pre` put before the parsed entries.
spec fn prepend_entries(pre: Seq<EntryModel>, r: Option<(Seq<EntryModel>, Seq<char>)>) -> Option<
    (Seq<EntryModel>, Seq<char>),
> {
    match r {
        None => None,
        Some((es, rest)) => Some((pre + es, rest)),
    }
}

proof fn lemma_prepend_entries_assoc(
    a: Seq<EntryModel>,
    b: Seq<EntryModel>,
    r: Option<(Seq<EntryModel>, Seq<char>)>,
)
    ensures
        prepend_entries(a, prepend_entries(b, r)) == prepend_entries(a + b, r),
{
    match r {
        None => {},
        Some((es, rest)) => {
            assert(a + (b + es) =~= (a + b) + es);
        },
    }
}

/// Consumes one or more comma-separated entry objects from position `i`.
#[verifier::loop_isolation(false)]
fn parse_entries_at(s: &Vec<char>, i: usize) -> (r: Option<(Vec<IgnorePattern>, usize)>)
    requires
        i <= s.len(),
    ensures
        match r {
            Some((v, j)) => i <= j <= s.len() && parse_entries(s@.skip(i as int)) == Some(
                (models(v@), s@.skip(j as int)),
            ),
            None => parse_entries(s@.skip(i as int)) is None,
        },
{
    let mut acc: Vec<IgnorePattern> = Vec::new();
    let mut k = i;
    proof {
        assert(models(acc@) =~= Seq::<EntryModel>::empty());
    }
    loop
        invariant
            i <= k <= s.len(),
            parse_entries(s@.skip(i as int)) == prepend_entries(
                models(acc@),
                parse_entries(s@.skip(k as int)),
            ),
        decreases s.len() - k,
    {
        let ghost t = s@.skip(k as int);
        let (p, j) = match parse_entry_at(s, k) {
            None => {
                return None;
            },
            Some(pj) => pj,
        };
        proof {
            lemma_sep_lit();
        }
        let js = skip_ws_at(s, j);
        match expect_str(s, js, ",") {
            None => {
                let ghost prev = acc@;
                acc.push(p);
                proof {
                    assert(parse_entries(t) == Some((seq![p@], s@.skip(j as int))));
                    assert(models(prev).push(p@) =~= models(acc@));
                    assert(models(prev) + seq![p@] =~= models(acc@));
                }
                return Some((acc, j));
            },
            Some(j2) => {
                let ghost prev = acc@;
                acc.push(p);
                proof {
                    assert(parse_entries(t) == prepend_entries(
                        seq![p@],
                        parse_entries(s@.skip(j2 as int)),
                    ));
                    lemma_prepend_entries_assoc(
                        models(prev),
                        seq![p@],
                        parse_entries(s@.skip(j2 as int)),
                    );
                    assert(models(prev) + seq![p@] =~= models(acc@));
                }
                k = j2;
            },
        }
    }
}

/// Consumes the closing brace at position `i` and checks that nothing but
/// whitespace follows.
fn parse_end_at(s: &Vec<char>, i: usize) -> (r: bool)
    requires
        i <= s.len(),
    ensures
        r ==> forall|es: Seq<EntryModel>| parse_end(s@.skip(i as int), es) == Some(es),
        !r ==> forall|es: Seq<EntryModel>|
            parse_end(s@.skip(i as int), es) == None::<Seq<EntryModel>>,
{
    proof {
        lemma_rbrace_lit();
    }
    let i1 = skip_ws_at(s, i);
    match expect_str(s, i1, "}") {
        None => false,
        Some(j) => {
            let j2 = skip_ws_at(s, j);
            j2 == s.len()
        },
    }
}

impl IgnoreConfig {
    /// Parses the JSON text of a store: the documented object shape, with
    /// any inter-token whitespace and the entry fields in either order.
    /// Anything else is malformed.
    pub fn from_json(s: &str) -> (r: Result<IgnoreConfig, DecodeError>)
        ensures
            match r {
                Ok(c) => parse_config(s@) == Some(c@),
                Err(e) => parse_config(s@) is None,
            },
    {
        let v = chars_of(s);
        proof {
            assert(v@.skip(0) =~= s@);
            lemma_lbrace_lit();
            lemma_patterns_key_lit();
            lemma_colon_lit();
            lemma_lbracket_lit();
            lemma_rbracket_lit();
        }
        let i1 = skip_ws_at(&v, 0);
        let i2 = match expect_str(&v, i1, "{") {
            None => {
                return Err(DecodeError::Malformed);
            },
            Some(j) => j,
        };
        let i3 = skip_ws_at(&v, i2);
        let i4 = match expect_str(&v, i3, "\"patterns\"") {
            None => {
                return Err(DecodeError::Malformed);
            },
            Some(j) => j,
        };
        let i5 = skip_ws_at(&v, i4);
        let i6 = match expect_str(&v, i5, ":") {
            None => {
                return Err(DecodeError::Malformed);
            },
            Some(j) => j,
        };
        let i7 = skip_ws_at(&v, i6);
        let i8 = match expect_str(&v, i7, "[") {
            None => {
                return Err(DecodeError::Malformed);
            },
            Some(j) => j,
        };
        let i9 = skip_ws_at(&v, i8);
        match expect_str(&v, i9, "]") {
            Some(i10) => {
                if parse_end_at(&v, i10) {
                    let c = IgnoreConfig { patterns: Vec::new() };
                    proof {
                        assert(c@ =~= Seq::<EntryModel>::empty());
                    }
                    Ok(c)
                } else {
                    Err(DecodeError::Malformed)
                }
            },
            None => {
                let (entries, j3) = match parse_entries_at(&v, i8) {
                    None => {
                        return Err(DecodeError::Malformed);
                    },
                    Some(ej) => ej,
                };
                let j4 = skip_ws_at(&v, j3);
                let j5 = match expect_str(&v, j4, "]") {
                    None => {
                        return Err(DecodeError::Malformed);
                    },
                    Some(j) => j,
                };
                if parse_end_at(&v, j5) {
                    Ok(IgnoreConfig { patterns: entries })
                } else {
                    Err(DecodeError::Malformed)
                }
            },
        }
    }
}

} // verus!
