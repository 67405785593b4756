//! The interchange codec for person sequences.
//!
//! The wire form is a JSON document: an array of objects, each with the
//! fields `name` (a string), `age` (a non-negative integer) and `email` (a
//! string, or `null` when absent), in that order. The writer emits a compact
//! document with no added whitespace; the reader tolerates whitespace
//! between tokens and the usual string escapes. Both directions are
//! verified against the spec-level grammar below, and decoding an encoded
//! sequence is proved to give the sequence back.

use vstd::prelude::*;
use vstd::string::StrSliceExecFns;
use vstd::string::StringExecFns;

use crate::decimal::{
    append_dec, dec_digits, dec_val, digit_val, is_dec_digit, lemma_dec_val_extend, push_char,
};
use crate::person::{Person, PersonV};

verus! {

/// The failure result of the codec: the given text does not conform to the
/// expected structure (malformed syntax, a missing field, a wrong type, or
/// an age out of range).
#[derive(Debug)]
pub struct SerializationError {
    pub message: String,
}

// ---------------------------------------------------------------------------
// The encoded form, as a function of the value.
// ---------------------------------------------------------------------------

/// The character for a hexadecimal digit value, lower case.
pub open spec fn hex_digit(d: nat) -> char {
    if d == 0 {
        '0'
    } else if d == 1 {
        '1'
    } else if d == 2 {
        '2'
    } else if d == 3 {
        '3'
    } else if d == 4 {
        '4'
    } else if d == 5 {
        '5'
    } else if d == 6 {
        '6'
    } else if d == 7 {
        '7'
    } else if d == 8 {
        '8'
    } else if d == 9 {
        '9'
    } else if d == 10 {
        'a'
    } else if d == 11 {
        'b'
    } else if d == 12 {
        'c'
    } else if d == 13 {
        'd'
    } else if d == 14 {
        'e'
    } else {
        'f'
    }
}

/// How one character of a string value is written: quote and backslash get
/// a backslash escape, control characters a four-digit escape, every other
/// character stands for itself.
pub open spec fn enc_char(c: char) -> Seq<char> {
    if c == '"' {
        seq!['\\', '"']
    } else if c == '\\' {
        seq!['\\', '\\']
    } else if (c as u32) < 32 {
        seq!['\\', 'u', '0', '0', hex_digit(((c as u32) / 16) as nat), hex_digit(
            ((c as u32) % 16) as nat,
        )]
    } else {
        seq![c]
    }
}

/// The written form of the characters of a string value, in order.
pub open spec fn enc_chars(s: Seq<char>) -> Seq<char>
    decreases s.len(),
{
    if s.len() == 0 {
        Seq::empty()
    } else {
        enc_char(s[0]) + enc_chars(s.skip(1))
    }
}

/// A string value with its surrounding quotes.
pub open spec fn enc_string(s: Seq<char>) -> Seq<char> {
    seq!['"'] + enc_chars(s) + seq!['"']
}

pub open spec fn name_key() -> Seq<char> {
    seq!['"', 'n', 'a', 'm', 'e', '"']
}

pub open spec fn age_key() -> Seq<char> {
    seq!['"', 'a', 'g', 'e', '"']
}

pub open spec fn email_key() -> Seq<char> {
    seq!['"', 'e', 'm', 'a', 'i', 'l', '"']
}

pub open spec fn null_lit() -> Seq<char> {
    seq!['n', 'u', 'l', 'l']
}

/// An email value: the string, or `null` when absent.
pub open spec fn enc_email(e: Option<Seq<char>>) -> Seq<char> {
    match e {
        Some(s) => enc_string(s),
        None => null_lit(),
    }
}

/// One person as an object with its three fields in order.
pub open spec fn enc_person(p: PersonV) -> Seq<char> {
    seq!['{'] + name_key() + seq![':'] + enc_string(p.name) + seq![','] + age_key() + seq![':']
        + dec_digits(p.age as nat) + seq![','] + email_key() + seq![':'] + enc_email(p.email)
        + seq!['}']
}

/// The rest of the array after its first element: for each further person a
/// comma and the person, then the closing bracket.
pub open spec fn enc_more(ps: Seq<PersonV>) -> Seq<char>
    decreases ps.len(),
{
    if ps.len() == 0 {
        seq![']']
    } else {
        seq![','] + enc_person(ps[0]) + enc_more(ps.skip(1))
    }
}

/// A person sequence as an array of person objects.
pub open spec fn enc_people(ps: Seq<PersonV>) -> Seq<char> {
    if ps.len() == 0 {
        seq!['[', ']']
    } else {
        seq!['['] + enc_person(ps[0]) + enc_more(ps.skip(1))
    }
}

// ---------------------------------------------------------------------------
// The grammar the reader accepts, as a recursive-descent parse over the
// character sequence. Every parse function returns the parsed value and the
// index just past what it consumed, or nothing when the text does not
// conform.
// ---------------------------------------------------------------------------

pub open spec fn is_ws(c: char) -> bool {
    c == ' ' || c == '\t' || c == '\n' || c == '\r'
}

/// The first index at or after `i` that does not hold whitespace.
pub open spec fn skip_ws(s: Seq<char>, i: int) -> int
    decreases s.len() - i,
{
    if 0 <= i < s.len() && is_ws(s[i]) {
        skip_ws(s, i + 1)
    } else {
        i
    }
}

pub open spec fn is_hex_digit(c: char) -> bool {
    is_dec_digit(c) || c == 'a' || c == 'b' || c == 'c' || c == 'd' || c == 'e' || c == 'f'
        || c == 'A' || c == 'B' || c == 'C' || c == 'D' || c == 'E' || c == 'F'
}

/// The value of a hexadecimal digit character (zero on a non-digit).
pub open spec fn hex_val(c: char) -> nat {
    if c == 'a' || c == 'A' {
        10
    } else if c == 'b' || c == 'B' {
        11
    } else if c == 'c' || c == 'C' {
        12
    } else if c == 'd' || c == 'D' {
        13
    } else if c == 'e' || c == 'E' {
        14
    } else if c == 'f' || c == 'F' {
        15
    } else {
        digit_val(c)
    }
}

/// Prepends a parsed character to the result of parsing the rest.
pub open spec fn cons_char(c: char, r: Option<(Seq<char>, int)>) -> Option<(Seq<char>, int)> {
    match r {
        Some((t, j)) => Some((seq![c] + t, j)),
        None => None,
    }
}

/// The body of a string, read from just after the opening quote up to and
/// past the closing one. Raw control characters do not conform; a `\u`
/// escape is accepted for code points below 128.
pub open spec fn parse_str_body(s: Seq<char>, i: int) -> Option<(Seq<char>, int)>
    decreases s.len() - i,
{
    if !(0 <= i < s.len()) {
        None
    } else if s[i] == '"' {
        Some((Seq::empty(), i + 1))
    } else if s[i] == '\\' {
        if i + 1 < s.len() {
            let e = s[i + 1];
            if e == '"' {
                cons_char('"', parse_str_body(s, i + 2))
            } else if e == '\\' {
                cons_char('\\', parse_str_body(s, i + 2))
            } else if e == '/' {
                cons_char('/', parse_str_body(s, i + 2))
            } else if e == 'b' {
                cons_char('\u{8}', parse_str_body(s, i + 2))
            } else if e == 'f' {
                cons_char('\u{c}', parse_str_body(s, i + 2))
            } else if e == 'n' {
                cons_char('\n', parse_str_body(s, i + 2))
            } else if e == 'r' {
                cons_char('\r', parse_str_body(s, i + 2))
            } else if e == 't' {
                cons_char('\t', parse_str_body(s, i + 2))
            } else if e == 'u' {
                if i + 5 < s.len() && is_hex_digit(s[i + 2]) && is_hex_digit(s[i + 3])
                    && is_hex_digit(s[i + 4]) && is_hex_digit(s[i + 5]) {
                    let v = hex_val(s[i + 2]) * 4096 + hex_val(s[i + 3]) * 256 + hex_val(
                        s[i + 4],
                    ) * 16 + hex_val(s[i + 5]);
                    if v < 128 {
                        cons_char((v as u32) as char, parse_str_body(s, i + 6))
                    } else {
                        None
                    }
                } else {
                    None
                }
            } else {
                None
            }
        } else {
            None
        }
    } else if (s[i] as u32) < 32 {
        None
    } else {
        cons_char(s[i], parse_str_body(s, i + 1))
    }
}

/// A quoted string starting exactly at `i`.
pub open spec fn parse_string(s: Seq<char>, i: int) -> Option<(Seq<char>, int)> {
    if 0 <= i < s.len() && s[i] == '"' {
        parse_str_body(s, i + 1)
    } else {
        None
    }
}

/// The first index at or after `i` that does not hold a decimal digit.
pub open spec fn digit_run_end(s: Seq<char>, i: int) -> int
    decreases s.len() - i,
{
    if 0 <= i < s.len() && is_dec_digit(s[i]) {
        digit_run_end(s, i + 1)
    } else {
        i
    }
}

/// A non-negative integer starting exactly at `i`: one or more digits, with
/// no leading zero.
pub open spec fn parse_number(s: Seq<char>, i: int) -> Option<(nat, int)> {
    let j = digit_run_end(s, i);
    if j == i {
        None
    } else if s[i] == '0' && j > i + 1 {
        None
    } else {
        Some((dec_val(s.subrange(i, j)), j))
    }
}

/// True when `lit` stands in `s` starting exactly at `i`.
pub open spec fn match_lit(s: Seq<char>, i: int, lit: Seq<char>) -> bool {
    0 <= i && i + lit.len() <= s.len() && s.subrange(i, i + lit.len() as int) == lit
}

/// A colon between optional whitespace; the index just past it.
pub open spec fn parse_colon(s: Seq<char>, i: int) -> Option<int> {
    let j = skip_ws(s, i);
    if j < s.len() && s[j] == ':' {
        Some(skip_ws(s, j + 1))
    } else {
        None
    }
}

/// A comma between optional whitespace; the index just past it.
pub open spec fn parse_field_sep(s: Seq<char>, i: int) -> Option<int> {
    let j = skip_ws(s, i);
    if j < s.len() && s[j] == ',' {
        Some(skip_ws(s, j + 1))
    } else {
        None
    }
}

/// An email value: the word `null`, or a string.
pub open spec fn parse_email_value(s: Seq<char>, i: int) -> Option<(Option<Seq<char>>, int)> {
    if match_lit(s, i, null_lit()) {
        Some((None, i + 4))
    } else {
        match parse_string(s, i) {
            Some((e, j)) => Some((Some(e), j)),
            None => None,
        }
    }
}

/// One person object starting exactly at `i`: the three fields in order,
/// with an age that fits the age type.
pub open spec fn parse_person(s: Seq<char>, i: int) -> Option<(PersonV, int)> {
    if 0 <= i < s.len() && s[i] == '{' {
        let i1 = skip_ws(s, i + 1);
        if match_lit(s, i1, name_key()) {
            match parse_colon(s, i1 + 6) {
                Some(i2) => match parse_string(s, i2) {
                    Some((nm, i3)) => match parse_field_sep(s, i3) {
                        Some(i4) => if match_lit(s, i4, age_key()) {
                            match parse_colon(s, i4 + 5) {
                                Some(i5) => match parse_number(s, i5) {
                                    Some((v, i6)) => if v <= u32::MAX {
                                        match parse_field_sep(s, i6) {
                                            Some(i7) => if match_lit(s, i7, email_key()) {
                                                match parse_colon(s, i7 + 7) {
                                                    Some(i8) => match parse_email_value(s, i8) {
                                                        Some((em, i9)) => {
                                                            let i10 = skip_ws(s, i9);
                                                            if i10 < s.len() && s[i10] == '}' {
                                                                Some(
                                                                    (
                                                                        PersonV {
                                                                            name: nm,
                                                                            age: v as u32,
                                                                            email: em,
                                                                        },
                                                                        i10 + 1,
                                                                    ),
                                                                )
                                                            } else {
                                                                None
                                                            }
                                                        },
                                                        None => None,
                                                    },
                                                    None => None,
                                                }
                                            } else {
                                                None
                                            },
                                            None => None,
                                        }
                                    } else {
                                        None
                                    },
                                    None => None,
                                },
                                None => None,
                            }
                        } else {
                            None
                        },
                        None => None,
                    },
                    None => None,
                },
                None => None,
            }
        } else {
            None
        }
    } else {
        None
    }
}

/// The rest of the array after one person: either the closing bracket, or a
/// comma, a further person, and the rest again.
pub open spec fn parse_more(s: Seq<char>, i: int) -> Option<(Seq<PersonV>, int)>
    decreases s.len() - i,
    via parse_more_decreases
{
    if 0 <= i <= s.len() {
        let j = skip_ws(s, i);
        if j < s.len() && s[j] == ']' {
            Some((Seq::empty(), j + 1))
        } else if j < s.len() && s[j] == ',' {
            let k = skip_ws(s, j + 1);
            match parse_person(s, k) {
                Some((p, m)) => match parse_more(s, m) {
                    Some((ps, e)) => Some((seq![p] + ps, e)),
                    None => None,
                },
                None => None,
            }
        } else {
            None
        }
    } else {
        None
    }
}

#[via_fn]
proof fn parse_more_decreases(s: Seq<char>, i: int) {
    if 0 <= i <= s.len() {
        lemma_skip_ws_bounds(s, i);
        let j = skip_ws(s, i);
        if j < s.len() && s[j] != ']' && s[j] == ',' {
            lemma_skip_ws_bounds(s, j + 1);
            let k = skip_ws(s, j + 1);
            lemma_parse_person_bounds(s, k);
        }
    }
}

/// A whole document: optional whitespace, an array of persons, optional
/// whitespace, and nothing further.
pub open spec fn parse_doc(s: Seq<char>) -> Option<Seq<PersonV>> {
    let i = skip_ws(s, 0);
    if i < s.len() && s[i] == '[' {
        let j = skip_ws(s, i + 1);
        if j < s.len() && s[j] == ']' {
            if skip_ws(s, j + 1) == s.len() {
                Some(Seq::empty())
            } else {
                None
            }
        } else {
            match parse_person(s, j) {
                Some((p, m)) => match parse_more(s, m) {
                    Some((ps, e)) => if skip_ws(s, e) == s.len() {
                        Some(seq![p] + ps)
                    } else {
                        None
                    },
                    None => None,
                },
                None => None,
            }
        }
    } else {
        None
    }
}

// ---------------------------------------------------------------------------
// Index bounds of the parse functions: whatever conforms consumes at least
// one character and stays within the text.
// ---------------------------------------------------------------------------

pub proof fn lemma_skip_ws_bounds(s: Seq<char>, i: int)
    requires
        0 <= i,
    ensures
        i <= skip_ws(s, i),
        i <= s.len() ==> skip_ws(s, i) <= s.len(),
        i > s.len() ==> skip_ws(s, i) == i,
    decreases s.len() - i,
{
    if i < s.len() && is_ws(s[i]) {
        lemma_skip_ws_bounds(s, i + 1);
    }
}

pub proof fn lemma_parse_str_body_bounds(s: Seq<char>, i: int)
    ensures
        parse_str_body(s, i) matches Some((t, k)) ==> i < k <= s.len(),
    decreases s.len() - i,
{
    if 0 <= i < s.len() {
        if s[i] == '"' {
        } else if s[i] == '\\' {
            if i + 1 < s.len() {
                lemma_parse_str_body_bounds(s, i + 2);
                if i + 5 < s.len() {
                    lemma_parse_str_body_bounds(s, i + 6);
                }
            }
        } else {
            lemma_parse_str_body_bounds(s, i + 1);
        }
    }
}

pub proof fn lemma_digit_run_bounds(s: Seq<char>, i: int)
    requires
        0 <= i,
    ensures
        i <= digit_run_end(s, i),
        i <= s.len() ==> digit_run_end(s, i) <= s.len(),
        i > s.len() ==> digit_run_end(s, i) == i,
        forall|t: int| i <= t < digit_run_end(s, i) ==> is_dec_digit(#[trigger] s[t]),
    decreases s.len() - i,
{
    if i < s.len() && is_dec_digit(s[i]) {
        lemma_digit_run_bounds(s, i + 1);
    }
}

pub proof fn lemma_parse_number_bounds(s: Seq<char>, i: int)
    ensures
        parse_number(s, i) matches Some((v, j)) ==> i < j <= s.len(),
{
    if 0 <= i {
        lemma_digit_run_bounds(s, i);
        if i > s.len() {
        }
    }
}

pub proof fn lemma_parse_colon_bounds(s: Seq<char>, i: int)
    requires
        0 <= i,
    ensures
        parse_colon(s, i) matches Some(j) ==> i < j <= s.len(),
{
    lemma_skip_ws_bounds(s, i);
    let j0 = skip_ws(s, i);
    if j0 < s.len() && s[j0] == ':' {
        lemma_skip_ws_bounds(s, j0 + 1);
    }
}

pub proof fn lemma_parse_field_sep_bounds(s: Seq<char>, i: int)
    requires
        0 <= i,
    ensures
        parse_field_sep(s, i) matches Some(j) ==> i < j <= s.len(),
{
    lemma_skip_ws_bounds(s, i);
    let j0 = skip_ws(s, i);
    if j0 < s.len() && s[j0] == ',' {
        lemma_skip_ws_bounds(s, j0 + 1);
    }
}

pub proof fn lemma_parse_email_value_bounds(s: Seq<char>, i: int)
    ensures
        parse_email_value(s, i) matches Some((em, j)) ==> i < j <= s.len(),
{
    if match_lit(s, i, null_lit()) {
    } else if 0 <= i < s.len() && s[i] == '"' {
        lemma_parse_str_body_bounds(s, i + 1);
    }
}

pub proof fn lemma_parse_person_bounds(s: Seq<char>, i: int)
    ensures
        parse_person(s, i) matches Some((p, m)) ==> i < m <= s.len(),
{
    if 0 <= i < s.len() && s[i] == '{' {
        lemma_skip_ws_bounds(s, i + 1);
        let i1 = skip_ws(s, i + 1);
        if match_lit(s, i1, name_key()) {
            lemma_parse_colon_bounds(s, i1 + 6);
            if let Some(i2) = parse_colon(s, i1 + 6) {
                if 0 <= i2 < s.len() && s[i2] == '"' {
                    lemma_parse_str_body_bounds(s, i2 + 1);
                }
                if let Some((nm, i3)) = parse_string(s, i2) {
                    lemma_parse_field_sep_bounds(s, i3);
                    if let Some(i4) = parse_field_sep(s, i3) {
                        if match_lit(s, i4, age_key()) {
                            lemma_parse_colon_bounds(s, i4 + 5);
                            if let Some(i5) = parse_colon(s, i4 + 5) {
                                lemma_parse_number_bounds(s, i5);
                                if let Some((v, i6)) = parse_number(s, i5) {
                                    lemma_parse_field_sep_bounds(s, i6);
                                    if let Some(i7) = parse_field_sep(s, i6) {
                                        if match_lit(s, i7, email_key()) {
                                            lemma_parse_colon_bounds(s, i7 + 7);
                                            if let Some(i8) = parse_colon(s, i7 + 7) {
                                                lemma_parse_email_value_bounds(s, i8);
                                                if let Some((em, i9)) = parse_email_value(s, i8) {
                                                    lemma_skip_ws_bounds(s, i9);
                                                }
                                            }
                                        }
                                    }
                                }
                            }
                        }
                    }
                }
            }
        }
    }
}

// ---------------------------------------------------------------------------
// The writer. It builds exactly the encoded form of its argument.
// ---------------------------------------------------------------------------

/// Writing one further character extends the written form by that
/// character's own encoding.
pub proof fn lemma_enc_chars_push(t: Seq<char>, c: char)
    ensures
        enc_chars(t.push(c)) == enc_chars(t) + enc_char(c),
    decreases t.len(),
{
    if t.len() == 0 {
        assert(t.push(c)[0] == c);
        assert(t.push(c).skip(1) =~= Seq::<char>::empty());
        assert(enc_chars(Seq::<char>::empty()) == Seq::<char>::empty());
        assert(enc_chars(t.push(c)) == enc_char(c) + enc_chars(t.push(c).skip(1)));
        assert(enc_char(c) + Seq::<char>::empty() =~= enc_char(c));
        assert(enc_chars(t) + enc_char(c) =~= enc_char(c));
    } else {
        lemma_enc_chars_push(t.skip(1), c);
        assert(t.push(c)[0] == t[0]);
        assert(t.push(c).skip(1) =~= t.skip(1).push(c));
        assert(enc_char(t[0]) + (enc_chars(t.skip(1)) + enc_char(c)) =~= (enc_char(t[0])
            + enc_chars(t.skip(1))) + enc_char(c));
    }
}

fn hex_char_x(d: u32) -> (r: char)
    requires
        d < 16,
    ensures
        r == hex_digit(d as nat),
{
    match d {
        0 => '0',
        1 => '1',
        2 => '2',
        3 => '3',
        4 => '4',
        5 => '5',
        6 => '6',
        7 => '7',
        8 => '8',
        9 => '9',
        10 => 'a',
        11 => 'b',
        12 => 'c',
        13 => 'd',
        14 => 'e',
        _ => 'f',
    }
}

/// Appends the quoted, escaped form of `s` to `out`.
fn append_escaped(out: &mut String, s: &str)
    ensures
        final(out)@ == old(out)@ + enc_string(s@),
{
    push_char(out, '"');
    let n = s.unicode_len();
    let mut i: usize = 0;
    proof {
        assert(s@.subrange(0, 0) =~= Seq::<char>::empty());
        assert(old(out)@.push('"') =~= old(out)@ + seq!['"'] + enc_chars(s@.subrange(0, 0)));
    }
    while i < n
        invariant
            n == s@.len(),
            i <= n,
            out@ == old(out)@ + seq!['"'] + enc_chars(s@.subrange(0, i as int)),
        decreases n - i,
    {
        let c = s.get_char(i);
        let ghost pre = out@;
        if c == '"' {
            out.append("\\\"");
            proof {
                reveal_strlit("\\\"");
                assert("\\\""@ =~= enc_char(c));
            }
        } else if c == '\\' {
            out.append("\\\\");
            proof {
                reveal_strlit("\\\\");
                assert("\\\\"@ =~= enc_char(c));
            }
        } else if (c as u32) < 32 {
            let v = c as u32;
            out.append("\\u00");
            push_char(out, hex_char_x(v / 16));
            push_char(out, hex_char_x(v % 16));
            proof {
                reveal_strlit("\\u00");
                assert(pre + "\\u00"@ + seq![hex_digit((v / 16) as nat)] + seq![hex_digit(
                    (v % 16) as nat,
                )] =~= pre + enc_char(c));
            }
        } else {
            push_char(out, c);
            proof {
                assert(pre.push(c) =~= pre + enc_char(c));
            }
        }
        proof {
            lemma_enc_chars_push(s@.subrange(0, i as int), c);
            assert(s@.subrange(0, i as int).push(c) =~= s@.subrange(0, i + 1));
            assert(out@ =~= old(out)@ + seq!['"'] + enc_chars(s@.subrange(0, i + 1)));
        }
        i = i + 1;
    }
    push_char(out, '"');
    proof {
        assert(s@.subrange(0, n as int) =~= s@);
        assert((old(out)@ + seq!['"'] + enc_chars(s@)).push('"') =~= old(out)@ + enc_string(s@));
    }
}

/// Appends the object form of one person to `out`.
fn append_person(out: &mut String, p: &Person)
    ensures
        final(out)@ == old(out)@ + enc_person(p@),
{
    push_char(out, '{');
    out.append("\"name\"");
    push_char(out, ':');
    append_escaped(out, p.name.as_str());
    push_char(out, ',');
    out.append("\"age\"");
    push_char(out, ':');
    append_dec(out, p.age);
    push_char(out, ',');
    out.append("\"email\"");
    push_char(out, ':');
    match &p.email {
        Some(e) => append_escaped(out, e.as_str()),
        None => out.append("null"),
    }
    push_char(out, '}');
    proof {
        reveal_strlit("\"name\"");
        reveal_strlit("\"age\"");
        reveal_strlit("\"email\"");
        reveal_strlit("null");
        assert("\"name\""@ =~= name_key());
        assert("\"age\""@ =~= age_key());
        assert("\"email\""@ =~= email_key());
        assert("null"@ =~= null_lit());
        assert(out@ =~= old(out)@ + enc_person(p@));
    }
}

/// Converts people to a JSON string: a compact document in the format
/// above. Encoding always succeeds.
pub fn people_to_json(people: &[Person]) -> (r: Result<String, SerializationError>)
    ensures
        r is Ok,
        r matches Ok(t) ==> t@ == enc_people(people.deep_view()),
{
    let ghost ps = people.deep_view();
    let mut out = String::new();
    push_char(&mut out, '[');
    let len = people.len();
    if len == 0 {
        push_char(&mut out, ']');
        proof {
            assert(out@ =~= enc_people(ps));
        }
        return Ok(out);
    }
    append_person(&mut out, &people[0]);
    proof {
        assert(ps[0] == people@[0]@);
        assert(out@ =~= seq!['['] + enc_person(ps[0]));
    }
    let mut i: usize = 1;
    while i < len
        invariant
            len == people@.len(),
            ps == people.deep_view(),
            1 <= i <= len,
            enc_people(ps) == out@ + enc_more(ps.skip(i as int)),
        decreases len - i,
    {
        let ghost pre = out@;
        push_char(&mut out, ',');
        append_person(&mut out, &people[i]);
        proof {
            assert(ps.skip(i as int)[0] == people@[i as int]@);
            assert(ps.skip(i as int).skip(1) =~= ps.skip(i + 1));
            assert(out@ =~= pre + (seq![','] + enc_person(ps.skip(i as int)[0])));
            assert(pre + (seq![','] + enc_person(ps.skip(i as int)[0])) + enc_more(ps.skip(i + 1))
                =~= pre + enc_more(ps.skip(i as int)));
        }
        i = i + 1;
    }
    push_char(&mut out, ']');
    proof {
        assert(ps.skip(len as int) =~= Seq::<PersonV>::empty());
        assert(enc_more(Seq::<PersonV>::empty()) =~= seq![']']);
        assert(out@ =~= enc_people(ps));
    }
    Ok(out)
}

// ---------------------------------------------------------------------------
// The reader. Each function mirrors its spec counterpart and is proved to
// return exactly its result.
// ---------------------------------------------------------------------------

/// Prepends an already-read prefix to the result of parsing the rest.
pub open spec fn cons_prefix(pre: Seq<char>, r: Option<(Seq<char>, int)>) -> Option<
    (Seq<char>, int),
> {
    match r {
        Some((t, j)) => Some((pre + t, j)),
        None => None,
    }
}

fn is_ws_at(s: &str, n: usize, i: usize) -> (r: bool)
    requires
        n == s@.len(),
        i < n,
    ensures
        r == is_ws(s@[i as int]),
{
    let c = s.get_char(i);
    c == ' ' || c == '\t' || c == '\n' || c == '\r'
}

fn skip_ws_x(s: &str, n: usize, i: usize) -> (j: usize)
    requires
        n == s@.len(),
        i <= n,
    ensures
        j as int == skip_ws(s@, i as int),
        i <= j <= n,
{
    let mut j = i;
    while j < n && is_ws_at(s, n, j)
        invariant
            n == s@.len(),
            i <= j <= n,
            skip_ws(s@, i as int) == skip_ws(s@, j as int),
        decreases n - j,
    {
        j = j + 1;
    }
    j
}

fn match_lit_x(s: &str, n: usize, i: usize, lit: &str, m: usize) -> (r: bool)
    requires
        n == s@.len(),
        m == lit@.len(),
        i <= n,
    ensures
        r == match_lit(s@, i as int, lit@),
{
    if m > n - i {
        return false;
    }
    let mut j: usize = 0;
    while j < m
        invariant
            n == s@.len(),
            m == lit@.len(),
            i + m <= n,
            j <= m,
            forall|k: int| 0 <= k < j ==> s@[i + k] == lit@[k],
        decreases m - j,
    {
        if s.get_char(i + j) != lit.get_char(j) {
            proof {
                assert(s@.subrange(i as int, i + m) != lit@) by {
                    assert(s@.subrange(i as int, i + m)[j as int] == s@[i + j]);
                }
            }
            return false;
        }
        j = j + 1;
    }
    proof {
        assert(s@.subrange(i as int, i + m) =~= lit@);
    }
    true
}

fn hex_val_x(c: char) -> (r: Option<u32>)
    ensures
        is_hex_digit(c) ==> r == Some(hex_val(c) as u32),
        !is_hex_digit(c) ==> r is None,
{
    match c {
        '0' => Some(0),
        '1' => Some(1),
        '2' => Some(2),
        '3' => Some(3),
        '4' => Some(4),
        '5' => Some(5),
        '6' => Some(6),
        '7' => Some(7),
        '8' => Some(8),
        '9' => Some(9),
        'a' => Some(10),
        'b' => Some(11),
        'c' => Some(12),
        'd' => Some(13),
        'e' => Some(14),
        'f' => Some(15),
        'A' => Some(10),
        'B' => Some(11),
        'C' => Some(12),
        'D' => Some(13),
        'E' => Some(14),
        'F' => Some(15),
        _ => None,
    }
}

fn digit_of(c: char) -> (r: u32)
    requires
        is_dec_digit(c),
    ensures
        r == digit_val(c),
{
    match c {
        '0' => 0,
        '1' => 1,
        '2' => 2,
        '3' => 3,
        '4' => 4,
        '5' => 5,
        '6' => 6,
        '7' => 7,
        '8' => 8,
        _ => 9,
    }
}

fn parse_string_x(s: &str, n: usize, i: usize) -> (r: Option<(String, usize)>)
    requires
        n == s@.len(),
        i <= n,
    ensures
        match parse_string(s@, i as int) {
            Some((t, j)) => r matches Some((rs, rj)) && rs@ == t && rj as int == j && i < rj <= n,
            None => r is None,
        },
{
    proof {
        if 0 <= i < n {
            lemma_parse_str_body_bounds(s@, i + 1);
        }
    }
    if i == n {
        return None;
    }
    if s.get_char(i) != '"' {
        return None;
    }
    let mut acc = String::new();
    let mut cur: usize = i + 1;
    proof {
        if let Some((t, j)) = parse_str_body(s@, cur as int) {
            assert(Seq::<char>::empty() + t =~= t);
        }
    }
    loop
        invariant
            n == s@.len(),
            i < n,
            s@[i as int] == '"',
            i + 1 <= cur <= n,
            parse_str_body(s@, i + 1) == cons_prefix(acc@, parse_str_body(s@, cur as int)),
        decreases n - cur,
    {
        if cur == n {
            return None;
        }
        let c = s.get_char(cur);
        if c == '"' {
            proof {
                assert(acc@ + Seq::<char>::empty() =~= acc@);
            }
            return Some((acc, cur + 1));
        }
        if c == '\\' {
            if n - cur < 2 {
                return None;
            }
            let e = s.get_char(cur + 1);
            let dec: char;
            let width: usize;
            if e == '"' {
                dec = '"';
                width = 2;
            } else if e == '\\' {
                dec = '\\';
                width = 2;
            } else if e == '/' {
                dec = '/';
                width = 2;
            } else if e == 'b' {
                dec = '\u{8}';
                width = 2;
            } else if e == 'f' {
                dec = '\u{c}';
                width = 2;
            } else if e == 'n' {
                dec = '\n';
                width = 2;
            } else if e == 'r' {
                dec = '\r';
                width = 2;
            } else if e == 't' {
                dec = '\t';
                width = 2;
            } else if e == 'u' {
                if n - cur < 6 {
                    return None;
                }
                let h1 = match hex_val_x(s.get_char(cur + 2)) {
                    Some(v) => v,
                    None => { return None; },
                };
                let h2 = match hex_val_x(s.get_char(cur + 3)) {
                    Some(v) => v,
                    None => { return None; },
                };
                let h3 = match hex_val_x(s.get_char(cur + 4)) {
                    Some(v) => v,
                    None => { return None; },
                };
                let h4 = match hex_val_x(s.get_char(cur + 5)) {
                    Some(v) => v,
                    None => { return None; },
                };
                let v = h1 * 4096 + h2 * 256 + h3 * 16 + h4;
                if v >= 128 {
                    return None;
                }
                dec = (v as u8) as char;
                width = 6;
            } else {
                return None;
            }
            let ghost prev = acc@;
            push_char(&mut acc, dec);
            proof {
                assert(acc@ =~= prev.push(dec));
                if let Some((t, j)) = parse_str_body(s@, cur + width) {
                    assert(prev + (seq![dec] + t) =~= acc@ + t);
                }
            }
            cur = cur + width;
        } else if (c as u32) < 32 {
            return None;
        } else {
            let ghost prev = acc@;
            push_char(&mut acc, c);
            proof {
                assert(acc@ =~= prev.push(c));
                if let Some((t, j)) = parse_str_body(s@, cur + 1) {
                    assert(prev + (seq![c] + t) =~= acc@ + t);
                }
            }
            cur = cur + 1;
        }
    }
}

fn parse_number_x(s: &str, n: usize, i: usize) -> (r: Option<(u32, usize)>)
    requires
        n == s@.len(),
        i <= n,
    ensures
        match parse_number(s@, i as int) {
            Some((v, j)) => {
                if v <= u32::MAX {
                    r matches Some((rv, rj)) && rv == v && rj as int == j && i < rj <= n
                } else {
                    r is None
                }
            },
            None => r is None,
        },
{
    proof {
        lemma_digit_run_bounds(s@, i as int);
    }
    let mut j: usize = i;
    while j < n && is_dec_digit_at(s, n, j)
        invariant
            n == s@.len(),
            i <= j <= n,
            digit_run_end(s@, i as int) == digit_run_end(s@, j as int),
        decreases n - j,
    {
        j = j + 1;
    }
    if j == i {
        return None;
    }
    if s.get_char(i) == '0' && j > i + 1 {
        return None;
    }
    let ghost run = s@.subrange(i as int, j as int);
    let mut k: usize = i;
    let mut acc: u64 = 0;
    proof {
        assert(s@.subrange(i as int, i as int) =~= Seq::<char>::empty());
    }
    while k < j
        invariant
            n == s@.len(),
            i <= k <= j <= n,
            j as int == digit_run_end(s@, i as int),
            forall|t: int| i <= t < j ==> is_dec_digit(#[trigger] s@[t]),
            acc == dec_val(s@.subrange(i as int, k as int)),
            acc <= u32::MAX,
        decreases j - k,
    {
        let c = s.get_char(k);
        let d = digit_of(c);
        let next: u64 = acc * 10 + (d as u64);
        proof {
            assert(s@.subrange(i as int, k + 1).drop_last() =~= s@.subrange(i as int, k as int));
            assert(s@.subrange(i as int, k + 1).last() == s@[k as int]);
            assert(next == dec_val(s@.subrange(i as int, k + 1)));
        }
        if next > 0xFFFF_FFFFu64 {
            proof {
                lemma_dec_val_extend(s@.subrange(i as int, k + 1), s@.subrange(k + 1, j as int));
                assert(s@.subrange(i as int, k + 1) + s@.subrange(k + 1, j as int) =~= s@.subrange(
                    i as int,
                    j as int,
                ));
            }
            return None;
        }
        acc = next;
        k = k + 1;
    }
    Some((acc as u32, j))
}

fn is_dec_digit_at(s: &str, n: usize, i: usize) -> (r: bool)
    requires
        n == s@.len(),
        i < n,
    ensures
        r == is_dec_digit(s@[i as int]),
{
    let c = s.get_char(i);
    c == '0' || c == '1' || c == '2' || c == '3' || c == '4' || c == '5' || c == '6' || c == '7'
        || c == '8' || c == '9'
}

fn parse_person_x(s: &str, n: usize, i: usize) -> (r: Option<(Person, usize)>)
    requires
        n == s@.len(),
        i <= n,
    ensures
        match parse_person(s@, i as int) {
            Some((pv, m)) => r matches Some((p, rm)) && p@ == pv && rm as int == m && i < rm <= n,
            None => r is None,
        },
{
    proof {
        reveal_strlit("\"name\"");
        reveal_strlit("\"age\"");
        reveal_strlit("\"email\"");
        reveal_strlit("null");
        assert("\"name\""@ =~= name_key());
        assert("\"age\""@ =~= age_key());
        assert("\"email\""@ =~= email_key());
        assert("null"@ =~= null_lit());
    }
    if i == n {
        return None;
    }
    if s.get_char(i) != '{' {
        return None;
    }
    let i1 = skip_ws_x(s, n, i + 1);
    if !match_lit_x(s, n, i1, "\"name\"", 6) {
        return None;
    }
    let j1 = skip_ws_x(s, n, i1 + 6);
    if j1 == n {
        return None;
    }
    if s.get_char(j1) != ':' {
        return None;
    }
    let i2 = skip_ws_x(s, n, j1 + 1);
    let (nm, i3) = match parse_string_x(s, n, i2) {
        Some(p) => p,
        None => { return None; },
    };
    let j3 = skip_ws_x(s, n, i3);
    if j3 == n {
        return None;
    }
    if s.get_char(j3) != ',' {
        return None;
    }
    let i4 = skip_ws_x(s, n, j3 + 1);
    if !match_lit_x(s, n, i4, "\"age\"", 5) {
        return None;
    }
    let j4 = skip_ws_x(s, n, i4 + 5);
    if j4 == n {
        return None;
    }
    if s.get_char(j4) != ':' {
        return None;
    }
    let i5 = skip_ws_x(s, n, j4 + 1);
    let (age, i6) = match parse_number_x(s, n, i5) {
        Some(p) => p,
        None => { return None; },
    };
    let j6 = skip_ws_x(s, n, i6);
    if j6 == n {
        return None;
    }
    if s.get_char(j6) != ',' {
        return None;
    }
    let i7 = skip_ws_x(s, n, j6 + 1);
    if !match_lit_x(s, n, i7, "\"email\"", 7) {
        return None;
    }
    let j7 = skip_ws_x(s, n, i7 + 7);
    if j7 == n {
        return None;
    }
    if s.get_char(j7) != ':' {
        return None;
    }
    let i8 = skip_ws_x(s, n, j7 + 1);
    let email: Option<String>;
    let i9: usize;
    if match_lit_x(s, n, i8, "null", 4) {
        email = None;
        i9 = i8 + 4;
    } else {
        match parse_string_x(s, n, i8) {
            Some((e, j)) => {
                email = Some(e);
                i9 = j;
            },
            None => { return None; },
        }
    }
    let i10 = skip_ws_x(s, n, i9);
    if i10 == n {
        return None;
    }
    if s.get_char(i10) != '}' {
        return None;
    }
    Some((Person { name: nm, age, email }, i10 + 1))
}

/// Relates the persons already read to what the rest of the array must
/// still hold for the whole document to conform.
pub open spec fn doc_tail(s: Seq<char>, acc: Seq<PersonV>, cur: int) -> Option<Seq<PersonV>> {
    match parse_more(s, cur) {
        Some((ps, e)) => if skip_ws(s, e) == s.len() {
            Some(acc + ps)
        } else {
            None
        },
        None => None,
    }
}

fn decode_error() -> SerializationError {
    SerializationError { message: String::from_str("the text is not a conforming person document") }
}

/// Parses people from a JSON string. The result is exactly what the
/// grammar gives: the person sequence of a conforming document, or an
/// error for any other text.
pub fn people_from_json(json: &str) -> (r: Result<Vec<Person>, SerializationError>)
    ensures
        match parse_doc(json@) {
            Some(ps) => r matches Ok(v) && v.deep_view() == ps,
            None => r is Err,
        },
{
    let n = json.unicode_len();
    let i = skip_ws_x(json, n, 0);
    if i == n {
        return Err(decode_error());
    }
    if json.get_char(i) != '[' {
        return Err(decode_error());
    }
    let j = skip_ws_x(json, n, i + 1);
    if j < n && is_close_bracket_at(json, n, j) {
        let k = skip_ws_x(json, n, j + 1);
        if k == n {
            let out: Vec<Person> = Vec::new();
            proof {
                assert(out.deep_view() =~= Seq::<PersonV>::empty());
            }
            return Ok(out);
        } else {
            return Err(decode_error());
        }
    }
    let (p0, m0) = match parse_person_x(json, n, j) {
        Some(p) => p,
        None => { return Err(decode_error()); },
    };
    let mut out: Vec<Person> = Vec::new();
    out.push(p0);
    let mut cur: usize = m0;
    proof {
        if let Some((ps, e)) = parse_more(json@, cur as int) {
            if skip_ws(json@, e) == n {
                assert(out.deep_view() =~= seq![p0@]);
                assert(seq![p0@] + ps =~= out.deep_view() + ps);
            }
        }
    }
    loop
        invariant
            n == json@.len(),
            cur <= n,
            out.len() >= 1,
            parse_doc(json@) == doc_tail(json@, out.deep_view(), cur as int),
        decreases n - cur,
    {
        let j2 = skip_ws_x(json, n, cur);
        if j2 == n {
            return Err(decode_error());
        }
        if is_close_bracket_at(json, n, j2) {
            let k = skip_ws_x(json, n, j2 + 1);
            if k == n {
                proof {
                    assert(out.deep_view() + Seq::<PersonV>::empty() =~= out.deep_view());
                }
                return Ok(out);
            } else {
                return Err(decode_error());
            }
        }
        if json.get_char(j2) != ',' {
            return Err(decode_error());
        }
        let k2 = skip_ws_x(json, n, j2 + 1);
        let (p, m2) = match parse_person_x(json, n, k2) {
            Some(p) => p,
            None => { return Err(decode_error()); },
        };
        let ghost prev = out.deep_view();
        out.push(p);
        proof {
            assert(out.deep_view() =~= prev.push(p@));
            if let Some((ps2, e2)) = parse_more(json@, m2 as int) {
                if skip_ws(json@, e2) == n {
                    assert(prev + (seq![p@] + ps2) =~= out.deep_view() + ps2);
                }
            }
        }
        cur = m2;
    }
}

// ---------------------------------------------------------------------------
// The round trip: reading back what the writer produced gives the original
// value. Each lemma walks one layer of the grammar along the encoded text.
// ---------------------------------------------------------------------------

proof fn lemma_hex_digit_props(d: nat)
    requires
        d < 16,
    ensures
        is_hex_digit(hex_digit(d)),
        hex_val(hex_digit(d)) == d,
{
}

/// The string-body parser reads the encoded form of `t` followed by a
/// closing quote back to exactly `t`.
proof fn lemma_parse_str_body_enc(s: Seq<char>, i: int, t: Seq<char>)
    requires
        0 <= i,
        i + enc_chars(t).len() + 1 <= s.len(),
        s.subrange(i, i + enc_chars(t).len() + 1) == enc_chars(t) + seq!['"'],
    ensures
        parse_str_body(s, i) == Some((t, i + enc_chars(t).len() + 1)),
    decreases t.len(),
{
    let e = enc_chars(t) + seq!['"'];
    let ll = e.len() as int;
    assert forall|m: int| i <= m < i + ll implies s[m] == e[m - i] by {
        assert(s.subrange(i, i + ll)[m - i] == s[m]);
    }
    if t.len() == 0 {
        assert(enc_chars(t) == Seq::<char>::empty());
        assert(s[i] == '"');
        assert(parse_str_body(s, i) == Some((Seq::<char>::empty(), i + 1)));
        assert(t =~= Seq::<char>::empty());
    } else {
        let c = t[0];
        let rest = t.skip(1);
        let l0 = enc_char(c).len() as int;
        assert(enc_chars(t) == enc_char(c) + enc_chars(rest));
        assert forall|m: int| i <= m < i + l0 implies s[m] == enc_char(c)[m - i] by {
            assert(e[m - i] == (enc_char(c) + enc_chars(rest))[m - i]);
        }
        assert(s.subrange(i + l0, i + ll) =~= enc_chars(rest) + seq!['"']) by {
            assert forall|m: int| 0 <= m < ll - l0 implies s.subrange(i + l0, i + ll)[m]
                == (enc_chars(rest) + seq!['"'])[m] by {
                assert(s[i + l0 + m] == e[(i + l0 + m) - i]);
                assert(e[l0 + m] == (enc_chars(rest) + seq!['"'])[m]);
            }
        }
        lemma_parse_str_body_enc(s, i + l0, rest);
        let after = i + ll;
        assert(parse_str_body(s, i + l0) == Some((rest, after)));
        if c == '"' {
            assert(s[i] == '\\' && s[i + 1] == '"');
            assert(parse_str_body(s, i) == cons_char('"', parse_str_body(s, i + 2)));
            assert(seq![c] + rest =~= t);
        } else if c == '\\' {
            assert(s[i] == '\\' && s[i + 1] == '\\');
            assert(parse_str_body(s, i) == cons_char('\\', parse_str_body(s, i + 2)));
            assert(seq![c] + rest =~= t);
        } else if (c as u32) < 32 {
            let v = c as u32;
            assert(s[i] == '\\' && s[i + 1] == 'u' && s[i + 2] == '0' && s[i + 3] == '0');
            assert(s[i + 4] == hex_digit((v / 16) as nat));
            assert(s[i + 5] == hex_digit((v % 16) as nat));
            assert(0 <= v % 16 < 16 && v / 16 < 16) by {
                vstd::arithmetic::div_mod::lemma_mod_bound(v as int, 16);
                vstd::arithmetic::div_mod::lemma_div_is_ordered(v as int, 31, 16);
                assert(31int / 16 == 1);
            }
            lemma_hex_digit_props((v / 16) as nat);
            lemma_hex_digit_props((v % 16) as nat);
            assert(i + 5 < s.len());
            let got = hex_val(s[i + 2]) * 4096 + hex_val(s[i + 3]) * 256 + hex_val(s[i + 4]) * 16
                + hex_val(s[i + 5]);
            assert(got == (v / 16) * 16 + (v % 16));
            assert(got == v) by {
                vstd::arithmetic::div_mod::lemma_fundamental_div_mod(v as int, 16);
            }
            assert((got as u32) as char == c) by {
                vstd::utf8::char_u32_cast(c, v);
            }
            assert(parse_str_body(s, i) == cons_char(c, parse_str_body(s, i + 6)));
            assert(seq![c] + rest =~= t);
        } else {
            assert(s[i] == c);
            assert(parse_str_body(s, i) == cons_char(c, parse_str_body(s, i + 1)));
            assert(seq![c] + rest =~= t);
        }
    }
}

/// The string parser reads an encoded string value back exactly.
proof fn lemma_parse_string_enc(s: Seq<char>, i: int, t: Seq<char>)
    requires
        0 <= i,
        i + enc_string(t).len() <= s.len(),
        s.subrange(i, i + enc_string(t).len()) == enc_string(t),
    ensures
        parse_string(s, i) == Some((t, i + enc_string(t).len())),
{
    let e = enc_string(t);
    let ll = e.len() as int;
    assert forall|m: int| i <= m < i + ll implies s[m] == e[m - i] by {
        assert(s.subrange(i, i + ll)[m - i] == s[m]);
    }
    assert(s[i] == e[0]);
    assert(s[i] == '"');
    assert(s.subrange(i + 1, i + ll) =~= enc_chars(t) + seq!['"']) by {
        assert forall|m: int| 0 <= m < ll - 1 implies s.subrange(i + 1, i + ll)[m] == (enc_chars(t)
            + seq!['"'])[m] by {
            assert(s[i + 1 + m] == e[(i + 1 + m) - i]);
            if m < ll - 2 {
                assert(e[1 + m] == (seq!['"'] + enc_chars(t))[1 + m]);
                assert(e[1 + m] == enc_chars(t)[m]);
            } else {
                assert(e[1 + m] == '"');
            }
        }
    }
    lemma_parse_str_body_enc(s, i + 1, t);
}

/// A digit run ends exactly where the digits end.
proof fn lemma_digit_run_exact(s: Seq<char>, i: int, j: int)
    requires
        0 <= i <= j <= s.len(),
        forall|t: int| i <= t < j ==> is_dec_digit(#[trigger] s[t]),
        j == s.len() || !is_dec_digit(s[j]),
    ensures
        digit_run_end(s, i) == j,
    decreases j - i,
{
    if i < j {
        lemma_digit_run_exact(s, i + 1, j);
    }
}

/// The number parser reads an encoded age back exactly when a non-digit
/// follows it.
proof fn lemma_parse_number_enc(s: Seq<char>, i: int, a: u32)
    requires
        0 <= i,
        i + dec_digits(a as nat).len() < s.len(),
        s.subrange(i, i + dec_digits(a as nat).len()) == dec_digits(a as nat),
        !is_dec_digit(s[i + dec_digits(a as nat).len()]),
    ensures
        parse_number(s, i) == Some((a as nat, i + dec_digits(a as nat).len())),
{
    let e = dec_digits(a as nat);
    let d = e.len() as int;
    crate::decimal::lemma_dec_digits_are_digits(a as nat);
    crate::decimal::lemma_dec_digits_value(a as nat);
    crate::decimal::lemma_dec_digits_leading(a as nat);
    assert forall|m: int| i <= m < i + d implies s[m] == e[m - i] by {
        assert(s.subrange(i, i + d)[m - i] == s[m]);
    }
    lemma_digit_run_exact(s, i, i + d);
    assert(digit_run_end(s, i) == i + d);
    if s[i] == '0' {
        assert(e[0] == '0');
        assert(a == 0);
        assert(d == 1);
    }
    assert(s.subrange(i, i + d) == e);
    assert(dec_val(s.subrange(i, i + d)) == a as nat);
}

/// The person parser reads an encoded person object back exactly.
#[verifier::rlimit(100)]
proof fn lemma_parse_person_enc(s: Seq<char>, i: int, p: PersonV)
    requires
        0 <= i,
        i + enc_person(p).len() <= s.len(),
        s.subrange(i, i + enc_person(p).len()) == enc_person(p),
    ensures
        parse_person(s, i) == Some((p, i + enc_person(p).len())),
{
    let e = enc_person(p);
    let ll = e.len() as int;
    let sn = enc_string(p.name).len() as int;
    let dn = dec_digits(p.age as nat).len() as int;
    let en = enc_email(p.email).len() as int;
    assert(ll == 25 + sn + dn + en);
    assert forall|m: int| i <= m < i + ll implies s[m] == e[m - i] by {
        assert(s.subrange(i, i + ll)[m - i] == s[m]);
    }
    assert(s[i] == '{' && s[i + 7] == ':' && s[i + 8] == '"');
    assert(s.subrange(i + 1, i + 7) =~= name_key()) by {
        assert forall|m: int| 0 <= m < 6 implies s.subrange(i + 1, i + 7)[m] == name_key()[m] by {
            assert(s[i + 1 + m] == e[(i + 1 + m) - i]);
        }
    }
    assert(s.subrange(i + 8, i + 8 + sn) =~= enc_string(p.name)) by {
        assert forall|m: int| 0 <= m < sn implies s.subrange(i + 8, i + 8 + sn)[m] == enc_string(
            p.name,
        )[m] by {
            assert(s[i + 8 + m] == e[(i + 8 + m) - i]);
        }
    }
    assert(s[i + 8 + sn] == ',' && s[i + 9 + sn] == '"');
    assert(s.subrange(i + 9 + sn, i + 14 + sn) =~= age_key()) by {
        assert forall|m: int| 0 <= m < 5 implies s.subrange(i + 9 + sn, i + 14 + sn)[m]
            == age_key()[m] by {
            assert(s[i + 9 + sn + m] == e[(i + 9 + sn + m) - i]);
        }
    }
    assert(s[i + 14 + sn] == ':');
    assert(s.subrange(i + 15 + sn, i + 15 + sn + dn) =~= dec_digits(p.age as nat)) by {
        assert forall|m: int| 0 <= m < dn implies s.subrange(i + 15 + sn, i + 15 + sn + dn)[m]
            == dec_digits(p.age as nat)[m] by {
            assert(s[i + 15 + sn + m] == e[(i + 15 + sn + m) - i]);
        }
    }
    assert(s[i + 15 + sn + dn] == ',' && s[i + 16 + sn + dn] == '"');
    assert(s.subrange(i + 16 + sn + dn, i + 23 + sn + dn) =~= email_key()) by {
        assert forall|m: int| 0 <= m < 7 implies s.subrange(i + 16 + sn + dn, i + 23 + sn + dn)[m]
            == email_key()[m] by {
            assert(s[i + 16 + sn + dn + m] == e[(i + 16 + sn + dn + m) - i]);
        }
    }
    assert(s[i + 23 + sn + dn] == ':');
    let ev = i + 24 + sn + dn;
    assert(s.subrange(ev, ev + en) =~= enc_email(p.email)) by {
        assert forall|m: int| 0 <= m < en implies s.subrange(ev, ev + en)[m] == enc_email(
            p.email,
        )[m] by {
            assert(s[ev + m] == e[(ev + m) - i]);
        }
    }
    assert(s[ev + en] == '}');
    // walk the parser along those characters
    crate::decimal::lemma_dec_digits_are_digits(p.age as nat);
    assert(skip_ws(s, i + 1) == i + 1);
    assert(match_lit(s, i + 1, name_key()));
    assert(skip_ws(s, i + 7) == i + 7);
    assert(skip_ws(s, i + 8) == i + 8);
    assert(parse_colon(s, i + 7) == Some(i + 8));
    lemma_parse_string_enc(s, i + 8, p.name);
    assert(parse_string(s, i + 8) == Some((p.name, i + 8 + sn)));
    assert(skip_ws(s, i + 8 + sn) == i + 8 + sn);
    assert(skip_ws(s, i + 9 + sn) == i + 9 + sn);
    assert(parse_field_sep(s, i + 8 + sn) == Some(i + 9 + sn));
    assert(match_lit(s, i + 9 + sn, age_key()));
    assert(skip_ws(s, i + 14 + sn) == i + 14 + sn);
    assert(is_dec_digit(s[i + 15 + sn]) && !is_ws(s[i + 15 + sn]));
    assert(skip_ws(s, i + 15 + sn) == i + 15 + sn);
    assert(parse_colon(s, i + 14 + sn) == Some(i + 15 + sn));
    assert(!is_dec_digit(s[i + 15 + sn + dn]));
    lemma_parse_number_enc(s, i + 15 + sn, p.age);
    assert(parse_number(s, i + 15 + sn) == Some((p.age as nat, i + 15 + sn + dn)));
    assert(skip_ws(s, i + 15 + sn + dn) == i + 15 + sn + dn);
    assert(skip_ws(s, i + 16 + sn + dn) == i + 16 + sn + dn);
    assert(parse_field_sep(s, i + 15 + sn + dn) == Some(i + 16 + sn + dn));
    assert(match_lit(s, i + 16 + sn + dn, email_key()));
    assert(skip_ws(s, i + 23 + sn + dn) == i + 23 + sn + dn);
    match p.email {
        Some(em) => {
            assert(s[ev] == '"');
            assert(skip_ws(s, ev) == ev);
            assert(parse_colon(s, i + 23 + sn + dn) == Some(ev));
            assert(!match_lit(s, ev, null_lit())) by {
                if match_lit(s, ev, null_lit()) {
                    assert(s.subrange(ev, ev + 4)[0] == s[ev]);
                }
            }
            lemma_parse_string_enc(s, ev, em);
            assert(parse_email_value(s, ev) == Some((Some(em), ev + en)));
        },
        None => {
            assert(s[ev] == 'n');
            assert(skip_ws(s, ev) == ev);
            assert(parse_colon(s, i + 23 + sn + dn) == Some(ev));
            assert(en == 4);
            assert(match_lit(s, ev, null_lit()));
            assert(parse_email_value(s, ev) == Some((Option::<Seq<char>>::None, ev + en)));
        },
    }
    assert(skip_ws(s, ev + en) == ev + en);
    assert(s[ev + en] == '}');
    assert(parse_person(s, i) == Some(
        (PersonV { name: p.name, age: p.age, email: p.email }, ev + en + 1),
    ));
    assert(PersonV { name: p.name, age: p.age, email: p.email } =~= p);
}

/// The list parser reads the encoded rest of an array back exactly.
#[verifier::rlimit(100)]
proof fn lemma_parse_more_enc(s: Seq<char>, i: int, ps: Seq<PersonV>)
    requires
        0 <= i,
        i + enc_more(ps).len() <= s.len(),
        s.subrange(i, i + enc_more(ps).len()) == enc_more(ps),
    ensures
        parse_more(s, i) == Some((ps, i + enc_more(ps).len())),
    decreases ps.len(),
{
    let e = enc_more(ps);
    let ll = e.len() as int;
    if ps.len() == 0 {
        assert(s[i] == ']') by {
            assert(s.subrange(i, i + ll)[0] == s[i]);
        }
        assert(skip_ws(s, i) == i);
        assert(parse_more(s, i) == Some((Seq::<PersonV>::empty(), i + 1)));
        assert(ps =~= Seq::<PersonV>::empty());
    } else {
        let ep = enc_person(ps[0]).len() as int;
        assert(s[i] == ',') by {
            assert(s.subrange(i, i + ll)[0] == s[i]);
        }
        assert(s[i + 1] == '{') by {
            assert(s.subrange(i, i + ll)[1] == s[i + 1]);
            assert(e[1] == enc_person(ps[0])[0]);
            assert(enc_person(ps[0])[0] == '{');
        }
        assert(skip_ws(s, i) == i);
        assert(skip_ws(s, i + 1) == i + 1);
        assert(s.subrange(i + 1, i + 1 + ep) =~= enc_person(ps[0])) by {
            assert forall|m: int| 0 <= m < ep implies s.subrange(i + 1, i + 1 + ep)[m]
                == enc_person(ps[0])[m] by {
                assert(s.subrange(i, i + ll)[1 + m] == s[i + 1 + m]);
                assert(e[1 + m] == enc_person(ps[0])[m]);
            }
        }
        lemma_parse_person_enc(s, i + 1, ps[0]);
        assert(parse_person(s, i + 1) == Some((ps[0], i + 1 + ep)));
        assert(s.subrange(i + 1 + ep, i + ll) =~= enc_more(ps.skip(1))) by {
            assert forall|m: int| 0 <= m < ll - 1 - ep implies s.subrange(i + 1 + ep, i + ll)[m]
                == enc_more(ps.skip(1))[m] by {
                assert(s.subrange(i, i + ll)[1 + ep + m] == s[i + 1 + ep + m]);
                assert(e[1 + ep + m] == enc_more(ps.skip(1))[m]);
            }
        }
        lemma_parse_more_enc(s, i + 1 + ep, ps.skip(1));
        assert(parse_more(s, i + 1 + ep) == Some((ps.skip(1), i + ll)));
        assert(seq![ps[0]] + ps.skip(1) =~= ps);
    }
}

/// Splitting a three-piece text back into its pieces.
proof fn lemma_concat3_split(a: Seq<char>, b: Seq<char>, c: Seq<char>)
    ensures
        (a + b + c).subrange(0, a.len() as int) =~= a,
        (a + b + c).subrange(a.len() as int, a.len() as int + b.len() as int) =~= b,
        (a + b + c).subrange(
            a.len() as int + b.len() as int,
            a.len() as int + b.len() as int + c.len() as int,
        ) =~= c,
{
    let s = a + b + c;
    let la = a.len() as int;
    let lb = b.len() as int;
    let lc = c.len() as int;
    assert forall|m: int| 0 <= m < lb implies s.subrange(la, la + lb)[m] == b[m] by {
        assert(s[la + m] == (a + b)[la + m]);
    }
    assert forall|m: int| 0 <= m < lc implies s.subrange(la + lb, la + lb + lc)[m] == c[m] by {
        assert(s[la + lb + m] == c[m]);
    }
}

/// The opening character of an encoded person object.
proof fn lemma_enc_person_first(p: PersonV)
    ensures
        enc_person(p).len() > 0,
        enc_person(p)[0] == '{',
{
}

/// How an encoded non-empty array splits into bracket, first person, and
/// rest.
proof fn lemma_enc_people_layout(ps: Seq<PersonV>)
    requires
        ps.len() > 0,
    ensures
        enc_people(ps).len() == 1 + enc_person(ps[0]).len() + enc_more(ps.skip(1)).len(),
        enc_people(ps)[0] == '[',
        enc_people(ps)[1] == '{',
        enc_people(ps).subrange(1, 1 + enc_person(ps[0]).len() as int) == enc_person(ps[0]),
        enc_people(ps).subrange(
            1 + enc_person(ps[0]).len() as int,
            enc_people(ps).len() as int,
        ) == enc_more(ps.skip(1)),
{
    let s = enc_people(ps);
    let b = enc_person(ps[0]);
    let c = enc_more(ps.skip(1));
    let ep = b.len() as int;
    assert(s == seq!['['] + b + c);
    lemma_concat3_split(seq!['['], b, c);
    lemma_enc_person_first(ps[0]);
    assert(s[1] == '{') by {
        assert(s.subrange(1, 1 + ep)[0] == s[1]);
    }
}

/// The non-empty case of the round trip.
#[verifier::rlimit(100)]
proof fn lemma_json_round_trip_some(ps: Seq<PersonV>)
    requires
        ps.len() > 0,
    ensures
        parse_doc(enc_people(ps)) == Some(ps),
{
    let s = enc_people(ps);
    let ll = s.len() as int;
    let ep = enc_person(ps[0]).len() as int;
    lemma_enc_people_layout(ps);
    assert(skip_ws(s, 0) == 0);
    assert(skip_ws(s, 1) == 1);
    lemma_parse_person_enc(s, 1, ps[0]);
    assert(parse_person(s, 1) == Some((ps[0], 1 + ep)));
    lemma_parse_more_enc(s, 1 + ep, ps.skip(1));
    assert(parse_more(s, 1 + ep) == Some((ps.skip(1), ll)));
    assert(skip_ws(s, ll) == ll);
    assert(parse_doc(s) == Some(seq![ps[0]] + ps.skip(1)));
    assert(seq![ps[0]] + ps.skip(1) =~= ps);
}

/// Decoding an encoded person sequence gives the sequence back: for every
/// sequence of person values, the document the writer produces conforms to
/// the grammar, and reading it yields a structurally equal sequence.
pub proof fn lemma_json_round_trip(ps: Seq<PersonV>)
    ensures
        parse_doc(enc_people(ps)) == Some(ps),
{
    if ps.len() == 0 {
        let s = enc_people(ps);
        assert(s == seq!['[', ']']);
        assert(s[0] == '[' && s[1] == ']');
        assert(skip_ws(s, 0) == 0);
        assert(skip_ws(s, 1) == 1);
        assert(skip_ws(s, 2) == 2);
        assert(parse_doc(s) == Some(Seq::<PersonV>::empty()));
        assert(ps =~= Seq::<PersonV>::empty());
    } else {
        lemma_json_round_trip_some(ps);
    }
}

fn is_close_bracket_at(s: &str, n: usize, i: usize) -> (r: bool)
    requires
        n == s@.len(),
        i < n,
    ensures
        r == (s@[i as int] == ']'),
{
    s.get_char(i) == ']'
}

} // verus!
