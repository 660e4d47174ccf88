//! A JSON reader and writer for the small set of document shapes the remote
//! API exchanges: strings, unsigned numbers, and the arrays and objects the
//! response documents are built from.
//!
//! Every reader is specified against a spec-level parser over `Seq<char>`;
//! the writer side is specified against spec-level encoders. The spec parser
//! is the definition of the accepted document shape.

use vstd::prelude::*;

verus! {

/// Relies on String::push: appends the given character to the end of the
/// string.
pub assume_specification[ String::push ](s: &mut String, c: char)
    ensures
        final(s)@ == old(s)@.push(c),
;

/// JSON insignificant whitespace.
pub open spec fn is_ws_char(c: char) -> bool {
    c == ' ' || c == '\t' || c == '\n' || c == '\r'
}

/// First position at or after `i` that holds no whitespace.
pub open spec fn spec_skip_ws(s: Seq<char>, i: int) -> int
    decreases s.len() - i,
{
    if 0 <= i < s.len() && is_ws_char(s[i]) {
        spec_skip_ws(s, i + 1)
    } else {
        i
    }
}

fn is_ws(c: char) -> (b: bool)
    ensures
        b == is_ws_char(c),
{
    c == ' ' || c == '\t' || c == '\n' || c == '\r'
}

/// Advance past insignificant whitespace.
pub fn skip_ws(s: &Vec<char>, i: usize) -> (j: usize)
    requires
        i <= s.len(),
    ensures
        j == spec_skip_ws(s@, i as int),
        i <= j <= s.len(),
{
    let mut j: usize = i;
    while j < s.len() && is_ws(s[j])
        invariant
            i <= j <= s.len(),
            spec_skip_ws(s@, i as int) == spec_skip_ws(s@, j as int),
        decreases s.len() - j,
    {
        j = j + 1;
    }
    j
}

pub open spec fn is_digit(c: char) -> bool {
    48 <= c as u32 <= 57
}

/// Numeric value of a decimal digit.
pub open spec fn digit_val(c: char) -> int {
    c as u32 - 48
}

pub open spec fn is_hex(c: char) -> bool {
    is_digit(c) || (97 <= c as u32 <= 102) || (65 <= c as u32 <= 70)
}

/// Numeric value of a hexadecimal digit (either case).
pub open spec fn hex_val(c: char) -> int {
    if is_digit(c) {
        c as u32 - 48
    } else if 97 <= c as u32 <= 102 {
        c as u32 - 87
    } else {
        c as u32 - 55
    }
}

fn is_digit_char(c: char) -> (b: bool)
    ensures
        b == is_digit(c),
{
    let u = c as u32;
    48 <= u && u <= 57
}

fn is_hex_char(c: char) -> (b: bool)
    ensures
        b == is_hex(c),
{
    let u = c as u32;
    (48 <= u && u <= 57) || (97 <= u && u <= 102) || (65 <= u && u <= 70)
}

fn hex_val_of(c: char) -> (v: u32)
    requires
        is_hex(c),
    ensures
        v == hex_val(c),
        v < 16,
{
    let u = c as u32;
    if u <= 57 {
        u - 48
    } else if u >= 97 {
        u - 87
    } else {
        u - 55
    }
}

/// Four hexadecimal digits starting at `i`, as one value.
pub open spec fn hex4(s: Seq<char>, i: int) -> int {
    hex_val(s[i]) * 4096 + hex_val(s[i + 1]) * 256 + hex_val(s[i + 2]) * 16 + hex_val(s[i + 3])
}

pub open spec fn is_hex4(s: Seq<char>, i: int) -> bool {
    is_hex(s[i]) && is_hex(s[i + 1]) && is_hex(s[i + 2]) && is_hex(s[i + 3])
}

/// One escape sequence, entered just after the backslash: the short escapes,
/// `\u` for any scalar value, and a surrogate pair of two `\u` sequences
/// for the supplementary characters; a lone surrogate is rejected.
pub open spec fn spec_parse_escape(s: Seq<char>, i: int) -> Option<(char, int)> {
    if 0 <= i < s.len() {
        let c = s[i];
        if c == '"' {
            Some(('"', i + 1))
        } else if c == '\\' {
            Some(('\\', i + 1))
        } else if c == '/' {
            Some(('/', i + 1))
        } else if c == 'b' {
            Some(('\u{8}', i + 1))
        } else if c == 'f' {
            Some(('\u{c}', i + 1))
        } else if c == 'n' {
            Some(('\n', i + 1))
        } else if c == 'r' {
            Some(('\r', i + 1))
        } else if c == 't' {
            Some(('\t', i + 1))
        } else if c == 'u' {
            if i + 5 <= s.len() && is_hex4(s, i + 1) {
                let v = hex4(s, i + 1);
                if v < 0xd800 || v > 0xdfff {
                    Some(((v as u32) as char, i + 5))
                } else if v < 0xdc00 {
                    if i + 11 <= s.len() && s[i + 5] == '\\' && s[i + 6] == 'u' && is_hex4(
                        s,
                        i + 7,
                    ) {
                        let w = hex4(s, i + 7);
                        if 0xdc00 <= w <= 0xdfff {
                            let sc = 0x10000 + (v - 0xd800) * 1024 + (w - 0xdc00);
                            Some(((sc as u32) as char, i + 11))
                        } else {
                            None
                        }
                    } else {
                        None
                    }
                } else {
                    None
                }
            } else {
                None
            }
        } else {
            None
        }
    } else {
        None
    }
}

/// Relies on char::from_u32: a character for every valid scalar value, and
/// nothing for surrogate values or values beyond the largest code point.
pub assume_specification[ char::from_u32 ](v: u32) -> (r: Option<char>)
    ensures
        r == (if v < 0xd800 || (0xe000 <= v && v <= 0x10ffff) {
            Some(v as char)
        } else {
            None::<char>
        }),
;

pub fn parse_escape(s: &Vec<char>, i: usize) -> (r: Option<(char, usize)>)
    ensures
        match r {
            Some((c, j)) => i < j <= s.len() && spec_parse_escape(s@, i as int) == Some::<
                (char, int),
            >((c, j as int)),
            None => spec_parse_escape(s@, i as int) is None,
        },
{
    if i >= s.len() {
        return None;
    }
    let c = s[i];
    if c == '"' {
        Some(('"', i + 1))
    } else if c == '\\' {
        Some(('\\', i + 1))
    } else if c == '/' {
        Some(('/', i + 1))
    } else if c == 'b' {
        Some(('\u{8}', i + 1))
    } else if c == 'f' {
        Some(('\u{c}', i + 1))
    } else if c == 'n' {
        Some(('\n', i + 1))
    } else if c == 'r' {
        Some(('\r', i + 1))
    } else if c == 't' {
        Some(('\t', i + 1))
    } else if c == 'u' {
        if s.len() - i >= 5 && is_hex_char(s[i + 1]) && is_hex_char(s[i + 2]) && is_hex_char(
            s[i + 3],
        ) && is_hex_char(s[i + 4]) {
            let v = hex_val_of(s[i + 1]) * 4096 + hex_val_of(s[i + 2]) * 256 + hex_val_of(s[i + 3])
                * 16 + hex_val_of(s[i + 4]);
            if v < 0xd800 || v > 0xdfff {
                match char::from_u32(v) {
                    Some(ch) => Some((ch, i + 5)),
                    None => None,
                }
            } else if v < 0xdc00 {
                if s.len() - i >= 11 && s[i + 5] == '\\' && s[i + 6] == 'u' && is_hex_char(
                    s[i + 7],
                ) && is_hex_char(s[i + 8]) && is_hex_char(s[i + 9]) && is_hex_char(s[i + 10]) {
                    let w = hex_val_of(s[i + 7]) * 4096 + hex_val_of(s[i + 8]) * 256 + hex_val_of(
                        s[i + 9],
                    ) * 16 + hex_val_of(s[i + 10]);
                    if 0xdc00 <= w && w <= 0xdfff {
                        let sc: u32 = 0x10000 + (v - 0xd800) * 1024 + (w - 0xdc00);
                        match char::from_u32(sc) {
                            Some(ch) => Some((ch, i + 11)),
                            None => None,
                        }
                    } else {
                        None
                    }
                } else {
                    None
                }
            } else {
                None
            }
        } else {
            None
        }
    } else {
        None
    }
}

/// The body of a JSON string, entered just after the opening quote; ends at
/// the closing quote. Unescaped control characters are rejected.
pub open spec fn spec_parse_str_body(s: Seq<char>, i: int) -> Option<(Seq<char>, int)>
    decreases s.len() - i,
{
    if 0 <= i < s.len() {
        let c = s[i];
        if c == '"' {
            Some((Seq::empty(), i + 1))
        } else if c == '\\' {
            match spec_parse_escape(s, i + 1) {
                Some((e, j)) => if i < j <= s.len() {
                    match spec_parse_str_body(s, j) {
                        Some((rest, k)) => Some((seq![e] + rest, k)),
                        None => None,
                    }
                } else {
                    None
                },
                None => None,
            }
        } else if c as u32 >= 32 {
            match spec_parse_str_body(s, i + 1) {
                Some((rest, k)) => Some((seq![c] + rest, k)),
                None => None,
            }
        } else {
            None
        }
    } else {
        None
    }
}

pub fn parse_str_body(s: &Vec<char>, i: usize) -> (r: Option<(String, usize)>)
    ensures
        match r {
            Some((v, j)) => i < j <= s.len() && spec_parse_str_body(s@, i as int) == Some::<
                (Seq<char>, int),
            >((v@, j as int)),
            None => spec_parse_str_body(s@, i as int) is None,
        },
    decreases s.len() - i,
{
    if i >= s.len() {
        return None;
    }
    let c = s[i];
    if c == '"' {
        let out = String::new();
        assert(out@ =~= Seq::<char>::empty());
        Some((out, i + 1))
    } else if c == '\\' {
        match parse_escape(s, i + 1) {
            Some((e, j)) => {
                match parse_str_body(s, j) {
                    Some((rest, k)) => {
                        let mut out = String::new();
                        out.push(e);
                        out.append(rest.as_str());
                        assert(out@ =~= seq![e] + rest@);
                        Some((out, k))
                    },
                    None => None,
                }
            },
            None => None,
        }
    } else if c as u32 >= 32 {
        match parse_str_body(s, i + 1) {
            Some((rest, k)) => {
                let mut out = String::new();
                out.push(c);
                out.append(rest.as_str());
                assert(out@ =~= seq![c] + rest@);
                Some((out, k))
            },
            None => None,
        }
    } else {
        None
    }
}

/// A complete JSON string, opening quote included.
pub open spec fn spec_parse_string(s: Seq<char>, i: int) -> Option<(Seq<char>, int)> {
    if 0 <= i < s.len() && s[i] == '"' {
        spec_parse_str_body(s, i + 1)
    } else {
        None
    }
}

pub fn parse_string(s: &Vec<char>, i: usize) -> (r: Option<(String, usize)>)
    ensures
        match r {
            Some((v, j)) => i < j <= s.len() && spec_parse_string(s@, i as int) == Some::<
                (Seq<char>, int),
            >((v@, j as int)),
            None => spec_parse_string(s@, i as int) is None,
        },
{
    if i < s.len() && s[i] == '"' {
        parse_str_body(s, i + 1)
    } else {
        None
    }
}

/// Digits following the first one, with the running value so far; fails on
/// values beyond the 32-bit range, as the decoded field could not hold them.
pub open spec fn spec_parse_u32_rec(s: Seq<char>, i: int, acc: u32) -> Option<(u32, int)>
    decreases s.len() - i,
{
    if 0 <= i < s.len() && is_digit(s[i]) {
        let v = acc as int * 10 + digit_val(s[i]);
        if v > 0xffff_ffff {
            None
        } else {
            spec_parse_u32_rec(s, i + 1, v as u32)
        }
    } else {
        Some((acc, i))
    }
}

/// An unsigned decimal number: either a lone zero or a nonzero leading digit
/// followed by more digits.
pub open spec fn spec_parse_u32(s: Seq<char>, i: int) -> Option<(u32, int)> {
    if 0 <= i < s.len() && is_digit(s[i]) {
        if s[i] == '0' {
            Some((0, i + 1))
        } else {
            spec_parse_u32_rec(s, i + 1, digit_val(s[i]) as u32)
        }
    } else {
        None
    }
}

pub fn parse_u32(s: &Vec<char>, i: usize) -> (r: Option<(u32, usize)>)
    ensures
        match r {
            Some((v, j)) => i < j <= s.len() && spec_parse_u32(s@, i as int) == Some::<
                (u32, int),
            >((v, j as int)),
            None => spec_parse_u32(s@, i as int) is None,
        },
{
    if i >= s.len() || !is_digit_char(s[i]) {
        return None;
    }
    if s[i] == '0' {
        return Some((0, i + 1));
    }
    let mut acc: u32 = s[i] as u32 - 48;
    let mut j = i + 1;
    loop
        invariant
            i < j <= s.len(),
            spec_parse_u32(s@, i as int) == spec_parse_u32_rec(s@, j as int, acc),
        decreases s.len() - j,
    {
        if j >= s.len() || !is_digit_char(s[j]) {
            return Some((acc, j));
        }
        let d = s[j] as u32 - 48;
        let wide: u64 = acc as u64 * 10 + d as u64;
        if wide > 0xffff_ffff {
            return None;
        }
        acc = wide as u32;
        j = j + 1;
    }
}

/// Turn a borrowed string into its characters, for the readers to walk.
pub fn chars_of(s: &str) -> (r: Vec<char>)
    ensures
        r@ == s@,
{
    let n = s.unicode_len();
    let mut r: Vec<char> = Vec::new();
    let mut i: usize = 0;
    while i < n
        invariant
            i <= n,
            n == s@.len(),
            r@ == s@.subrange(0, i as int),
        decreases n - i,
    {
        r.push(s.get_char(i));
        i = i + 1;
        assert(r@ =~= s@.subrange(0, i as int));
    }
    assert(r@ =~= s@);
    r
}

} // verus!

verus! {

/// Hexadecimal digit character for a value below sixteen, lower case.
pub open spec fn hex_digit(d: int) -> char {
    if d < 10 {
        ((48 + d) as u8) as char
    } else {
        ((87 + d) as u8) as char
    }
}

fn hex_digit_of(v: u32) -> (c: char)
    requires
        v < 16,
    ensures
        c == hex_digit(v as int),
{
    if v < 10 {
        (48 + v as u8) as char
    } else {
        (87 + v as u8) as char
    }
}

/// The JSON escape of one character: the two-character short escapes, a
/// `\u00..` sequence for the remaining control characters, and every other
/// character as itself.
pub open spec fn spec_escape_char(c: char) -> Seq<char> {
    if c == '"' {
        seq!['\\', '"']
    } else if c == '\\' {
        seq!['\\', '\\']
    } else if c == '\u{8}' {
        seq!['\\', 'b']
    } else if c == '\u{c}' {
        seq!['\\', 'f']
    } else if c == '\n' {
        seq!['\\', 'n']
    } else if c == '\r' {
        seq!['\\', 'r']
    } else if c == '\t' {
        seq!['\\', 't']
    } else if (c as u32) < 32 {
        seq!['\\', 'u', '0', '0', hex_digit(((c as u32) / 16) as int, ), hex_digit(
            ((c as u32) % 16) as int,
        )]
    } else {
        seq![c]
    }
}

/// A whole string escaped, character by character.
pub open spec fn spec_escape_string(s: Seq<char>) -> Seq<char>
    decreases s.len(),
{
    if s.len() == 0 {
        Seq::empty()
    } else {
        spec_escape_char(s[0]) + spec_escape_string(s.drop_first())
    }
}

/// A string as a JSON document fragment: quoted and escaped.
pub open spec fn spec_quote(s: Seq<char>) -> Seq<char> {
    seq!['"'] + spec_escape_string(s) + seq!['"']
}

fn push_escaped(out: &mut String, c: char)
    ensures
        final(out)@ == old(out)@ + spec_escape_char(c),
{
    if c == '"' {
        out.push('\\');
        out.push('"');
    } else if c == '\\' {
        out.push('\\');
        out.push('\\');
    } else if c == '\u{8}' {
        out.push('\\');
        out.push('b');
    } else if c == '\u{c}' {
        out.push('\\');
        out.push('f');
    } else if c == '\n' {
        out.push('\\');
        out.push('n');
    } else if c == '\r' {
        out.push('\\');
        out.push('r');
    } else if c == '\t' {
        out.push('\\');
        out.push('t');
    } else if (c as u32) < 32 {
        let d = c as u32;
        out.push('\\');
        out.push('u');
        out.push('0');
        out.push('0');
        out.push(hex_digit_of(d / 16));
        out.push(hex_digit_of(d % 16));
    } else {
        out.push(c);
    }
    assert(final(out)@ =~= old(out)@ + spec_escape_char(c));
}

/// Append a string to `out` as a JSON string: quoted, with every character
/// escaped as the grammar asks.
pub fn push_quoted(out: &mut String, s: &str)
    ensures
        final(out)@ == old(out)@ + spec_quote(s@),
{
    let n = s.unicode_len();
    out.push('"');
    proof {
        assert(s@.subrange(0, n as int) =~= s@);
    }
    let mut i: usize = 0;
    while i < n
        invariant
            i <= n,
            n == s@.len(),
            out@ + spec_escape_string(s@.subrange(i as int, n as int)) == old(out)@ + seq!['"']
                + spec_escape_string(s@),
        decreases n - i,
    {
        let c = s.get_char(i);
        proof {
            let tail = s@.subrange(i as int, n as int);
            assert(tail[0] == c);
            assert(tail.drop_first() =~= s@.subrange(i + 1, n as int));
        }
        push_escaped(out, c);
        i = i + 1;
    }
    proof {
        assert(s@.subrange(n as int, n as int) =~= Seq::<char>::empty());
    }
    out.push('"');
    assert(final(out)@ =~= old(out)@ + spec_quote(s@));
}

} // verus!

verus! {

/// One position of a subsequence equality, spelled out.
pub proof fn lemma_subrange_index(s: Seq<char>, i: int, t: Seq<char>, k: int)
    requires
        0 <= i,
        i + t.len() <= s.len(),
        s.subrange(i, i + t.len()) == t,
        0 <= k < t.len(),
    ensures
        s[i + k] == t[k],
{
    assert(s[i + k] == s.subrange(i, i + t.len())[k]);
}

/// A hexadecimal digit character reads back as its value.
pub proof fn lemma_hex_digit_val(d: int)
    requires
        0 <= d < 16,
    ensures
        is_hex(hex_digit(d)),
        hex_val(hex_digit(d)) == d,
{
    if d < 10 {
        assert(hex_digit(d) as u32 == 48 + d);
    } else {
        assert(hex_digit(d) as u32 == 87 + d);
    }
}

/// An escaped string written at `i` and followed by a closing quote reads
/// back as exactly the original string.
#[verifier::rlimit(60)]
pub proof fn lemma_parse_str_body_of_escaped(s: Seq<char>, i: int, a: Seq<char>)
    requires
        0 <= i,
        i + spec_escape_string(a).len() + 1 <= s.len(),
        s.subrange(i, i + spec_escape_string(a).len()) == spec_escape_string(a),
        s[i + spec_escape_string(a).len()] == '"',
    ensures
        spec_parse_str_body(s, i) == Some::<(Seq<char>, int)>(
            (a, i + spec_escape_string(a).len() + 1),
        ),
    decreases a.len(),
{
    let esc = spec_escape_string(a);
    if a.len() == 0 {
        assert(esc =~= Seq::<char>::empty());
        assert(a =~= Seq::<char>::empty());
    } else {
        let c = a[0];
        let ec = spec_escape_char(c);
        let rest = a.drop_first();
        let esc_rest = spec_escape_string(rest);
        assert(esc == ec + esc_rest);
        let i2 = i + ec.len();
        assert forall|k: int| 0 <= k < esc_rest.len() implies s.subrange(
            i2,
            i2 + esc_rest.len(),
        )[k] == esc_rest[k] by {
            lemma_subrange_index(s, i, esc, ec.len() + k);
            assert(esc[ec.len() + k] == esc_rest[k]);
        }
        assert(s.subrange(i2, i2 + esc_rest.len()) =~= esc_rest);
        assert(s[i2 + esc_rest.len()] == '"');
        lemma_parse_str_body_of_escaped(s, i2, rest);
        assert(spec_parse_str_body(s, i2) == Some::<(Seq<char>, int)>(
            (rest, i2 + esc_rest.len() + 1),
        ));
        assert(seq![c] + rest =~= a);
        if c == '"' {
            assert(ec == seq!['\\', '"']);
            lemma_subrange_index(s, i, esc, 0);
            lemma_subrange_index(s, i, esc, 1);
            assert(s[i] == '\\' && s[i + 1] == '"');
            assert(spec_parse_escape(s, i + 1) == Some::<(char, int)>((c, i2)));
        } else if c == '\\' {
            assert(ec == seq!['\\', '\\']);
            lemma_subrange_index(s, i, esc, 0);
            lemma_subrange_index(s, i, esc, 1);
            assert(s[i] == '\\' && s[i + 1] == '\\');
            assert(spec_parse_escape(s, i + 1) == Some::<(char, int)>((c, i2)));
        } else if c == '\u{8}' {
            assert(ec == seq!['\\', 'b']);
            lemma_subrange_index(s, i, esc, 0);
            lemma_subrange_index(s, i, esc, 1);
            assert(s[i] == '\\' && s[i + 1] == 'b');
            assert(spec_parse_escape(s, i + 1) == Some::<(char, int)>((c, i2)));
        } else if c == '\u{c}' {
            assert(ec == seq!['\\', 'f']);
            lemma_subrange_index(s, i, esc, 0);
            lemma_subrange_index(s, i, esc, 1);
            assert(s[i] == '\\' && s[i + 1] == 'f');
            assert(spec_parse_escape(s, i + 1) == Some::<(char, int)>((c, i2)));
        } else if c == '\n' {
            assert(ec == seq!['\\', 'n']);
            lemma_subrange_index(s, i, esc, 0);
            lemma_subrange_index(s, i, esc, 1);
            assert(s[i] == '\\' && s[i + 1] == 'n');
            assert(spec_parse_escape(s, i + 1) == Some::<(char, int)>((c, i2)));
        } else if c == '\r' {
            assert(ec == seq!['\\', 'r']);
            lemma_subrange_index(s, i, esc, 0);
            lemma_subrange_index(s, i, esc, 1);
            assert(s[i] == '\\' && s[i + 1] == 'r');
            assert(spec_parse_escape(s, i + 1) == Some::<(char, int)>((c, i2)));
        } else if c == '\t' {
            assert(ec == seq!['\\', 't']);
            lemma_subrange_index(s, i, esc, 0);
            lemma_subrange_index(s, i, esc, 1);
            assert(s[i] == '\\' && s[i + 1] == 't');
            assert(spec_parse_escape(s, i + 1) == Some::<(char, int)>((c, i2)));
        } else if (c as u32) < 32 {
            let du: u32 = c as u32;
            assert(ec == seq![
                '\\',
                'u',
                '0',
                '0',
                hex_digit((du / 16) as int),
                hex_digit((du % 16) as int),
            ]);
            lemma_subrange_index(s, i, esc, 0);
            lemma_subrange_index(s, i, esc, 1);
            lemma_subrange_index(s, i, esc, 2);
            lemma_subrange_index(s, i, esc, 3);
            lemma_subrange_index(s, i, esc, 4);
            lemma_subrange_index(s, i, esc, 5);
            assert(s[i] == '\\' && s[i + 1] == 'u' && s[i + 2] == '0' && s[i + 3] == '0');
            assert(s[i + 4] == hex_digit((du / 16) as int) && s[i + 5] == hex_digit(
                (du % 16) as int,
            ));
            lemma_hex_digit_val((du / 16) as int);
            lemma_hex_digit_val((du % 16) as int);
            assert(hex_val('0') == 0 && is_hex('0'));
            let v = hex4(s, i + 2);
            assert(v == du as int);
            vstd::utf8::char_u32_cast(c, du);
            assert(((v as u32) as char) == c);
            assert(spec_parse_escape(s, i + 1) == Some::<(char, int)>((c, i2)));
        } else {
            assert(ec == seq![c]);
            lemma_subrange_index(s, i, esc, 0);
            assert(s[i] == c);
            assert(c as u32 >= 32 && c != '"' && c != '\\');
        }
    }
}

/// A quoted, escaped string written at `i` reads back as exactly the
/// original string.
pub proof fn lemma_parse_quoted(s: Seq<char>, i: int, a: Seq<char>)
    requires
        0 <= i,
        i + spec_quote(a).len() <= s.len(),
        s.subrange(i, i + spec_quote(a).len()) == spec_quote(a),
    ensures
        spec_parse_string(s, i) == Some::<(Seq<char>, int)>((a, i + spec_quote(a).len())),
{
    let q = spec_quote(a);
    let esc = spec_escape_string(a);
    lemma_subrange_index(s, i, q, 0);
    assert(s[i] == '"');
    assert forall|k: int| 0 <= k < esc.len() implies s.subrange(i + 1, i + 1 + esc.len())[k]
        == esc[k] by {
        lemma_subrange_index(s, i, q, 1 + k);
        assert(q[1 + k] == esc[k]);
    }
    assert(s.subrange(i + 1, i + 1 + esc.len()) =~= esc);
    lemma_subrange_index(s, i, q, 1 + esc.len() as int);
    assert(s[i + 1 + esc.len()] == '"');
    lemma_parse_str_body_of_escaped(s, i + 1, a);
}

} // verus!

verus! {

/// First position at or after `i` that holds no decimal digit.
pub open spec fn spec_digits_end(s: Seq<char>, i: int) -> int
    decreases s.len() - i,
{
    if 0 <= i < s.len() && is_digit(s[i]) {
        spec_digits_end(s, i + 1)
    } else {
        i
    }
}

fn digits_end(s: &Vec<char>, i: usize) -> (j: usize)
    requires
        i <= s.len(),
    ensures
        j == spec_digits_end(s@, i as int),
        i <= j <= s.len(),
{
    let mut j: usize = i;
    while j < s.len() && is_digit_char(s[j])
        invariant
            i <= j <= s.len(),
            spec_digits_end(s@, i as int) == spec_digits_end(s@, j as int),
        decreases s.len() - j,
    {
        j = j + 1;
    }
    j
}

/// A JSON number, skipped: optional minus, an integer part without leading
/// zeros, an optional fraction and an optional exponent.
pub open spec fn spec_skip_number(s: Seq<char>, i: int) -> Option<int> {
    let a = if 0 <= i < s.len() && s[i] == '-' {
        i + 1
    } else {
        i
    };
    if 0 <= a < s.len() && is_digit(s[a]) {
        let int_end = if s[a] == '0' {
            a + 1
        } else {
            spec_digits_end(s, a)
        };
        let frac_end = if int_end < s.len() && s[int_end] == '.' {
            if int_end + 1 < s.len() && is_digit(s[int_end + 1]) {
                spec_digits_end(s, int_end + 1)
            } else {
                -1
            }
        } else {
            int_end
        };
        if frac_end < 0 {
            None
        } else if frac_end < s.len() && (s[frac_end] == 'e' || s[frac_end] == 'E') {
            let b = if frac_end + 1 < s.len() && (s[frac_end + 1] == '+' || s[frac_end + 1]
                == '-') {
                frac_end + 2
            } else {
                frac_end + 1
            };
            if b < s.len() && is_digit(s[b]) {
                Some(spec_digits_end(s, b))
            } else {
                None
            }
        } else {
            Some(frac_end)
        }
    } else {
        None
    }
}

fn skip_number(s: &Vec<char>, i: usize) -> (r: Option<usize>)
    requires
        i < s.len(),
    ensures
        match r {
            Some(j) => i < j <= s.len() && spec_skip_number(s@, i as int) == Some(j as int),
            None => spec_skip_number(s@, i as int) is None,
        },
{
    let a = if s[i] == '-' {
        i + 1
    } else {
        i
    };
    if !(a < s.len() && is_digit_char(s[a])) {
        return None;
    }
    let int_end = if s[a] == '0' {
        a + 1
    } else {
        let e = digits_end(s, a + 1);
        proof {
            assert(spec_digits_end(s@, a as int) == spec_digits_end(s@, a + 1));
        }
        e
    };
    let frac_end: usize = if int_end < s.len() && s[int_end] == '.' {
        if int_end + 1 < s.len() && is_digit_char(s[int_end + 1]) {
            digits_end(s, int_end + 1)
        } else {
            return None;
        }
    } else {
        int_end
    };
    if frac_end < s.len() && (s[frac_end] == 'e' || s[frac_end] == 'E') {
        let b = if frac_end + 1 < s.len() && (s[frac_end + 1] == '+' || s[frac_end + 1] == '-') {
            frac_end + 2
        } else {
            frac_end + 1
        };
        if b < s.len() && is_digit_char(s[b]) {
            Some(digits_end(s, b))
        } else {
            None
        }
    } else {
        Some(frac_end)
    }
}

/// Any JSON value, skipped. The document readers use this for object members
/// they do not recognize, which are accepted with any well-formed value.
pub open spec fn spec_skip_value(s: Seq<char>, i: int) -> Option<int>
    decreases s.len() - i, 0int,
{
    if 0 <= i < s.len() {
        let c = s[i];
        if c == '"' {
            match spec_parse_str_body(s, i + 1) {
                Some((v, j)) => Some(j),
                None => None,
            }
        } else if c == '{' {
            let j = spec_skip_ws(s, i + 1);
            if j < s.len() && s[j] == '}' {
                Some(j + 1)
            } else {
                spec_skip_members(s, i + 1)
            }
        } else if c == '[' {
            let j = spec_skip_ws(s, i + 1);
            if j < s.len() && s[j] == ']' {
                Some(j + 1)
            } else {
                spec_skip_elements(s, i + 1)
            }
        } else if c == 't' {
            if i + 4 <= s.len() && s[i + 1] == 'r' && s[i + 2] == 'u' && s[i + 3] == 'e' {
                Some(i + 4)
            } else {
                None
            }
        } else if c == 'f' {
            if i + 5 <= s.len() && s[i + 1] == 'a' && s[i + 2] == 'l' && s[i + 3] == 's' && s[i + 4]
                == 'e' {
                Some(i + 5)
            } else {
                None
            }
        } else if c == 'n' {
            if i + 4 <= s.len() && s[i + 1] == 'u' && s[i + 2] == 'l' && s[i + 3] == 'l' {
                Some(i + 4)
            } else {
                None
            }
        } else if c == '-' || is_digit(c) {
            spec_skip_number(s, i)
        } else {
            None
        }
    } else {
        None
    }
}

/// The members of an object being skipped, entered after `{` or a comma.
pub open spec fn spec_skip_members(s: Seq<char>, i: int) -> Option<int>
    decreases s.len() - i, 1int,
{
    if 0 <= i <= s.len() {
        let j = spec_skip_ws(s, i);
        match spec_parse_string(s, j) {
            Some((k, j2)) => {
                let j3 = spec_skip_ws(s, j2);
                if j3 < s.len() && s[j3] == ':' {
                    let p = spec_skip_ws(s, j3 + 1);
                    if i < p <= s.len() {
                        match spec_skip_value(s, p) {
                            Some(q) => {
                                let r = spec_skip_ws(s, q);
                                if i < r && r < s.len() {
                                    if s[r] == '}' {
                                        Some(r + 1)
                                    } else if s[r] == ',' {
                                        spec_skip_members(s, r + 1)
                                    } else {
                                        None
                                    }
                                } else {
                                    None
                                }
                            },
                            None => None,
                        }
                    } else {
                        None
                    }
                } else {
                    None
                }
            },
            None => None,
        }
    } else {
        None
    }
}

/// The elements of an array being skipped, entered after `[` or a comma.
pub open spec fn spec_skip_elements(s: Seq<char>, i: int) -> Option<int>
    decreases s.len() - i, 1int,
{
    if 0 <= i <= s.len() {
        let j = spec_skip_ws(s, i);
        if i <= j < s.len() {
            match spec_skip_value(s, j) {
                Some(q) => {
                    let r = spec_skip_ws(s, q);
                    if i < r && r < s.len() {
                        if s[r] == ']' {
                            Some(r + 1)
                        } else if s[r] == ',' {
                            spec_skip_elements(s, r + 1)
                        } else {
                            None
                        }
                    } else {
                        None
                    }
                },
                None => None,
            }
        } else {
            None
        }
    } else {
        None
    }
}

/// Skip one JSON value.
pub fn skip_value(s: &Vec<char>, i: usize) -> (r: Option<usize>)
    ensures
        match r {
            Some(j) => i < j <= s.len() && spec_skip_value(s@, i as int) == Some(j as int),
            None => spec_skip_value(s@, i as int) is None,
        },
    decreases s.len() - i, 0int,
{
    if i >= s.len() {
        return None;
    }
    let c = s[i];
    if c == '"' {
        match parse_str_body(s, i + 1) {
            Some((_v, j)) => Some(j),
            None => None,
        }
    } else if c == '{' {
        let j = skip_ws(s, i + 1);
        if j < s.len() && s[j] == '}' {
            Some(j + 1)
        } else {
            skip_members(s, i + 1)
        }
    } else if c == '[' {
        let j = skip_ws(s, i + 1);
        if j < s.len() && s[j] == ']' {
            Some(j + 1)
        } else {
            skip_elements(s, i + 1)
        }
    } else if c == 't' {
        if s.len() - i >= 4 && s[i + 1] == 'r' && s[i + 2] == 'u' && s[i + 3] == 'e' {
            Some(i + 4)
        } else {
            None
        }
    } else if c == 'f' {
        if s.len() - i >= 5 && s[i + 1] == 'a' && s[i + 2] == 'l' && s[i + 3] == 's' && s[i + 4]
            == 'e' {
            Some(i + 5)
        } else {
            None
        }
    } else if c == 'n' {
        if s.len() - i >= 4 && s[i + 1] == 'u' && s[i + 2] == 'l' && s[i + 3] == 'l' {
            Some(i + 4)
        } else {
            None
        }
    } else if c == '-' || is_digit_char(c) {
        skip_number(s, i)
    } else {
        None
    }
}

fn skip_members(s: &Vec<char>, i: usize) -> (r: Option<usize>)
    requires
        i <= s.len(),
    ensures
        match r {
            Some(j) => i < j <= s.len() && spec_skip_members(s@, i as int) == Some(j as int),
            None => spec_skip_members(s@, i as int) is None,
        },
    decreases s.len() - i, 1int,
{
    let j = skip_ws(s, i);
    let (_k, j2) = match parse_string(s, j) {
        Some(x) => x,
        None => {
            return None;
        },
    };
    let j3 = skip_ws(s, j2);
    if !(j3 < s.len() && s[j3] == ':') {
        return None;
    }
    let p = skip_ws(s, j3 + 1);
    let q = match skip_value(s, p) {
        Some(x) => x,
        None => {
            return None;
        },
    };
    let r = skip_ws(s, q);
    if !(r < s.len()) {
        return None;
    }
    if s[r] == '}' {
        Some(r + 1)
    } else if s[r] == ',' {
        skip_members(s, r + 1)
    } else {
        None
    }
}

fn skip_elements(s: &Vec<char>, i: usize) -> (r: Option<usize>)
    requires
        i <= s.len(),
    ensures
        match r {
            Some(j) => i < j <= s.len() && spec_skip_elements(s@, i as int) == Some(j as int),
            None => spec_skip_elements(s@, i as int) is None,
        },
    decreases s.len() - i, 1int,
{
    let j = skip_ws(s, i);
    if !(j < s.len()) {
        return None;
    }
    let q = match skip_value(s, j) {
        Some(x) => x,
        None => {
            return None;
        },
    };
    let r = skip_ws(s, q);
    if !(r < s.len()) {
        return None;
    }
    if s[r] == ']' {
        Some(r + 1)
    } else if s[r] == ',' {
        skip_elements(s, r + 1)
    } else {
        None
    }
}

} // verus!
