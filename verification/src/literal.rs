//! The value of a Rust string literal, read from its source text: the text
//! between the quotes with its escapes decoded (`\n`, `\r`, `\t`, `\\`, `\0`,
//! `\'`, `\"`, `\x7F`-style bytes up to `\x7F`, `\u{…}` scalars, and a `\`
//! before a line break, which drops the break and the whitespace after it).

use vstd::prelude::*;

verus! {

/// The value of a hexadecimal digit.
pub open spec fn hex_digit(c: char) -> Option<int> {
    let v = c as int;
    if 48 <= v <= 57 {
        Some(v - 48)
    } else if 97 <= v <= 102 {
        Some(v - 87)
    } else if 65 <= v <= 70 {
        Some(v - 55)
    } else {
        None
    }
}

/// A Unicode scalar value: at most `0x10FFFF` and no surrogate.
pub open spec fn is_scalar_value(v: int) -> bool {
    0 <= v <= 0x10FFFF && !(0xD800 <= v <= 0xDFFF)
}

/// The digits of a `\u{…}` escape from position `i` (after the `{`), read
/// into `value` so far with `digits` hexadecimal digits seen: the value and
/// the position after the closing `}`. Up to six digits; `_` may follow a
/// digit.
pub open spec fn unicode_escape(b: Seq<char>, i: int, value: int, digits: int) -> Option<(int, int)>
    decreases b.len() - i,
{
    if i < 0 || i >= b.len() {
        None
    } else if b[i] == '}' {
        if digits >= 1 { Some((value, i + 1)) } else { None }
    } else if b[i] == '_' {
        if digits >= 1 { unicode_escape(b, i + 1, value, digits) } else { None }
    } else {
        match hex_digit(b[i]) {
            Some(d) => if digits >= 6 { None } else { unicode_escape(b, i + 1, value * 16 + d, digits + 1) },
            None => None,
        }
    }
}

/// A `\u{…}` escape ends after where it starts and within the text.
pub proof fn lemma_unicode_escape(b: Seq<char>, i: int, value: int, digits: int)
    ensures
        unicode_escape(b, i, value, digits) matches Some((v, j)) ==> i < j <= b.len(),
    decreases b.len() - i,
{
    if 0 <= i < b.len() && b[i] != '}' {
        lemma_unicode_escape(b, i + 1, value, digits);
        if let Some(d) = hex_digit(b[i]) {
            lemma_unicode_escape(b, i + 1, value * 16 + d, digits + 1);
        }
    }
}

/// `b` without its leading spaces, tabs and line breaks.
pub open spec fn skip_whitespace(b: Seq<char>) -> Seq<char>
    decreases b.len(),
{
    if b.len() > 0 && (b[0] == ' ' || b[0] == '\t' || b[0] == '\n' || b[0] == '\r') {
        skip_whitespace(b.drop_first())
    } else {
        b
    }
}

/// Skipping whitespace never lengthens the text.
pub proof fn lemma_skip_whitespace(b: Seq<char>)
    ensures
        skip_whitespace(b).len() <= b.len(),
    decreases b.len(),
{
    if b.len() > 0 && (b[0] == ' ' || b[0] == '\t' || b[0] == '\n' || b[0] == '\r') {
        lemma_skip_whitespace(b.drop_first());
    }
}

/// `c` before the decoded rest, when the rest decodes.
pub open spec fn prepend_char(c: char, rest: Option<Seq<char>>) -> Option<Seq<char>> {
    match rest {
        Some(r) => Some(seq![c] + r),
        None => None,
    }
}

/// The decoded body of a string literal (the text between its quotes), or
/// `None` when it is not a valid body.
pub open spec fn unescape(b: Seq<char>) -> Option<Seq<char>>
    decreases b.len(),
{
    if b.len() == 0 {
        Some(Seq::empty())
    } else if b[0] == '"' || b[0] == '\r' {
        None
    } else if b[0] != '\\' {
        prepend_char(b[0], unescape(b.drop_first()))
    } else if b.len() < 2 {
        None
    } else {
        let c = b[1];
        if c == 'n' {
            prepend_char('\n', unescape(b.skip(2)))
        } else if c == 'r' {
            prepend_char('\r', unescape(b.skip(2)))
        } else if c == 't' {
            prepend_char('\t', unescape(b.skip(2)))
        } else if c == '\\' {
            prepend_char('\\', unescape(b.skip(2)))
        } else if c == '0' {
            prepend_char('\0', unescape(b.skip(2)))
        } else if c == '\'' {
            prepend_char('\'', unescape(b.skip(2)))
        } else if c == '"' {
            prepend_char('"', unescape(b.skip(2)))
        } else if c == 'x' {
            if b.len() >= 4 {
                match (hex_digit(b[2]), hex_digit(b[3])) {
                    (Some(h), Some(l)) => if h <= 7 {
                        prepend_char((h * 16 + l) as char, unescape(b.skip(4)))
                    } else {
                        None
                    },
                    _ => None,
                }
            } else {
                None
            }
        } else if c == 'u' {
            if b.len() >= 3 && b[2] == '{' {
                proof {
                    lemma_unicode_escape(b, 3, 0, 0);
                }
                match unicode_escape(b, 3, 0, 0) {
                    Some((v, j)) => if is_scalar_value(v) {
                        prepend_char(v as char, unescape(b.skip(j)))
                    } else {
                        None
                    },
                    None => None,
                }
            } else {
                None
            }
        } else if c == '\n' {
            proof {
                lemma_skip_whitespace(b.skip(2));
            }
            unescape(skip_whitespace(b.skip(2)))
        } else {
            None
        }
    }
}

/// The value of a string literal written `s`: the decoded text between its
/// quotes, or `None` when `s` is not a string literal.
pub open spec fn string_literal_value(s: Seq<char>) -> Option<Seq<char>> {
    if s.len() >= 2 && s[0] == '"' && s.last() == '"' {
        unescape(s.subrange(1, s.len() - 1))
    } else {
        None
    }
}

/// Printable ASCII text with no `"` or `\`: the text that a string literal
/// holds as it is, with no escape.
pub open spec fn needs_no_escape(s: Seq<char>) -> bool {
    forall|i: int| 0 <= i < s.len() ==> {
        let c = #[trigger] s[i];
        &&& 0x20 <= c as int <= 0x7E
        &&& c != '"'
        &&& c != '\\'
    }
}

/// Text with no `"`, `\` or carriage return means itself between quotes.
pub proof fn law_plain_text_is_its_own_literal(x: Seq<char>)
    requires
        forall|i: int| 0 <= i < x.len() ==> x[i] != '"' && x[i] != '\\' && x[i] != '\r',
    ensures
        string_literal_value(seq!['"'] + x + seq!['"']) == Some(x),
    decreases x.len(),
{
    lemma_plain_unescape(x);
    let s = seq!['"'] + x + seq!['"'];
    assert(s.subrange(1, s.len() - 1) =~= x);
}

proof fn lemma_plain_unescape(x: Seq<char>)
    requires
        forall|i: int| 0 <= i < x.len() ==> x[i] != '"' && x[i] != '\\' && x[i] != '\r',
    ensures
        unescape(x) == Some(x),
    decreases x.len(),
{
    if x.len() > 0 {
        lemma_plain_unescape(x.drop_first());
        assert(seq![x[0]] + x.drop_first() =~= x);
    }
}

} // verus!
