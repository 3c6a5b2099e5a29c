//! The argument grammar of the `t!` macro, over a model of its token trees.
//!
//! `t!(locale, "file:key", name, other = value, ...)`: the locale is every
//! token before the first top-level `,` (it may not open with `=`), the key
//! is the next token, which must be a literal, and each further argument is
//! a name (its tokens up to a top-level `,` or `=`), optionally followed by
//! `=` and the tokens of its value, up to the next top-level `,`. A trailing
//! `,` is allowed.

use vstd::prelude::*;
use crate::text::{chars_of, string_of_range};

verus! {

/// One token tree of a macro's input, as the library reads it.
///
/// `Literal` and `Group` carry the token's source text (what `to_string`
/// prints), `Ident` the identifier and `Punct` its character.
#[derive(Debug, PartialEq, Eq)]
pub enum Token {
    Ident(String),
    Punct(char),
    Literal(String),
    Group(String),
}

/// A token as mathematical values.
pub enum TokenView {
    Ident(Seq<char>),
    Punct(char),
    Literal(Seq<char>),
    Group(Seq<char>),
}

impl View for Token {
    type V = TokenView;

    open spec fn view(&self) -> TokenView {
        match self {
            Token::Ident(s) => TokenView::Ident(s@),
            Token::Punct(c) => TokenView::Punct(*c),
            Token::Literal(s) => TokenView::Literal(s@),
            Token::Group(s) => TokenView::Group(s@),
        }
    }
}

/// The tokens of a vector, as values.
pub open spec fn tokens_view(tokens: Seq<Token>) -> Seq<TokenView> {
    tokens.map_values(|t: Token| t@)
}

/// A literal's text that opens with `"` is a whole string literal: at least
/// the two quotes, and it closes with `"`.
pub open spec fn literal_text_wf(s: Seq<char>) -> bool {
    s.len() > 0 && s[0] == '"' ==> s.len() >= 2 && s.last() == '"'
}

/// Every literal token of `ts` has a well-formed text.
pub open spec fn tokens_wf(ts: Seq<TokenView>) -> bool {
    forall|i: int| 0 <= i < ts.len() ==> (#[trigger] ts[i] matches TokenView::Literal(s) ==> literal_text_wf(s))
}

/// A half-open range `start..end` of token positions.
#[derive(Clone, Copy, PartialEq, Eq, Structural, Debug)]
pub struct Span {
    pub start: usize,
    pub end: usize,
}

/// One replacement argument: the tokens that name the placeholder and, when
/// written as `name = value`, the tokens of the value.
#[derive(Clone, Copy, PartialEq, Eq, Structural, Debug)]
pub struct Replacement {
    pub name: Span,
    pub value: Option<Span>,
}

/// Why the arguments of `t!` were rejected.
#[derive(Clone, Copy, PartialEq, Eq, Structural, Debug)]
pub enum TArgsError {
    /// Nothing before the first comma, or the input opens with `=`.
    MissingLocale,
    /// The locale is not followed by a comma.
    MissingCommaAfterLocale,
    /// No literal after the locale's comma.
    MissingKey,
    /// Something other than a comma follows the key.
    MissingComma,
    /// A comma is followed by `,`, `=` or nothing but more input.
    MissingName,
    /// `name =` ends the input.
    MissingReplacement,
}

/// The parsed arguments of `t!`.
#[derive(Debug, PartialEq, Eq)]
pub struct TArgs {
    pub locale: Span,
    pub key: String,
    pub replacements: Vec<Replacement>,
}

/// The parsed arguments, as values.
pub struct TArgsView {
    pub locale: Span,
    pub key: Seq<char>,
    pub replacements: Seq<Replacement>,
}

impl View for TArgs {
    type V = TArgsView;

    open spec fn view(&self) -> TArgsView {
        TArgsView { locale: self.locale, key: self.key@, replacements: self.replacements@ }
    }
}

/// A top-level `,` ends an argument; a top-level `=` also ends a
/// replacement's name (`eq`).
pub open spec fn is_separator(t: TokenView, eq: bool) -> bool {
    t matches TokenView::Punct(c) && (c == ',' || (eq && c == '='))
}

/// Token `pos` is the punctuation `c`.
pub open spec fn is_punct_at(ts: Seq<TokenView>, pos: int, c: char) -> bool {
    0 <= pos < ts.len() && (ts[pos] matches TokenView::Punct(d) && d == c)
}

/// The first position at or after `pos` that holds a separator (`,`, and
/// `=` too when `eq`), or the end.
pub open spec fn run_end(ts: Seq<TokenView>, pos: int, eq: bool) -> int
    decreases ts.len() - pos,
{
    if pos < 0 || pos >= ts.len() || is_separator(ts[pos], eq) {
        pos
    } else {
        run_end(ts, pos + 1, eq)
    }
}

/// A literal's text without its quotes, when it opens with `"`.
pub open spec fn trimmed(s: Seq<char>) -> Seq<char> {
    if s.len() >= 2 && s[0] == '"' {
        s.subrange(1, s.len() - 1)
    } else {
        s
    }
}

/// The replacement arguments from position `pos` on.
pub open spec fn parse_replacements(ts: Seq<TokenView>, pos: int) -> Result<Seq<Replacement>, TArgsError>
    decreases ts.len() - pos,
{
    if pos < 0 || pos >= ts.len() {
        Ok(Seq::empty())
    } else if !is_punct_at(ts, pos, ',') {
        Err(TArgsError::MissingComma)
    } else if pos + 1 == ts.len() {
        Ok(Seq::empty())
    } else {
        let s = pos + 1;
        let e = run_end(ts, s, true);
        proof {
            lemma_run_end_bounds(ts, s, true);
        }
        if e <= s {
            Err(TArgsError::MissingName)
        } else if is_punct_at(ts, e, '=') {
            let v = e + 1;
            if v >= ts.len() {
                Err(TArgsError::MissingReplacement)
            } else {
                let ve = run_end(ts, v, false);
                proof {
                    lemma_run_end_bounds(ts, v, false);
                }
                let value = if ve <= v { None } else { Some(Span { start: v as usize, end: ve as usize }) };
                let r = Replacement { name: Span { start: s as usize, end: e as usize }, value };
                match parse_replacements(ts, ve) {
                    Ok(rest) => Ok(seq![r] + rest),
                    Err(err) => Err(err),
                }
            }
        } else {
            let r = Replacement { name: Span { start: s as usize, end: e as usize }, value: None };
            match parse_replacements(ts, e) {
                Ok(rest) => Ok(seq![r] + rest),
                Err(err) => Err(err),
            }
        }
    }
}

/// The meaning of the arguments of `t!`.
pub open spec fn spec_parse_t(ts: Seq<TokenView>) -> Result<TArgsView, TArgsError> {
    let e0 = run_end(ts, 0, false);
    if e0 <= 0 || is_punct_at(ts, 0, '=') {
        Err(TArgsError::MissingLocale)
    } else if !is_punct_at(ts, e0, ',') {
        Err(TArgsError::MissingCommaAfterLocale)
    } else if e0 + 1 >= ts.len() || !(ts[e0 + 1] is Literal) {
        Err(TArgsError::MissingKey)
    } else {
        match parse_replacements(ts, e0 + 2) {
            Ok(reps) => Ok(TArgsView {
                locale: Span { start: 0, end: e0 as usize },
                key: trimmed(ts[e0 + 1]->Literal_0),
                replacements: reps,
            }),
            Err(err) => Err(err),
        }
    }
}

/// Where a replacement argument ends: after its value, after a bare `=`
/// when its value is empty, or after its name.
pub open spec fn arg_end(ts: Seq<TokenView>, r: Replacement) -> int {
    match r.value {
        Some(v) => v.end as int,
        None => if is_punct_at(ts, r.name.end as int, '=') {
            r.name.end + 1
        } else {
            r.name.end as int
        },
    }
}

/// `r` is one argument of `ts`: a non-empty name with no top-level `,` or
/// `=`, then, when it has a value, `=` and a non-empty value with no
/// top-level `,`; it is followed by a `,` or by the end of the input.
pub open spec fn argument_ok(ts: Seq<TokenView>, r: Replacement) -> bool {
    &&& r.name.start < r.name.end <= ts.len()
    &&& forall|j: int| r.name.start <= j < r.name.end ==> !is_separator(#[trigger] ts[j], true)
    &&& match r.value {
        Some(v) => {
            &&& is_punct_at(ts, r.name.end as int, '=')
            &&& v.start == r.name.end + 1
            &&& v.start < v.end <= ts.len()
            &&& forall|j: int| v.start <= j < v.end ==> !is_separator(#[trigger] ts[j], false)
        },
        None => is_punct_at(ts, r.name.end as int, '=') ==> arg_end(ts, r) < ts.len(),
    }
    &&& arg_end(ts, r) < ts.len() ==> is_punct_at(ts, arg_end(ts, r), ',')
}

/// The replacements `r` cover the tokens from `pos` on, argument by
/// argument: each follows a `,`, the first one at `pos`, each next one the
/// `,` that ends the one before; after the last one (or at `pos`, when
/// there is none) comes the end of the input or a final `,`.
pub open spec fn tiles(ts: Seq<TokenView>, pos: int, r: Seq<Replacement>) -> bool {
    &&& forall|i: int| 0 <= i < r.len() ==> argument_ok(ts, #[trigger] r[i])
    &&& forall|i: int| 0 <= i < r.len() ==> is_punct_at(ts, (#[trigger] r[i]).name.start - 1, ',')
    &&& r.len() > 0 ==> r[0].name.start == pos + 1
    &&& forall|i: int| 0 <= i < r.len() - 1 ==> (#[trigger] r[i + 1]).name.start == arg_end(ts, r[i]) + 1
    &&& ({
        let last = if r.len() == 0 { pos } else { arg_end(ts, r.last()) };
        last >= ts.len() || (last == ts.len() - 1 && is_punct_at(ts, last, ','))
    })
}

/// Every argument after position `pos` gives exactly one replacement, in
/// order, and together they cover the input to its end.
pub proof fn law_replacements_tile(ts: Seq<TokenView>, pos: int)
    requires
        0 <= pos,
        ts.len() <= usize::MAX,
    ensures
        parse_replacements(ts, pos) matches Ok(r) ==> tiles(ts, pos, r),
    decreases ts.len() - pos,
{
    if pos < ts.len() && is_punct_at(ts, pos, ',') && pos + 1 != ts.len() {
        let s = pos + 1;
        let e = run_end(ts, s, true);
        lemma_run_end_bounds(ts, s, true);
        if e > s {
            let next;
            let x;
            if is_punct_at(ts, e, '=') {
                let v = e + 1;
                if v >= ts.len() {
                    return;
                }
                let ve = run_end(ts, v, false);
                lemma_run_end_bounds(ts, v, false);
                let value = if ve <= v { None } else { Some(Span { start: v as usize, end: ve as usize }) };
                x = Replacement { name: Span { start: s as usize, end: e as usize }, value };
                next = ve;
            } else {
                x = Replacement { name: Span { start: s as usize, end: e as usize }, value: None };
                next = e;
            }
            assert(arg_end(ts, x) == next);
            law_replacements_tile(ts, next);
            if let Ok(rest) = parse_replacements(ts, next) {
                assert(next < ts.len() ==> is_punct_at(ts, next, ',')) by {
                    if rest.len() > 0 {
                        assert(is_punct_at(ts, rest[0].name.start - 1, ','));
                    }
                }
                assert(argument_ok(ts, x));
                lemma_tiles_cons(ts, pos, x, rest);
            }
        }
    }
}

proof fn lemma_tiles_cons(ts: Seq<TokenView>, pos: int, x: Replacement, rest: Seq<Replacement>)
    requires
        argument_ok(ts, x),
        is_punct_at(ts, pos, ','),
        x.name.start == pos + 1,
        tiles(ts, arg_end(ts, x), rest),
    ensures
        tiles(ts, pos, seq![x] + rest),
{
    let r = seq![x] + rest;
    assert(r[0] == x);
    assert forall|i: int| 0 <= i < rest.len() implies #[trigger] r[i + 1] == rest[i] by {}
    assert forall|i: int| 0 <= i < r.len() implies argument_ok(ts, #[trigger] r[i])
        && is_punct_at(ts, r[i].name.start - 1, ',') by {
        if i > 0 {
            assert(r[i] == rest[i - 1]);
        }
    }
    assert forall|i: int| 0 <= i < r.len() - 1 implies (#[trigger] r[i + 1]).name.start == arg_end(ts, r[i]) + 1 by {
        assert(r[i + 1] == rest[i]);
        if i > 0 {
            assert(r[i] == rest[i - 1]);
            let k = i - 1;
            assert(rest[k + 1].name.start == arg_end(ts, rest[k]) + 1);
        } else {
            assert(rest[0].name.start == arg_end(ts, x) + 1);
        }
    }
    if rest.len() > 0 {
        assert(r.last() == rest.last());
    }
}

/// The number of top-level `,` tokens from position `from` on.
pub open spec fn commas_from(ts: Seq<TokenView>, from: int) -> nat
    decreases ts.len() - from,
{
    if from < 0 || from >= ts.len() {
        0
    } else {
        commas_from(ts, from + 1) + if is_punct_at(ts, from, ',') { 1nat } else { 0nat }
    }
}

proof fn lemma_commas_skip(ts: Seq<TokenView>, a: int, b: int)
    requires
        0 <= a <= b <= ts.len(),
        forall|j: int| a <= j < b ==> !is_punct_at(ts, j, ','),
    ensures
        commas_from(ts, a) == commas_from(ts, b),
    decreases b - a,
{
    if a < b {
        assert(!is_punct_at(ts, a, ','));
        lemma_commas_skip(ts, a + 1, b);
    }
}

/// After the key, there is one replacement per `,`, but for a final `,`
/// that ends the input: the number of replacements is the number of
/// non-empty arguments that the commas part.
pub proof fn law_one_replacement_per_argument(ts: Seq<TokenView>, pos: int)
    requires
        0 <= pos,
        ts.len() <= usize::MAX,
    ensures
        parse_replacements(ts, pos) matches Ok(r) ==> commas_from(ts, pos)
            == r.len() + if pos < ts.len() && is_punct_at(ts, ts.len() - 1, ',') { 1nat } else { 0nat },
    decreases ts.len() - pos,
{
    if pos < ts.len() && is_punct_at(ts, pos, ',') {
        if pos + 1 == ts.len() {
            assert(commas_from(ts, pos + 1) == 0);
        } else {
            let s = pos + 1;
            let e = run_end(ts, s, true);
            lemma_run_end_bounds(ts, s, true);
            if e > s {
                assert forall|j: int| s <= j < e implies !is_punct_at(ts, j, ',') by {
                    assert(!is_separator(ts[j], true));
                }
                lemma_commas_skip(ts, s, e);
                if is_punct_at(ts, e, '=') {
                    let v = e + 1;
                    if v < ts.len() {
                        let ve = run_end(ts, v, false);
                        lemma_run_end_bounds(ts, v, false);
                        assert forall|j: int| v <= j < ve implies !is_punct_at(ts, j, ',') by {
                            assert(!is_separator(ts[j], false));
                        }
                        lemma_commas_skip(ts, v, ve);
                        assert(commas_from(ts, e) == commas_from(ts, v));
                        law_one_replacement_per_argument(ts, ve);
                    }
                } else {
                    law_one_replacement_per_argument(ts, e);
                }
            }
        }
    }
}

/// The arguments of `t!` cover its input: the locale runs up to the first
/// top-level `,`, the key is the literal after it, and the replacements
/// cover every argument after the key (see `tiles`).
pub proof fn law_parse_t_covers_input(ts: Seq<TokenView>)
    requires
        ts.len() <= usize::MAX,
    ensures
        spec_parse_t(ts) matches Ok(a) ==> {
            &&& a.locale.start == 0 < a.locale.end
            &&& forall|j: int| 0 <= j < a.locale.end ==> !is_separator(#[trigger] ts[j], false)
            &&& is_punct_at(ts, a.locale.end as int, ',')
            &&& a.locale.end + 1 < ts.len()
            &&& (ts[a.locale.end + 1] matches TokenView::Literal(k) && a.key == trimmed(k))
            &&& tiles(ts, a.locale.end + 2, a.replacements)
        },
{
    lemma_run_end_bounds(ts, 0, false);
    let e0 = run_end(ts, 0, false);
    if e0 > 0 {
        law_replacements_tile(ts, e0 + 2);
    }
}

/// `run_end` stays within the tokens and stops exactly at the first separator.
pub proof fn lemma_run_end_bounds(ts: Seq<TokenView>, pos: int, eq: bool)
    requires
        0 <= pos <= ts.len(),
    ensures
        pos <= run_end(ts, pos, eq) <= ts.len(),
        run_end(ts, pos, eq) < ts.len() ==> is_separator(ts[run_end(ts, pos, eq)], eq),
        forall|j: int| pos <= j < run_end(ts, pos, eq) ==> !is_separator(#[trigger] ts[j], eq),
    decreases ts.len() - pos,
{
    if pos < ts.len() && !is_separator(ts[pos], eq) {
        lemma_run_end_bounds(ts, pos + 1, eq);
    }
}

proof fn lemma_run_end_step(ts: Seq<TokenView>, pos: int, j: int, eq: bool)
    requires
        0 <= pos <= j <= ts.len(),
        forall|k: int| pos <= k < j ==> !is_separator(#[trigger] ts[k], eq),
    ensures
        run_end(ts, pos, eq) == run_end(ts, j, eq),
    decreases j - pos,
{
    if pos < j {
        lemma_run_end_step(ts, pos + 1, j, eq);
    }
}

/// Whether `t` is `,`, or `=` when `eq`.
fn is_separator_token(t: &Token, eq: bool) -> (res: bool)
    ensures
        res == is_separator(t@, eq),
{
    match t {
        Token::Punct(c) => *c == ',' || (eq && *c == '='),
        _ => false,
    }
}

/// Whether token `pos` is the punctuation `c`.
pub fn next_is(tokens: &Vec<Token>, pos: usize, c: char) -> (res: bool)
    ensures
        res == is_punct_at(tokens_view(tokens@), pos as int, c),
{
    if pos < tokens.len() {
        match &tokens[pos] {
            Token::Punct(d) => *d == c,
            _ => false,
        }
    } else {
        false
    }
}

/// The run of tokens from `pos` up to the next top-level `,` (or `=` when
/// `stop_at_eq`), or `None` when it is empty.
pub fn until_comma(tokens: &Vec<Token>, pos: usize, stop_at_eq: bool) -> (res: Option<Span>)
    requires
        pos <= tokens.len(),
    ensures
        ({
            let e = run_end(tokens_view(tokens@), pos as int, stop_at_eq);
            match res {
                None => e == pos,
                Some(span) => span.start == pos && span.end == e && e > pos,
            }
        }),
{
    let ghost ts = tokens_view(tokens@);
    let mut i = pos;
    while i < tokens.len() && !is_separator_token(&tokens[i], stop_at_eq)
        invariant
            pos <= i <= tokens.len(),
            ts == tokens_view(tokens@),
            forall|k: int| pos <= k < i ==> !is_separator(#[trigger] ts[k], stop_at_eq),
        decreases tokens.len() - i,
    {
        i = i + 1;
    }
    proof {
        lemma_run_end_step(ts, pos as int, i as int, stop_at_eq);
        if i < tokens.len() {
            assert(ts[i as int] == tokens@[i as int]@);
        }
    }
    if i == pos {
        None
    } else {
        Some(Span { start: pos, end: i })
    }
}

/// Prepends `acc` to the successful outcome of a parse.
pub open spec fn prepend_ok(acc: Seq<Replacement>, r: Result<Seq<Replacement>, TArgsError>) -> Result<Seq<Replacement>, TArgsError> {
    match r {
        Ok(rest) => Ok(acc + rest),
        Err(e) => Err(e),
    }
}

/// A literal's text without its surrounding quotes, when it opens with `"`.
pub fn literal_trim(text: &String) -> (res: String)
    requires
        literal_text_wf(text@),
    ensures
        res@ == trimmed(text@),
{
    let chars = chars_of(text.as_str());
    if chars.len() >= 2 && chars[0] == '"' {
        string_of_range(&chars, 1, chars.len() - 1)
    } else {
        string_of_range(&chars, 0, chars.len())
    }
}

/// The trimmed text of token `pos` when it is a literal, else `None`.
pub fn literal_string(tokens: &Vec<Token>, pos: usize) -> (res: Option<String>)
    requires
        tokens_wf(tokens_view(tokens@)),
    ensures
        match res {
            Some(s) => pos < tokens.len() && (tokens@[pos as int]@ matches TokenView::Literal(t) && s@ == trimmed(t)),
            None => pos >= tokens.len() || !(tokens@[pos as int]@ is Literal),
        },
{
    if pos < tokens.len() {
        match &tokens[pos] {
            Token::Literal(t) => {
                proof {
                    assert(tokens_view(tokens@)[pos as int] == tokens@[pos as int]@);
                }
                Some(literal_trim(t))
            },
            _ => None,
        }
    } else {
        None
    }
}

/// Parses the arguments of `t!`: the locale tokens, the key (a literal,
/// unquoted) and the replacement arguments, or the first error met.
pub fn parse_t(tokens: &Vec<Token>) -> (res: Result<TArgs, TArgsError>)
    requires
        tokens_wf(tokens_view(tokens@)),
    ensures
        match res {
            Ok(a) => spec_parse_t(tokens_view(tokens@)) == Ok::<TArgsView, TArgsError>(a@),
            Err(e) => spec_parse_t(tokens_view(tokens@)) == Err::<TArgsView, TArgsError>(e),
        },
{
    let ghost ts = tokens_view(tokens@);
    assert(ts.len() == tokens.len());
    if next_is(tokens, 0, '=') {
        return Err(TArgsError::MissingLocale);
    }
    let locale = match until_comma(tokens, 0, false) {
        Some(span) => span,
        None => return Err(TArgsError::MissingLocale),
    };
    if !next_is(tokens, locale.end, ',') {
        return Err(TArgsError::MissingCommaAfterLocale);
    }
    let key = match literal_string(tokens, locale.end + 1) {
        Some(k) => k,
        None => return Err(TArgsError::MissingKey),
    };
    let start = locale.end + 2;
    let mut pos = start;
    assert(spec_parse_t(ts) == match parse_replacements(ts, start as int) {
        Ok(r) => Ok(TArgsView { locale, key: key@, replacements: r }),
        Err(e) => Err::<TArgsView, TArgsError>(e),
    });
    let mut reps: Vec<Replacement> = Vec::new();
    proof {
        lemma_run_end_bounds(ts, 0, false);
    }
    while pos < tokens.len()
        invariant
            ts == tokens_view(tokens@),
            start <= pos <= tokens.len(),
            spec_parse_t(ts) == match parse_replacements(ts, start as int) {
                Ok(r) => Ok(TArgsView { locale, key: key@, replacements: r }),
                Err(e) => Err::<TArgsView, TArgsError>(e),
            },
            parse_replacements(ts, start as int) == prepend_ok(reps@, parse_replacements(ts, pos as int)),
        decreases tokens.len() - pos,
    {
        if !next_is(tokens, pos, ',') {
            return Err(TArgsError::MissingComma);
        }
        if pos + 1 == tokens.len() {
            proof {
                assert(reps@ + Seq::<Replacement>::empty() == reps@);
            }
            pos = tokens.len();
        } else {
            let s = pos + 1;
            proof {
                lemma_run_end_bounds(ts, s as int, true);
            }
            let name = match until_comma(tokens, s, true) {
                Some(span) => span,
                None => return Err(TArgsError::MissingName),
            };
            let r;
            if next_is(tokens, name.end, '=') {
                let v = name.end + 1;
                if v >= tokens.len() {
                    return Err(TArgsError::MissingReplacement);
                }
                proof {
                    lemma_run_end_bounds(ts, v as int, false);
                }
                let value = until_comma(tokens, v, false);
                r = Replacement { name, value };
                pos = match value {
                    Some(span) => span.end,
                    None => v,
                };
            } else {
                r = Replacement { name, value: None };
                pos = name.end;
            }
            let ghost old_reps = reps@;
            reps.push(r);
            proof {
                match parse_replacements(ts, pos as int) {
                    Ok(rest) => {
                        assert(old_reps + (seq![r] + rest) == reps@ + rest);
                    },
                    Err(e) => {},
                }
            }
        }
    }
    proof {
        assert(reps@ + Seq::<Replacement>::empty() == reps@);
    }
    Ok(TArgs { locale, key, replacements: reps })
}

} // verus!
