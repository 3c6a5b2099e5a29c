//! What `t!` expands to, decided from its arguments and the catalog: the
//! replacement values to bind, and the split translation to build at run
//! time, one per locale when the locale is only known at run time.

use vstd::prelude::*;
use crate::args::{
    Token, TokenView, Span, Replacement, TArgsError, tokens_view, tokens_wf, trimmed, literal_trim, literal_text_wf,
    parse_t, spec_parse_t,
};
use crate::template::{TemplatePlan, PartView, plan, plan_template, parts_view, placeholders_nonempty, render, piece_ok, law_plan_reassembles, law_plan_replaces_every_placeholder};
use crate::table::{Catalog, Translations};
use crate::args::{parse_replacements, run_end, lemma_run_end_bounds, is_punct_at};
use crate::literal::{string_literal_value, needs_no_escape};
use crate::text::{chars_of, string_of_range, strings_view, push_char};

verus! {

/// The text a token contributes to a placeholder's name: a literal without
/// its quotes, a punctuation's character, an identifier or a group as
/// written.
pub open spec fn token_text(t: TokenView) -> Seq<char> {
    match t {
        TokenView::Literal(s) => trimmed(s),
        TokenView::Punct(c) => seq![c],
        TokenView::Ident(s) => s,
        TokenView::Group(s) => s,
    }
}

/// The texts of tokens `start..end`, one after the other.
pub open spec fn joined(ts: Seq<TokenView>, start: int, end: int) -> Seq<char>
    decreases end - start,
{
    if end <= start {
        Seq::empty()
    } else {
        joined(ts, start, end - 1) + token_text(ts[end - 1])
    }
}

/// The texts of the tokens in `span`, one after the other.
pub fn joined_text(tokens: &Vec<Token>, span: Span) -> (res: String)
    requires
        span.start <= span.end <= tokens.len(),
        tokens_wf(tokens_view(tokens@)),
    ensures
        res@ == joined(tokens_view(tokens@), span.start as int, span.end as int),
{
    let ghost ts = tokens_view(tokens@);
    let mut res = String::new();
    let mut i = span.start;
    while i < span.end
        invariant
            span.start <= i <= span.end <= tokens.len(),
            ts == tokens_view(tokens@),
            tokens_wf(ts),
            res@ == joined(ts, span.start as int, i as int),
        decreases span.end - i,
    {
        proof {
            assert(ts[i as int] == tokens@[i as int]@);
        }
        match &tokens[i] {
            Token::Literal(s) => {
                let t = literal_trim(s);
                res.append(t.as_str());
            },
            Token::Punct(c) => {
                push_char(&mut res, *c);
            },
            Token::Ident(s) => {
                res.append(s.as_str());
            },
            Token::Group(s) => {
                res.append(s.as_str());
            },
        }
        proof {
            assert(res@ =~= joined(ts, span.start as int, i as int + 1));
        }
        i = i + 1;
    }
    res
}

/// `proc_macro2::Literal::string(content).to_string()`: the source text of
/// a string literal whose value is `content`.
///
/// Claimed: the text is a string literal (it opens and closes with `"`)
/// whose value, its escapes decoded, is `content`; and when `content` is
/// printable ASCII with no `"` or `\`, the text is `content` itself between
/// quotes. Outside a running procedural macro `proc_macro2` writes each
/// character with `char::escape_debug` (`'` kept, `\0` or `\x00` for NUL);
/// inside one the compiler's `proc_macro::Literal::string` does the same
/// (`"` escaped, `'` kept) and prints the text between quotes. Left unsaid:
/// which escape each other character gets.
#[verifier::external_body]
fn string_literal_source(content: &str) -> (res: String)
    ensures
        res@.len() >= 2,
        res@[0] == '"',
        res@.last() == '"',
        string_literal_value(res@) == Some(content@),
        needs_no_escape(content@) ==> res@ == seq!['"'] + content@ + seq!['"'],
{
    proc_macro2::Literal::string(content).to_string()
}

/// The source text of the string literal whose value is the tokens in
/// `span`, their texts joined (see `joined`): those texts themselves between
/// quotes when they are printable ASCII with no `"` or `\`, as an
/// identifier is.
pub fn into_literal(tokens: &Vec<Token>, span: Span) -> (res: String)
    requires
        span.start <= span.end <= tokens.len(),
        tokens_wf(tokens_view(tokens@)),
    ensures
        res@.len() >= 2,
        res@[0] == '"',
        res@.last() == '"',
        string_literal_value(res@) == Some(joined(tokens_view(tokens@), span.start as int, span.end as int)),
        needs_no_escape(joined(tokens_view(tokens@), span.start as int, span.end as int))
            ==> res@ == seq!['"'] + joined(tokens_view(tokens@), span.start as int, span.end as int) + seq!['"'],
{
    let content = joined_text(tokens, span);
    string_literal_source(content.as_str())
}

/// `{{name}}`.
pub open spec fn spec_placeholder(name: Seq<char>) -> Seq<char> {
    seq!['{', '{'] + name + seq!['}', '}']
}

/// The placeholder named by a string literal's source text: `{{` and `}}`
/// around the text without its quotes.
pub fn placeholder(literal_source: &String) -> (res: String)
    requires
        literal_text_wf(literal_source@),
    ensures
        res@ == spec_placeholder(trimmed(literal_source@)),
{
    let name = literal_trim(literal_source);
    let mut res = String::new();
    push_char(&mut res, '{');
    push_char(&mut res, '{');
    res.append(name.as_str());
    push_char(&mut res, '}');
    push_char(&mut res, '}');
    assert(res@ =~= spec_placeholder(trimmed(literal_source@)));
    res
}

/// `s` has the shape `{{…}}`.
pub open spec fn is_placeholder_shape(s: Seq<char>) -> bool {
    &&& s.len() >= 4
    &&& s[0] == '{' && s[1] == '{'
    &&& s[s.len() - 2] == '}' && s[s.len() - 1] == '}'
}

/// The name inside a placeholder `{{name}}`.
pub open spec fn placeholder_name(p: Seq<char>) -> Seq<char> {
    p.subrange(2, p.len() - 2)
}

/// `p` is `{{x}}` where `"x"` is a string literal whose value is `name`: the
/// placeholder named by the text `name`.
pub open spec fn names_placeholder(p: Seq<char>, name: Seq<char>) -> bool {
    &&& is_placeholder_shape(p)
    &&& string_literal_value(seq!['"'] + placeholder_name(p) + seq!['"']) == Some(name)
}

/// A replacement argument made ready for the expansion: the placeholder it
/// fills and the tokens of the value that fills it.
#[derive(Debug, PartialEq, Eq)]
pub struct Binding {
    pub placeholder: String,
    pub value: Span,
}

/// The spans of the replacements lie within `n` tokens.
pub open spec fn replacements_within(reps: Seq<Replacement>, n: int) -> bool {
    forall|i: int| 0 <= i < reps.len() ==> {
        let r = #[trigger] reps[i];
        &&& r.name.start <= r.name.end <= n
        &&& (r.value matches Some(v) ==> v.start <= v.end <= n)
    }
}

/// The tokens that give a replacement its value: those after `=`, or the
/// name itself.
pub open spec fn value_span(r: Replacement) -> Span {
    match r.value {
        Some(v) => v,
        None => r.name,
    }
}

/// The placeholders of the bindings, as values.
pub open spec fn binding_placeholders(b: Seq<Binding>) -> Seq<Seq<char>> {
    b.map_values(|x: Binding| x.placeholder@)
}

/// Every placeholder has the shape `{{…}}`, so none is empty.
pub proof fn lemma_shapes_nonempty(b: Seq<Binding>)
    requires
        forall|i: int| 0 <= i < b.len() ==> is_placeholder_shape((#[trigger] b[i]).placeholder@),
    ensures
        placeholders_nonempty(binding_placeholders(b)),
{
    assert forall|j: int| 0 <= j < binding_placeholders(b).len() implies (#[trigger] binding_placeholders(b)[j]).len() > 0 by {
        assert(is_placeholder_shape(b[j].placeholder@));
    }
}

/// The bindings of the replacement arguments, in order: each fills the
/// placeholder named by its name's tokens (their texts joined, written as
/// the inside of a string literal), with the tokens of its value (or of its
/// name when it has no `= value`).
pub fn replacement_bindings(tokens: &Vec<Token>, replacements: &Vec<Replacement>) -> (res: Vec<Binding>)
    requires
        tokens_wf(tokens_view(tokens@)),
        replacements_within(replacements@, tokens.len() as int),
    ensures
        res.len() == replacements.len(),
        forall|i: int| 0 <= i < res.len() ==> (#[trigger] res@[i]).value == value_span(replacements@[i]),
        forall|i: int| 0 <= i < res.len() ==> is_placeholder_shape((#[trigger] res@[i]).placeholder@),
        forall|i: int| 0 <= i < res.len() ==> names_placeholder(
            (#[trigger] res@[i]).placeholder@,
            joined(tokens_view(tokens@), replacements@[i].name.start as int, replacements@[i].name.end as int),
        ),
        forall|i: int| 0 <= i < res.len()
            && needs_no_escape(joined(tokens_view(tokens@), replacements@[i].name.start as int, replacements@[i].name.end as int))
            ==> (#[trigger] res@[i]).placeholder@
            == spec_placeholder(joined(tokens_view(tokens@), replacements@[i].name.start as int, replacements@[i].name.end as int)),
{
    let mut res: Vec<Binding> = Vec::new();
    let mut i: usize = 0;
    while i < replacements.len()
        invariant
            i <= replacements.len(),
            tokens_wf(tokens_view(tokens@)),
            replacements_within(replacements@, tokens.len() as int),
            res.len() == i,
            forall|k: int| 0 <= k < i ==> (#[trigger] res@[k]).value == value_span(replacements@[k]),
            forall|k: int| 0 <= k < i ==> is_placeholder_shape((#[trigger] res@[k]).placeholder@),
            forall|k: int| 0 <= k < i ==> names_placeholder(
                (#[trigger] res@[k]).placeholder@,
                joined(tokens_view(tokens@), replacements@[k].name.start as int, replacements@[k].name.end as int),
            ),
            forall|k: int| 0 <= k < i
                && needs_no_escape(joined(tokens_view(tokens@), replacements@[k].name.start as int, replacements@[k].name.end as int))
                ==> (#[trigger] res@[k]).placeholder@
                == spec_placeholder(joined(tokens_view(tokens@), replacements@[k].name.start as int, replacements@[k].name.end as int)),
        decreases replacements.len() - i,
    {
        let r = replacements[i];
        proof {
            assert(r == replacements@[i as int]);
        }
        let source = into_literal(tokens, r.name);
        let placeholder = placeholder(&source);
        proof {
            let inner = trimmed(source@);
            assert(source@ =~= seq!['"'] + inner + seq!['"']);
            assert(placeholder_name(placeholder@) =~= inner);
        }
        let value = match r.value {
            Some(v) => v,
            None => r.name,
        };
        res.push(Binding { placeholder, value });
        i = i + 1;
    }
    res
}

/// The value of a locale given as one string literal token, read between
/// its quotes as written (escapes are not decoded).
pub open spec fn spec_string_literal(ts: Seq<TokenView>, span: Span) -> Option<Seq<char>> {
    if span.end == span.start + 1 && span.end <= ts.len() && ts[span.start as int] is Literal {
        let s = ts[span.start as int]->Literal_0;
        if s.len() >= 2 && s[0] == '"' {
            Some(s.subrange(1, s.len() - 1))
        } else {
            None
        }
    } else {
        None
    }
}

/// The locale, when the tokens in `span` are a single string literal.
pub fn string_literal(tokens: &Vec<Token>, span: Span) -> (res: Option<String>)
    requires
        span.start <= span.end <= tokens.len(),
        tokens_wf(tokens_view(tokens@)),
    ensures
        opt_string_view(res) == spec_string_literal(tokens_view(tokens@), span),
{
    if span.end <= span.start || span.end - span.start != 1 {
        return None;
    }
    proof {
        assert(tokens_view(tokens@)[span.start as int] == tokens@[span.start as int]@);
    }
    match &tokens[span.start] {
        Token::Literal(s) => {
            let c = chars_of(s.as_str());
            if c.len() >= 2 && c[0] == '"' {
                Some(string_of_range(&c, 1, c.len() - 1))
            } else {
                None
            }
        },
        _ => None,
    }
}

/// An optional string, as a value.
pub open spec fn opt_string_view(o: Option<String>) -> Option<Seq<char>> {
    match o {
        Some(s) => Some(s@),
        None => None,
    }
}

/// What an arm of the locale dispatch builds.
#[derive(Debug, PartialEq, Eq)]
pub enum ArmBody {
    /// The translation into the fallback locale, shared with the catch-all.
    Default,
    /// This split translation.
    Plan(TemplatePlan),
}

/// One arm of the locale dispatch: the locale it matches and what it
/// builds.
#[derive(Debug, PartialEq, Eq)]
pub struct Arm {
    pub locale: String,
    pub body: ArmBody,
}

/// The string `t!` builds.
#[derive(Debug, PartialEq, Eq)]
pub enum Localized {
    /// The locale is a string literal: this split translation.
    Fixed(TemplatePlan),
    /// The locale is known at run time: the arm whose locale equals it, or
    /// the fallback translation when no arm does.
    Dispatch { default: TemplatePlan, arms: Vec<Arm> },
}

/// Why a translation could not be chosen.
#[derive(Clone, Copy, PartialEq, Eq, Structural, Debug)]
pub enum LocalizeError {
    /// The key has no translation into the fallback locale.
    MissingDefault,
}

/// The translation used for locale `l`: its own, or the fallback locale's
/// when it has none.
pub open spec fn selected(tr: Map<Seq<char>, Seq<char>>, default: Seq<char>, l: Seq<char>) -> Seq<char> {
    if tr.dom().contains(l) {
        tr[l]
    } else {
        tr[default]
    }
}

/// The pieces that the first arm matching `l` builds, or `default` when
/// no arm matches.
pub open spec fn arm_parts(arms: Seq<Arm>, l: Seq<char>, default: Seq<PartView>) -> Seq<PartView>
    decreases arms.len(),
{
    if arms.len() == 0 {
        default
    } else if arms[0].locale@ == l {
        match arms[0].body {
            ArmBody::Default => default,
            ArmBody::Plan(p) => parts_view(p.parts@),
        }
    } else {
        arm_parts(arms.drop_first(), l, default)
    }
}

/// The pieces that the expansion builds when the locale is `l`.
pub open spec fn chosen_parts(loc: Localized, l: Seq<char>) -> Seq<PartView> {
    match loc {
        Localized::Fixed(p) => parts_view(p.parts@),
        Localized::Dispatch { default, arms } => arm_parts(arms@, l, parts_view(default.parts@)),
    }
}

/// A plan's byte count is that of its literal pieces.
pub open spec fn plan_consistent(p: TemplatePlan) -> bool {
    p.literal_len == crate::template::text_bytes(parts_view(p.parts@))
}

/// Every plan in `loc` has a consistent byte count.
pub open spec fn localized_consistent(loc: Localized) -> bool {
    match loc {
        Localized::Fixed(p) => plan_consistent(p),
        Localized::Dispatch { default, arms } => plan_consistent(default) && forall|i: int| 0 <= i < arms@.len() ==>
            ((#[trigger] arms@[i]).body matches ArmBody::Plan(p) ==> plan_consistent(p)),
    }
}

proof fn lemma_arm_parts(arms: Seq<Arm>, l: Seq<char>, default: Seq<PartView>, i: int)
    requires
        0 <= i <= arms.len(),
        forall|k: int| 0 <= k < i ==> (#[trigger] arms[k]).locale@ != l,
        i < arms.len() ==> arms[i].locale@ == l,
    ensures
        arm_parts(arms, l, default) == if i == arms.len() {
            default
        } else {
            match arms[i].body {
                ArmBody::Default => default,
                ArmBody::Plan(p) => parts_view(p.parts@),
            }
        },
    decreases i,
{
    if i > 0 {
        assert forall|k: int| 0 <= k < i - 1 implies (#[trigger] arms.drop_first()[k]).locale@ != l by {
            assert(arms.drop_first()[k] == arms[k + 1]);
        }
        lemma_arm_parts(arms.drop_first(), l, default, i - 1);
        assert(arms[0].locale@ != l);
    }
}

/// `loc` builds, for every locale, the split of the translation that
/// `selected` picks: a fixed split for a literal locale, else one arm per
/// locale of `tr` in order, the fallback locale's arm sharing the fallback
/// split.
pub open spec fn localized_meets(
    loc: Localized,
    tr: Translations,
    literal: Option<Seq<char>>,
    default: Seq<char>,
    ph: Seq<Seq<char>>,
) -> bool {
    &&& localized_consistent(loc)
    &&& match literal {
        Some(l) => loc is Fixed && chosen_parts(loc, l) == plan(selected(tr@, default, l), 0, ph),
        None => {
            &&& loc is Dispatch
            &&& forall|l: Seq<char>| #[trigger] chosen_parts(loc, l) == plan(selected(tr@, default, l), 0, ph)
            &&& loc->Dispatch_arms@.map_values(|a: Arm| a.locale@) == tr.key_order()
            &&& forall|i: int| 0 <= i < loc->Dispatch_arms@.len() ==>
                ((#[trigger] loc->Dispatch_arms@[i]).body is Default <==> loc->Dispatch_arms@[i].locale@ == default)
        },
    }
}

/// Chooses and splits the translation for the locale: with a literal
/// locale, that locale's translation (the fallback's when it has none);
/// otherwise one arm per locale of `translations`, in order, the fallback
/// locale's arm sharing the fallback translation. Fails when there is no
/// translation into the fallback locale.
pub fn localized_string(
    translations: &Translations,
    literal_locale: &Option<String>,
    default_locale: &String,
    placeholders: &Vec<String>,
) -> (res: Result<Localized, LocalizeError>)
    requires
        translations.wf(),
        placeholders_nonempty(strings_view(placeholders@)),
    ensures
        res is Err <==> !translations@.dom().contains(default_locale@),
        res matches Ok(loc) ==> localized_meets(loc, *translations, opt_string_view(*literal_locale), default_locale@, strings_view(placeholders@)),
{
    let ghost ph = strings_view(placeholders@);
    let def = match translations.get(default_locale.as_str()) {
        Some(v) => v,
        None => return Err(LocalizeError::MissingDefault),
    };
    match literal_locale {
        Some(l) => {
            let text = match translations.get(l.as_str()) {
                Some(v) => v,
                None => def,
            };
            let p = plan_template(text.as_str(), placeholders);
            Ok(Localized::Fixed(p))
        },
        None => {
            let default = plan_template(def.as_str(), placeholders);
            proof {
                translations.lemma_key_order();
            }
            let ghost ks = translations.key_order();
            let mut arms: Vec<Arm> = Vec::new();
            let mut i: usize = 0;
            while i < translations.len()
                invariant
                    translations.wf(),
                    ks == translations.key_order(),
                    i <= ks.len(),
                    ph == strings_view(placeholders@),
                    placeholders_nonempty(ph),
                    arms@.len() == i,
                    forall|k: int| 0 <= k < i ==> (#[trigger] arms@[k]).locale@ == ks[k],
                    forall|k: int| 0 <= k < i ==> ((#[trigger] arms@[k]).body is Default <==> ks[k] == default_locale@),
                    forall|k: int| 0 <= k < i ==> ((#[trigger] arms@[k]).body matches ArmBody::Plan(p) ==> (plan_consistent(p)
                        && parts_view(p.parts@) == plan(translations.value_at_spec(k)@, 0, ph))),
                decreases ks.len() - i,
            {
                let name = translations.key_at(i).clone();
                let body = if name == *default_locale {
                    ArmBody::Default
                } else {
                    ArmBody::Plan(plan_template(translations.value_at(i).as_str(), placeholders))
                };
                arms.push(Arm { locale: name, body });
                i = i + 1;
            }
            let loc = Localized::Dispatch { default, arms };
            proof {
                assert(arms@.map_values(|a: Arm| a.locale@) =~= ks);
                assert forall|l: Seq<char>| #[trigger] chosen_parts(loc, l) == plan(selected(translations@, default_locale@, l), 0, ph) by {
                    if translations@.dom().contains(l) {
                        assert(ks.contains(l));
                        let k = choose|k: int| 0 <= k < ks.len() && ks[k] == l;
                        assert forall|m: int| 0 <= m < k implies (#[trigger] arms@[m]).locale@ != l by {
                            assert(ks[m] != ks[k]);
                        }
                        lemma_arm_parts(arms@, l, parts_view(default.parts@), k);
                        assert(translations@[ks[k]] == translations.value_at_spec(k)@);
                    } else {
                        assert forall|m: int| 0 <= m < arms@.len() implies (#[trigger] arms@[m]).locale@ != l by {
                            assert(ks.contains(ks[m]));
                        }
                        lemma_arm_parts(arms@, l, parts_view(default.parts@), arms@.len() as int);
                    }
                }
            }
            Ok(loc)
        },
    }
}

proof fn lemma_replacements_within(ts: Seq<TokenView>, pos: int)
    requires
        0 <= pos,
        ts.len() <= usize::MAX,
    ensures
        parse_replacements(ts, pos) matches Ok(r) ==> replacements_within(r, ts.len() as int),
    decreases ts.len() - pos,
{
    if 0 <= pos < ts.len() && is_punct_at(ts, pos, ',') && pos + 1 != ts.len() {
        let s = pos + 1;
        let e = run_end(ts, s, true);
        lemma_run_end_bounds(ts, s, true);
        if e > s {
            if is_punct_at(ts, e, '=') {
                let v = e + 1;
                if v < ts.len() {
                    let ve = run_end(ts, v, false);
                    lemma_run_end_bounds(ts, v, false);
                    lemma_replacements_within(ts, ve);
                    if let Ok(rest) = parse_replacements(ts, ve) {
                        let r = parse_replacements(ts, pos)->Ok_0;
                        assert forall|i: int| 0 <= i < r.len() implies {
                            let x = #[trigger] r[i];
                            &&& x.name.start <= x.name.end <= ts.len()
                            &&& (x.value matches Some(vs) ==> vs.start <= vs.end <= ts.len())
                        } by {
                            if i > 0 {
                                assert(r[i] == rest[i - 1]);
                            }
                        }
                    }
                }
            } else {
                lemma_replacements_within(ts, e);
                if let Ok(rest) = parse_replacements(ts, e) {
                    let r = parse_replacements(ts, pos)->Ok_0;
                    assert forall|i: int| 0 <= i < r.len() implies {
                        let x = #[trigger] r[i];
                        &&& x.name.start <= x.name.end <= ts.len()
                        &&& (x.value matches Some(vs) ==> vs.start <= vs.end <= ts.len())
                    } by {
                        if i > 0 {
                            assert(r[i] == rest[i - 1]);
                        }
                    }
                }
            }
        }
    }
}

/// The parsed arguments' spans lie within the tokens.
pub proof fn lemma_parse_t_within(ts: Seq<TokenView>)
    requires
        ts.len() <= usize::MAX,
    ensures
        spec_parse_t(ts) matches Ok(a) ==> a.locale.start <= a.locale.end <= ts.len()
            && replacements_within(a.replacements, ts.len() as int),
{
    lemma_run_end_bounds(ts, 0, false);
    let e0 = run_end(ts, 0, false);
    if e0 > 0 {
        lemma_replacements_within(ts, e0 + 2);
    }
}

/// How generated code names this library.
#[derive(Debug, PartialEq, Eq)]
pub enum FoundCrate {
    /// The code is inside this library.
    Itself,
    /// The library is a dependency under this name.
    Name(String),
}

/// The path that generated code uses for this library.
#[derive(Debug, PartialEq, Eq)]
pub enum CratePath {
    /// `crate`.
    Itself,
    /// `::name`.
    Absolute(String),
}

/// The path for the library: `crate` inside it, `::name` under the name it
/// was found under, `::localization` when it was not found.
pub fn runtime_crate(found: Option<FoundCrate>) -> (res: CratePath)
    ensures
        match found {
            Some(FoundCrate::Itself) => res is Itself,
            Some(FoundCrate::Name(n)) => res matches CratePath::Absolute(p) && p@ == n@,
            None => res matches CratePath::Absolute(p) && p@ == "localization"@,
        },
{
    match found {
        Some(FoundCrate::Itself) => CratePath::Itself,
        Some(FoundCrate::Name(n)) => CratePath::Absolute(n),
        None => CratePath::Absolute(String::from_str("localization")),
    }
}

/// Why `t!` could not expand.
#[derive(Debug, PartialEq, Eq)]
pub enum TError {
    /// The arguments do not parse.
    Args(TArgsError),
    /// The catalog has no such key.
    KeyNotFound(String),
    /// The key has no translation into the fallback locale.
    MissingDefault,
}

/// What `t!` expands to: the locale expression's tokens, the bindings of
/// the replacement values, and the string to build.
#[derive(Debug, PartialEq, Eq)]
pub struct Expansion {
    pub locale: Span,
    pub bindings: Vec<Binding>,
    pub body: Localized,
}

/// What `t` gives for the tokens `ts`: the parse error; `KeyNotFound` when
/// the catalog lacks the key; `MissingDefault` when the key has no
/// translation into the fallback locale `default`; otherwise the locale's
/// tokens, one binding per replacement (its value's tokens, the placeholder
/// its name's tokens name) and the chosen, split translation.
pub open spec fn t_outcome(catalog: Catalog, default: Seq<char>, ts: Seq<TokenView>, res: Result<Expansion, TError>) -> bool {
    match spec_parse_t(ts) {
        Err(e) => res matches Err(TError::Args(f)) && f == e,
        Ok(a) => if !catalog@.dom().contains(a.key) {
            res matches Err(TError::KeyNotFound(k)) && k@ == a.key
        } else if !catalog@[a.key].dom().contains(default) {
            res matches Err(TError::MissingDefault)
        } else {
            res matches Ok(x) && {
                &&& x.locale == a.locale
                &&& x.bindings.len() == a.replacements.len()
                &&& forall|i: int| 0 <= i < x.bindings.len() ==> (#[trigger] x.bindings@[i]).value == value_span(a.replacements[i])
                &&& forall|i: int| 0 <= i < x.bindings.len() ==> is_placeholder_shape((#[trigger] x.bindings@[i]).placeholder@)
                &&& forall|i: int| 0 <= i < x.bindings.len() ==> names_placeholder(
                    (#[trigger] x.bindings@[i]).placeholder@,
                    joined(ts, a.replacements[i].name.start as int, a.replacements[i].name.end as int),
                )
                &&& forall|i: int| 0 <= i < x.bindings.len()
                    && needs_no_escape(joined(ts, a.replacements[i].name.start as int, a.replacements[i].name.end as int))
                    ==> (#[trigger] x.bindings@[i]).placeholder@
                    == spec_placeholder(joined(ts, a.replacements[i].name.start as int, a.replacements[i].name.end as int))
                &&& localized_meets(
                    x.body,
                    catalog.translations_spec(a.key),
                    spec_string_literal(ts, a.locale),
                    default,
                    binding_placeholders(x.bindings@),
                )
            }
        },
    }
}

/// Expands `t!(locale, "file:key", replacements...)` against the catalog
/// and the fallback locale: the arguments are parsed, the key looked up,
/// each replacement bound to its placeholder, and the key's translation
/// chosen and split (see `localized_string`).
pub fn t(catalog: &Catalog, default_locale: &String, tokens: &Vec<Token>) -> (res: Result<Expansion, TError>)
    requires
        catalog.deep_wf(),
        tokens_wf(tokens_view(tokens@)),
    ensures
        t_outcome(*catalog, default_locale@, tokens_view(tokens@), res),
{
    proof {
        assert(tokens_view(tokens@).len() == tokens.len());
        lemma_parse_t_within(tokens_view(tokens@));
    }
    let args = match parse_t(tokens) {
        Ok(a) => a,
        Err(e) => return Err(TError::Args(e)),
    };
    let translations = match catalog.translations_of(&args.key) {
        Some(tr) => tr,
        None => return Err(TError::KeyNotFound(args.key)),
    };
    let bindings = replacement_bindings(tokens, &args.replacements);
    let mut placeholders: Vec<String> = Vec::new();
    let mut i: usize = 0;
    while i < bindings.len()
        invariant
            i <= bindings.len(),
            placeholders@.len() == i,
            forall|k: int| 0 <= k < i ==> (#[trigger] placeholders@[k])@ == bindings@[k].placeholder@,
        decreases bindings.len() - i,
    {
        placeholders.push(bindings[i].placeholder.clone());
        i = i + 1;
    }
    proof {
        assert(strings_view(placeholders@) =~= binding_placeholders(bindings@));
        lemma_shapes_nonempty(bindings@);
    }
    let literal = string_literal(tokens, args.locale);
    let body = match localized_string(translations, &literal, default_locale, &placeholders) {
        Ok(b) => b,
        Err(LocalizeError::MissingDefault) => return Err(TError::MissingDefault),
    };
    Ok(Expansion { locale: args.locale, bindings, body })
}

/// Whatever the locale `l`, the expansion builds the translation that
/// `selected` picks (its own, or the fallback's when it has none): filling
/// each slot with its placeholder gives that translation back, and no
/// literal piece keeps a placeholder.
pub proof fn law_expansion_builds_selected(
    loc: Localized,
    tr: Translations,
    literal: Option<Seq<char>>,
    default: Seq<char>,
    ph: Seq<Seq<char>>,
    l: Seq<char>,
)
    requires
        localized_meets(loc, tr, literal, default, ph),
        placeholders_nonempty(ph),
        literal matches Some(m) ==> m == l,
    ensures
        render(chosen_parts(loc, l), ph) == selected(tr@, default, l),
        forall|k: int| 0 <= k < chosen_parts(loc, l).len() ==> piece_ok(#[trigger] chosen_parts(loc, l)[k], ph),
{
    law_plan_reassembles(selected(tr@, default, l), ph);
    law_plan_replaces_every_placeholder(selected(tr@, default, l), ph);
}

/// A locale without a translation of the key gets the fallback locale's:
/// the expansion for it builds the same pieces, and so the same string from
/// the same values, as the expansion of the same key with the fallback
/// locale written as a string literal, when the two expansions name their
/// placeholders alike.
pub proof fn law_t_falls_back_to_default(
    catalog: Catalog,
    default: Seq<char>,
    ts1: Seq<TokenView>,
    x1: Expansion,
    ts2: Seq<TokenView>,
    x2: Expansion,
    l: Seq<char>,
    values: Seq<Seq<char>>,
)
    requires
        catalog.deep_wf(),
        t_outcome(catalog, default, ts1, Ok(x1)),
        t_outcome(catalog, default, ts2, Ok(x2)),
        spec_parse_t(ts1) matches Ok(a1) && spec_parse_t(ts2) matches Ok(a2) && a1.key == a2.key
            && spec_string_literal(ts2, a2.locale) == Some(default)
            && (spec_string_literal(ts1, a1.locale) matches Some(m) ==> m == l)
            && !catalog@[a1.key].dom().contains(l),
        binding_placeholders(x1.bindings@) == binding_placeholders(x2.bindings@),
    ensures
        chosen_parts(x1.body, l) == chosen_parts(x2.body, default),
        render(chosen_parts(x1.body, l), values) == render(chosen_parts(x2.body, default), values),
{
    let a1 = spec_parse_t(ts1)->Ok_0;
    catalog.lemma_translations_spec(a1.key);
}

/// A locale written as one string literal token `"x"` is read as exactly
/// `x`, the characters between the quotes unchanged.
pub proof fn law_string_literal_is_the_quoted_text(ts: Seq<TokenView>, span: Span, x: Seq<char>)
    requires
        span.end == span.start + 1,
        span.end <= ts.len(),
        ts[span.start as int] == TokenView::Literal(seq!['"'] + x + seq!['"']),
    ensures
        spec_string_literal(ts, span) == Some(x),
{
    let s = seq!['"'] + x + seq!['"'];
    assert(s.subrange(1, s.len() - 1) =~= x);
}

/// With a locale written as one string literal `"x"`, `t` splits the key's
/// translation into `x` when there is one, else the fallback locale's.
pub proof fn law_t_literal_locale_gets_its_translation(
    catalog: Catalog,
    default: Seq<char>,
    ts: Seq<TokenView>,
    x: Expansion,
    l: Seq<char>,
)
    requires
        catalog.deep_wf(),
        t_outcome(catalog, default, ts, Ok(x)),
        spec_parse_t(ts) matches Ok(a) && ts[a.locale.start as int] == TokenView::Literal(seq!['"'] + l + seq!['"'])
            && a.locale.end == a.locale.start + 1,
    ensures
        ({
            let a = spec_parse_t(ts)->Ok_0;
            let tr = catalog@[a.key];
            &&& x.body is Fixed
            &&& chosen_parts(x.body, l) == plan(
                if tr.dom().contains(l) { tr[l] } else { tr[default] },
                0,
                binding_placeholders(x.bindings@),
            )
        }),
{
    let a = spec_parse_t(ts)->Ok_0;
    law_string_literal_is_the_quoted_text(ts, a.locale, l);
    catalog.lemma_translations_spec(a.key);
}

/// A replacement named by one identifier of printable ASCII fills exactly
/// the placeholder `{{identifier}}`.
pub proof fn law_t_identifier_fills_its_placeholder(
    catalog: Catalog,
    default: Seq<char>,
    ts: Seq<TokenView>,
    x: Expansion,
    i: int,
    name: Seq<char>,
)
    requires
        t_outcome(catalog, default, ts, Ok(x)),
        spec_parse_t(ts) matches Ok(a) && 0 <= i < a.replacements.len()
            && a.replacements[i].name.end == a.replacements[i].name.start + 1
            && ts[a.replacements[i].name.start as int] == TokenView::Ident(name),
        needs_no_escape(name),
    ensures
        0 <= i < x.bindings.len(),
        x.bindings@[i].placeholder@ == seq!['{', '{'] + name + seq!['}', '}'],
{
    let a = spec_parse_t(ts)->Ok_0;
    let st = a.replacements[i].name.start as int;
    assert(joined(ts, st, st) == Seq::<char>::empty());
    assert(joined(ts, st, st + 1) =~= name);
}

} // verus!
