use localization::args::{parse_t, Replacement, Span, TArgsError, Token};
use localization::expand::{
    into_literal, placeholder, replacement_bindings, runtime_crate, string_literal, t, ArmBody, CratePath,
    FoundCrate, Localized, TError,
};
use localization::load::{init_locale, LocaleDir, LocaleFile};
use localization::table::Catalog;
use localization::template::Part;

fn s(x: &str) -> String {
    x.to_string()
}

fn lit(x: &str) -> Token {
    Token::Literal(format!("\"{}\"", x))
}

fn comma() -> Token {
    Token::Punct(',')
}

fn ident(x: &str) -> Token {
    Token::Ident(s(x))
}

fn locale_dir(name: &str, text: &str) -> LocaleDir {
    LocaleDir {
        name: s(name),
        path: vec![s("translations"), s(name)],
        files: vec![LocaleFile {
            path: vec![s("translations"), s(name), s("default.json")],
            content: format!("{{\"hello\": \"{}\"}}", text),
        }],
    }
}

fn catalog() -> Catalog {
    init_locale(&vec![
        locale_dir("en-US", "Hello {{name}}, you are {{age}} years old!"),
        locale_dir("ja-JP", "こんにちは{{name}}さん、{{age}}歳ですね！"),
    ])
    .unwrap()
}

#[test]
fn parse_t_positional_and_named() {
    // t!(data.lang, "default:hello", name, age = data.age)
    let tokens = vec![
        ident("data"),
        Token::Punct('.'),
        ident("lang"),
        comma(),
        lit("default:hello"),
        comma(),
        ident("name"),
        comma(),
        ident("age"),
        Token::Punct('='),
        ident("data"),
        Token::Punct('.'),
        ident("age"),
    ];
    let a = parse_t(&tokens).unwrap();
    assert_eq!(a.locale, Span { start: 0, end: 3 });
    assert_eq!(a.key, "default:hello");
    assert_eq!(
        a.replacements,
        vec![
            Replacement { name: Span { start: 6, end: 7 }, value: None },
            Replacement { name: Span { start: 8, end: 9 }, value: Some(Span { start: 10, end: 13 }) },
        ]
    );
}

#[test]
fn parse_t_errors() {
    assert_eq!(parse_t(&vec![]), Err(TArgsError::MissingLocale));
    assert_eq!(parse_t(&vec![comma(), lit("k")]), Err(TArgsError::MissingLocale));
    assert_eq!(parse_t(&vec![Token::Punct('='), ident("x"), comma(), lit("k")]), Err(TArgsError::MissingLocale));
    assert_eq!(parse_t(&vec![lit("en"), lit("k")]), Err(TArgsError::MissingCommaAfterLocale));
    assert_eq!(parse_t(&vec![lit("en"), comma()]), Err(TArgsError::MissingKey));
    assert_eq!(parse_t(&vec![lit("en"), comma(), ident("k")]), Err(TArgsError::MissingKey));
    assert_eq!(parse_t(&vec![lit("en"), comma(), lit("k"), ident("x")]), Err(TArgsError::MissingComma));
    assert_eq!(parse_t(&vec![lit("en"), comma(), lit("k"), comma(), comma(), ident("x")]), Err(TArgsError::MissingName));
    assert_eq!(
        parse_t(&vec![lit("en"), comma(), lit("k"), comma(), ident("x"), Token::Punct('=')]),
        Err(TArgsError::MissingReplacement)
    );
}

#[test]
fn parse_t_values_run_to_the_next_comma() {
    // t!("en-US", "default:hello", name = if n == 1 { "one" } else { "many" })
    let tokens = vec![
        lit("en-US"),
        comma(),
        lit("default:hello"),
        comma(),
        ident("name"),
        Token::Punct('='),
        ident("if"),
        ident("n"),
        Token::Punct('='),
        Token::Punct('='),
        Token::Literal(s("1")),
        Token::Group(s("{ \"one\" }")),
        ident("else"),
        Token::Group(s("{ \"many\" }")),
    ];
    let a = parse_t(&tokens).unwrap();
    assert_eq!(a.key, "default:hello");
    assert_eq!(a.replacements, vec![Replacement { name: Span { start: 4, end: 5 }, value: Some(Span { start: 6, end: 14 }) }]);
    // a locale expression may hold `=` too: t!(a == b, "k")
    let b = parse_t(&vec![ident("a"), Token::Punct('='), Token::Punct('='), ident("b"), comma(), lit("k")]).unwrap();
    assert_eq!(b.locale, Span { start: 0, end: 4 });
}

#[test]
fn parse_t_trailing_comma_and_empty_value() {
    let a = parse_t(&vec![lit("en"), comma(), lit("k"), comma(), ident("x"), comma()]).unwrap();
    assert_eq!(a.replacements, vec![Replacement { name: Span { start: 4, end: 5 }, value: None }]);
    let b = parse_t(&vec![lit("en"), comma(), lit("k"), comma()]).unwrap();
    assert!(b.replacements.is_empty());
    // `x = , y`: the value is empty, so the name is its own value
    let c = parse_t(&vec![lit("en"), comma(), lit("k"), comma(), ident("x"), Token::Punct('='), comma(), ident("y")]).unwrap();
    assert_eq!(
        c.replacements,
        vec![
            Replacement { name: Span { start: 4, end: 5 }, value: None },
            Replacement { name: Span { start: 7, end: 8 }, value: None },
        ]
    );
}

#[test]
fn string_literal_reads_a_single_literal() {
    let tokens = vec![lit("en-US"), ident("x"), Token::Literal(s("42"))];
    assert_eq!(string_literal(&tokens, Span { start: 0, end: 1 }), Some(s("en-US")));
    assert_eq!(string_literal(&tokens, Span { start: 0, end: 2 }), None);
    assert_eq!(string_literal(&tokens, Span { start: 1, end: 2 }), None);
    assert_eq!(string_literal(&tokens, Span { start: 2, end: 3 }), None);
}

#[test]
fn placeholders_are_named_by_their_tokens() {
    let tokens = vec![ident("user"), Token::Punct('.'), ident("name"), lit("x")];
    let src = into_literal(&tokens, Span { start: 0, end: 4 });
    assert_eq!(src, "\"user.namex\"");
    assert_eq!(placeholder(&src), "{{user.namex}}");
}

#[test]
fn placeholder_text_is_escaped_as_a_string_literal() {
    // the joined text `"q"` holds quotes, which the literal escapes
    let tokens = vec![Token::Punct('"'), ident("q"), Token::Punct('"')];
    let src = into_literal(&tokens, Span { start: 0, end: 3 });
    assert_eq!(src, "\"\\\"q\\\"\"");
    assert_eq!(placeholder(&src), "{{\\\"q\\\"}}");
}

#[test]
fn bindings_take_the_value_or_the_name() {
    let tokens = vec![lit("en"), comma(), lit("k"), comma(), ident("name"), comma(), ident("age"), Token::Punct('='), ident("v")];
    let a = parse_t(&tokens).unwrap();
    let b = replacement_bindings(&tokens, &a.replacements);
    assert_eq!(b.len(), 2);
    assert_eq!(b[0].placeholder, "{{name}}");
    assert_eq!(b[0].value, Span { start: 4, end: 5 });
    assert_eq!(b[1].placeholder, "{{age}}");
    assert_eq!(b[1].value, Span { start: 8, end: 9 });
}

#[test]
fn t_with_literal_locale_splits_that_translation() {
    let c = catalog();
    let tokens = vec![lit("en-US"), comma(), lit("default:hello"), comma(), ident("name"), comma(), ident("age")];
    let e = t(&c, &s("en-US"), &tokens).unwrap();
    assert_eq!(e.locale, Span { start: 0, end: 1 });
    match e.body {
        Localized::Fixed(p) => {
            assert_eq!(
                p.parts,
                vec![Part::Text(s("Hello ")), Part::Value(0), Part::Text(s(", you are ")), Part::Value(1), Part::Text(s(" years old!"))]
            );
            assert_eq!(p.literal_len, 27);
        }
        other => panic!("unexpected {:?}", other),
    }
}

#[test]
fn t_with_unknown_literal_locale_falls_back() {
    let c = catalog();
    let tokens = vec![lit("fr-FR"), comma(), lit("default:hello"), comma(), ident("name")];
    let e = t(&c, &s("ja-JP"), &tokens).unwrap();
    match e.body {
        Localized::Fixed(p) => {
            assert_eq!(
                p.parts,
                vec![Part::Text(s("こんにちは")), Part::Value(0), Part::Text(s("さん、{{age}}歳ですね！"))]
            );
            assert_eq!(p.literal_len, "こんにちは".len() + "さん、{{age}}歳ですね！".len());
        }
        other => panic!("unexpected {:?}", other),
    }
}

#[test]
fn t_with_runtime_locale_dispatches() {
    let c = catalog();
    let tokens = vec![ident("lang"), comma(), lit("default:hello"), comma(), ident("name"), comma(), ident("age")];
    let e = t(&c, &s("en-US"), &tokens).unwrap();
    match e.body {
        Localized::Dispatch { default, arms } => {
            assert_eq!(default.parts.len(), 5);
            assert_eq!(arms.len(), 2);
            assert_eq!(arms[0].locale, "en-US");
            assert_eq!(arms[0].body, ArmBody::Default);
            assert_eq!(arms[1].locale, "ja-JP");
            match &arms[1].body {
                ArmBody::Plan(p) => assert_eq!(
                    p.parts,
                    vec![Part::Text(s("こんにちは")), Part::Value(0), Part::Text(s("さん、")), Part::Value(1), Part::Text(s("歳ですね！"))]
                ),
                other => panic!("unexpected {:?}", other),
            }
        }
        other => panic!("unexpected {:?}", other),
    }
}

#[test]
fn t_errors() {
    let c = catalog();
    let missing = vec![lit("en-US"), comma(), lit("default:bye")];
    assert_eq!(t(&c, &s("en-US"), &missing), Err(TError::KeyNotFound(s("default:bye"))));
    let ok = vec![lit("en-US"), comma(), lit("default:hello")];
    assert_eq!(t(&c, &s("de-DE"), &ok), Err(TError::MissingDefault));
    let bad = vec![lit("en-US"), lit("default:hello")];
    assert_eq!(t(&c, &s("en-US"), &bad), Err(TError::Args(TArgsError::MissingCommaAfterLocale)));
}

#[test]
fn runtime_crate_paths() {
    assert_eq!(runtime_crate(Some(FoundCrate::Itself)), CratePath::Itself);
    assert_eq!(runtime_crate(Some(FoundCrate::Name(s("l10n")))), CratePath::Absolute(s("l10n")));
    assert_eq!(runtime_crate(None), CratePath::Absolute(s("localization")));
}

#[test]
fn missing_locale_expands_like_the_fallback() {
    let c = catalog();
    let missing = vec![lit("fr-FR"), comma(), lit("default:hello"), comma(), ident("name"), comma(), ident("age")];
    let fallback = vec![lit("en-US"), comma(), lit("default:hello"), comma(), ident("name"), comma(), ident("age")];
    let a = t(&c, &s("en-US"), &missing).unwrap();
    let b = t(&c, &s("en-US"), &fallback).unwrap();
    assert_eq!(a.bindings, b.bindings);
    assert_eq!(a.body, b.body);
}
