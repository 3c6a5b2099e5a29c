use localization::json::{json_pairs, visit_json_kv, Json};
use localization::load::{file_key, get_locale, get_locale_list, init_locale, stem, LocaleDir, LocaleFile};
use localization::settings::{default_locale, root, set_default_locale, set_root};
use localization::table::{Catalog, Table};
use localization::template::{find_from, plan_template, Part};

fn s(x: &str) -> String {
    x.to_string()
}

fn obj(members: Vec<(&str, Json)>) -> Json {
    Json::Object(members.into_iter().map(|(k, v)| (s(k), v)).collect())
}

fn text(x: &str) -> Json {
    Json::Str(s(x))
}

fn path(parts: &[&str]) -> Vec<String> {
    parts.iter().map(|p| s(p)).collect()
}

#[test]
fn flatten_nested_objects_with_dots() {
    let doc = obj(vec![
        ("a", text("1")),
        ("b", obj(vec![("c", text("2")), ("d", obj(vec![("e", text("3"))])), ("n", Json::Number)])),
        ("z", Json::Array(vec![text("x")])),
    ]);
    assert_eq!(
        json_pairs(&doc),
        vec![(s("a"), s("1")), (s("b.c"), s("2")), (s("b.d.e"), s("3"))]
    );
    assert!(json_pairs(&text("top")).is_empty());
    assert!(json_pairs(&Json::Null).is_empty());
}

#[test]
fn visit_json_kv_parses_text() {
    assert_eq!(
        visit_json_kv(r#"{"b": {"c": "2"}, "a": "1", "n": 3, "t": true, "z": null}"#),
        Some(vec![(s("a"), s("1")), (s("b.c"), s("2"))])
    );
    assert_eq!(visit_json_kv(r#""top""#), Some(vec![]));
    assert_eq!(visit_json_kv("{ not json"), None);
}

#[test]
fn stems_follow_file_stem() {
    assert_eq!(stem(&s("default.json")), "default");
    assert_eq!(stem(&s("a.b.json")), "a.b");
    assert_eq!(stem(&s("noext")), "noext");
    assert_eq!(stem(&s(".hidden")), ".hidden");
    assert_eq!(stem(&s("..")), "..");
    assert_eq!(stem(&s("trail.")), "trail");
    assert_eq!(stem(&s("")), "");
}

#[test]
fn file_keys_are_relative_and_slash_joined() {
    let root = path(&["tr", "en-US"]);
    assert_eq!(file_key(&root, &path(&["tr", "en-US", "default.json"])), "default");
    assert_eq!(file_key(&root, &path(&["tr", "en-US", "menu", "items.json"])), "menu/items");
    assert_eq!(file_key(&root, &path(&["tr", "en-US"])), "");
}

fn dirs() -> Vec<LocaleDir> {
    vec![
        LocaleDir {
            name: s("ja-JP"),
            path: path(&["tr", "ja-JP"]),
            files: vec![LocaleFile { path: path(&["tr", "ja-JP", "default.json"]), content: s(r#"{"hello": "こんにちは"}"#) }],
        },
        LocaleDir {
            name: s("en-US"),
            path: path(&["tr", "en-US"]),
            files: vec![
                LocaleFile {
                    path: path(&["tr", "en-US", "default.json"]),
                    content: s(r#"{"hello": "Hello", "menu": {"open": "Open"}}"#),
                },
                LocaleFile { path: path(&["tr", "en-US", "sub", "more.json"]), content: s(r#"{"x": "X"}"#) },
            ],
        },
    ]
}

#[test]
fn init_locale_builds_the_catalog() {
    let c = init_locale(&dirs()).unwrap();
    assert_eq!(c.len(), 3);
    let hello = c.get("default:hello").unwrap();
    assert_eq!(hello.get("en-US"), Some(&s("Hello")));
    assert_eq!(hello.get("ja-JP"), Some(&s("こんにちは")));
    assert_eq!(c.get("default:menu.open").unwrap().get("en-US"), Some(&s("Open")));
    assert!(c.get("default:menu.open").unwrap().get("ja-JP").is_none());
    assert_eq!(c.get("sub/more:x").unwrap().get("en-US"), Some(&s("X")));
    assert!(c.get("default:missing").is_none());
}

#[test]
fn later_translations_win() {
    let d = vec![LocaleDir {
        name: s("en"),
        path: path(&["r", "en"]),
        files: vec![LocaleFile {
            path: path(&["r", "en", "f.json"]),
            content: s(r#"{"a": {"b": "nested"}, "a.b": "dotted"}"#),
        }],
    }];
    let c = init_locale(&d).unwrap();
    assert_eq!(c.len(), 1);
    assert_eq!(c.get("f:a.b").unwrap().get("en"), Some(&s("dotted")));
}

#[test]
fn locale_list_is_sorted_and_distinct() {
    let c = init_locale(&dirs()).unwrap();
    assert_eq!(get_locale_list(&c), vec![s("en-US"), s("ja-JP")]);
    let empty: Catalog = Table::new_catalog();
    assert!(get_locale_list(&empty).is_empty());
}

#[test]
fn get_locale_loads_once() {
    let first = get_locale(None, &dirs()).unwrap();
    assert_eq!(first.len(), 3);
    let again = get_locale(Some(first), &vec![]).unwrap();
    assert_eq!(again.len(), 3);
}

#[test]
fn init_locale_stops_at_the_first_invalid_file() {
    let mut d = dirs();
    d[1].files[1].content = s("{ broken");
    assert_eq!(init_locale(&d).unwrap_err(), (1, 1));
    d[0].files[0].content = s("[");
    assert_eq!(init_locale(&d).unwrap_err(), (0, 0));
}

#[test]
fn settings_defaults_and_directives() {
    assert_eq!(root(None), "./translations");
    assert_eq!(root(Some(s("./i18n"))), "./i18n");
    assert_eq!(default_locale(None), "en-US");
    assert_eq!(default_locale(Some(s("ja-JP"))), "ja-JP");
    assert_eq!(set_root("./translations"), "cargo:rustc-env=LOCALIZATION_ROOT=./translations");
    assert_eq!(set_default_locale("en-US"), "cargo:rustc-env=LOCALIZATION_DEFAULT=en-US");
}

#[test]
fn plan_template_scans_leftmost_first() {
    let ph = vec![s("{{b}}"), s("{{a}}")];
    let p = plan_template("x{{a}}y{{b}}{{a}}", &ph);
    assert_eq!(
        p.parts,
        vec![Part::Text(s("x")), Part::Value(1), Part::Text(s("y")), Part::Value(0), Part::Value(1)]
    );
    assert_eq!(p.literal_len, 2);
    let none = plan_template("", &ph);
    assert!(none.parts.is_empty());
    let plain = plan_template("no slots", &vec![]);
    assert_eq!(plain.parts, vec![Part::Text(s("no slots"))]);
    // the same placeholder twice: the first in the list wins
    let twice = plan_template("{{a}}", &vec![s("{{a}}"), s("{{a}}")]);
    assert_eq!(twice.parts, vec![Part::Value(0)]);
}

#[test]
fn find_from_finds_first_occurrence() {
    let hay: Vec<char> = "abcabc".chars().collect();
    let needle: Vec<char> = "bc".chars().collect();
    assert_eq!(find_from(&hay, 0, &needle), Some(1));
    assert_eq!(find_from(&hay, 2, &needle), Some(4));
    assert_eq!(find_from(&hay, 5, &needle), None);
}

#[test]
fn table_insert_replaces() {
    let mut t: Table<String> = Table::new();
    t.insert(s("a"), s("1"));
    t.insert(s("b"), s("2"));
    t.insert(s("a"), s("3"));
    assert_eq!(t.len(), 2);
    assert_eq!(t.key_at(0), "a");
    assert_eq!(t.get("a"), Some(&s("3")));
    assert_eq!(t.get("b"), Some(&s("2")));
    assert!(t.get("c").is_none());
}

#[test]
fn plan_reassembles_and_leaves_no_placeholder() {
    let ph = vec![s("{{name}}"), s("{{age}}")];
    let template = "{{name}}: {{age}} ({{name}}) {{unknown}} {{ag";
    let p = plan_template(template, &ph);
    let mut rebuilt = String::new();
    for part in &p.parts {
        match part {
            Part::Text(t) => {
                assert!(!t.contains("{{name}}") && !t.contains("{{age}}"));
                rebuilt.push_str(t);
            }
            Part::Value(i) => rebuilt.push_str(&ph[*i]),
        }
    }
    assert_eq!(rebuilt, template);
    assert_eq!(
        p.parts,
        vec![
            Part::Value(0),
            Part::Text(s(": ")),
            Part::Value(1),
            Part::Text(s(" (")),
            Part::Value(0),
            Part::Text(s(") {{unknown}} {{ag")),
        ]
    );
}
