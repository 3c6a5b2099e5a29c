# localization

Compile-time localization: translations live in JSON files under one
directory per locale, and `t!("en-US", "default:hello", name, age)` expands
to code that builds the translation with each `{{name}}` placeholder filled.

- `src/` is the verified library (Verus):
  - `args` — the argument grammar of `t!` over a model of token trees;
  - `template` — splitting a translation into literal text and slots, with
    the laws that the split reassembles the template and leaves no
    placeholder behind;
  - `table` — string-keyed tables (translations, and the catalog of them);
  - `json`, `load` — parsing translation files (serde_json, behind a
    trusted wrapper), flattening them into dotted keys and building the
    catalog from the locale directories;
  - `literal` — the value of a Rust string literal read from its source
    text, which names each placeholder;
  - `expand` — what `t!` expands to: bindings, literal or run-time locale
    dispatch, fallback to the default locale;
  - `settings` — the translation root and fallback locale, and the
    build-script directives that set them;
  - `text` — character-level string helpers and the code-point order.
- `app/` reads the files and environment, converts macro input to the
  token model, and writes the generated code with `quote`.
- `tests/` exercise the library on concrete values.
