//! Compile-time localization: translation catalogs loaded from JSON files,
//! `{{name}}` templates split into literal text and substitution slots, and
//! the argument grammar of the `t!` macro, each with a verified contract.

pub mod __private;
pub mod text;
pub mod literal;
pub mod args;
pub mod template;
pub mod table;
pub mod json;
pub mod load;
pub mod settings;
pub mod expand;
