//! Where the translations live and which locale is the fallback: set by a
//! build script as `cargo:rustc-env` directives, read back with defaults.

use vstd::prelude::*;
use crate::text::concat_str;

verus! {

/// The translation root when none is configured.
pub open spec fn spec_default_root() -> Seq<char> {
    "./translations"@
}

/// The fallback locale when none is configured.
pub open spec fn spec_default_fallback() -> Seq<char> {
    "en-US"@
}

/// The translation root: the configured value (of `LOCALIZATION_ROOT`), or
/// `./translations`.
pub fn root(configured: Option<String>) -> (res: String)
    ensures
        res@ == match configured {
            Some(s) => s@,
            None => spec_default_root(),
        },
{
    match configured {
        Some(s) => s,
        None => String::from_str("./translations"),
    }
}

/// The fallback locale: the configured value (of `LOCALIZATION_DEFAULT`),
/// or `en-US`.
pub fn default_locale(configured: Option<String>) -> (res: String)
    ensures
        res@ == match configured {
            Some(s) => s@,
            None => spec_default_fallback(),
        },
{
    match configured {
        Some(s) => s,
        None => String::from_str("en-US"),
    }
}

/// The build-script directive that sets the translation root.
pub fn set_root(root: &str) -> (res: String)
    ensures
        res@ == "cargo:rustc-env=LOCALIZATION_ROOT="@ + root@,
{
    concat_str("cargo:rustc-env=LOCALIZATION_ROOT=", root)
}

/// The build-script directive that sets the fallback locale.
pub fn set_default_locale(locale: &str) -> (res: String)
    ensures
        res@ == "cargo:rustc-env=LOCALIZATION_DEFAULT="@ + locale@,
{
    concat_str("cargo:rustc-env=LOCALIZATION_DEFAULT=", locale)
}

} // verus!
