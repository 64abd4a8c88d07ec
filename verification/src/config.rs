//! Sections of the TOML user config that hold no floating-point
//! values. Every field has a default so a config parsed from an empty
//! string still matches the reference shape. Parsing the TOML text, and
//! the `[weights]` and `[filters]` sections with their floating-point
//! fields, belong to the command-line program.

use vstd::prelude::*;

verus! {

/// Authentication config. `token_path` is a filesystem path (tilde
/// allowed, expanded against `$HOME` when the token is read). Unset
/// means fall back to `$GITHUB_TOKEN`.
#[derive(Debug, Clone, PartialEq, Eq)]
pub struct Auth {
    pub token_path: Option<String>,
}

impl Default for Auth {
    fn default() -> (a: Self)
        ensures
            a.token_path is None,
    {
        Auth { token_path: None }
    }
}

/// Output block. `color` is free-form; the CLI layer validates it
/// against `auto`, `always`, `never`. `limit` caps the rendered rows.
#[derive(Debug, Clone, PartialEq, Eq)]
pub struct Output {
    pub color: String,
    pub limit: u32,
}

impl Default for Output {
    fn default() -> (o: Self)
        ensures
            o.color@ == "auto"@,
            o.limit == 20,
    {
        Output { color: String::from_str("auto"), limit: 20 }
    }
}

} // verus!
