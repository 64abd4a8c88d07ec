//! Where scout keeps its files. `scout init`, `scout took` and the scan
//! pipeline all resolve their default paths the same way: under
//! `$XDG_CONFIG_HOME/scout` when that variable holds an absolute path,
//! else under `$HOME/.config/scout`. Reading the environment is the
//! program's side; it hands the values in. Paths are handled as text
//! joined the way `PathBuf::join` joins on Unix.

use vstd::prelude::*;
use crate::text::{chars_of, push_char, push_chars};

verus! {

/// `base` joined with `seg` as `PathBuf::join` does on Unix: an
/// absolute `seg` replaces `base`; otherwise a `/` goes between them
/// unless `base` is empty or already ends in `/`.
pub open spec fn path_join(base: Seq<char>, seg: Seq<char>) -> Seq<char> {
    if seg.len() > 0 && seg[0] == '/' {
        seg
    } else if base.len() == 0 || base.last() == '/' {
        base + seg
    } else {
        base + seq!['/'] + seg
    }
}

/// `path_join` on strings.
pub fn join_path(base: &str, seg: &str) -> (p: String)
    ensures
        p@ == path_join(base@, seg@),
{
    let b = chars_of(base);
    let s = chars_of(seg);
    let mut out = String::new();
    if s.len() > 0 && s[0] == '/' {
        push_chars(&mut out, &s);
        return out;
    }
    push_chars(&mut out, &b);
    if b.len() > 0 && b[b.len() - 1] != '/' {
        push_char(&mut out, '/');
    }
    push_chars(&mut out, &s);
    assert(b@.len() > 0 ==> b@.last() == b@[b.len() - 1]);
    out
}

/// A path is absolute when it starts at the root.
pub open spec fn is_absolute(p: Seq<char>) -> bool {
    p.len() > 0 && p[0] == '/'
}

/// The scout config directory, from the values of `$XDG_CONFIG_HOME`
/// and `$HOME` (`None` where unset): `$XDG_CONFIG_HOME/scout` when that
/// is absolute, else `$HOME/.config/scout`, else nothing.
pub open spec fn config_dir_spec(xdg: Option<Seq<char>>, home: Option<Seq<char>>) -> Option<
    Seq<char>,
> {
    match xdg {
        Some(x) if is_absolute(x) => Some(path_join(x, "scout"@)),
        _ => match home {
            Some(h) => Some(path_join(path_join(h, ".config"@), "scout"@)),
            None => None,
        },
    }
}

/// An optional string's characters.
pub open spec fn opt_view(s: Option<&str>) -> Option<Seq<char>> {
    match s {
        Some(t) => Some(t@),
        None => None,
    }
}

/// The scout config directory (see `config_dir_spec`).
pub fn config_dir(xdg: Option<&str>, home: Option<&str>) -> (d: Option<String>)
    ensures
        match config_dir_spec(opt_view(xdg), opt_view(home)) {
            Some(p) => d matches Some(s) && s@ == p,
            None => d is None,
        },
{
    if let Some(x) = xdg {
        let v = chars_of(x);
        if v.len() > 0 && v[0] == '/' {
            proof {
                reveal_strlit("scout");
            }
            return Some(join_path(x, "scout"));
        }
    }
    match home {
        Some(h) => {
            let c = join_path(h, ".config");
            Some(join_path(c.as_str(), "scout"))
        },
        None => None,
    }
}

/// A file named `name` in the scout config directory.
pub open spec fn config_file_spec(xdg: Option<Seq<char>>, home: Option<Seq<char>>, name: Seq<char>) -> Option<
    Seq<char>,
> {
    match config_dir_spec(xdg, home) {
        Some(d) => Some(path_join(d, name)),
        None => None,
    }
}

/// `config_file_spec` computed.
pub fn config_file(xdg: Option<&str>, home: Option<&str>, name: &str) -> (p: Option<String>)
    ensures
        match config_file_spec(opt_view(xdg), opt_view(home), name@) {
            Some(q) => p matches Some(s) && s@ == q,
            None => p is None,
        },
{
    match config_dir(xdg, home) {
        Some(d) => Some(join_path(d.as_str(), name)),
        None => None,
    }
}

/// The default files share one directory: for the same environment,
/// the config, watchlist and ledger paths all exist or none does, and
/// each is the config directory, a `/`, and the file's name, so any one
/// of them is another with its file name replaced.
pub proof fn default_files_share_directory(xdg: Option<Seq<char>>, home: Option<Seq<char>>)
    ensures
        match config_dir_spec(xdg, home) {
            Some(d) => {
                &&& config_file_spec(xdg, home, "config.toml"@) == Some(d + "/config.toml"@)
                &&& config_file_spec(xdg, home, "watchlist.yaml"@) == Some(d + "/watchlist.yaml"@)
                &&& config_file_spec(xdg, home, "ledger.jsonl"@) == Some(d + "/ledger.jsonl"@)
            },
            None => {
                &&& config_file_spec(xdg, home, "config.toml"@) is None
                &&& config_file_spec(xdg, home, "watchlist.yaml"@) is None
                &&& config_file_spec(xdg, home, "ledger.jsonl"@) is None
            },
        },
{
    reveal_strlit("scout");
    reveal_strlit(".config");
    reveal_strlit("config.toml");
    reveal_strlit("watchlist.yaml");
    reveal_strlit("ledger.jsonl");
    reveal_strlit("/config.toml");
    reveal_strlit("/watchlist.yaml");
    reveal_strlit("/ledger.jsonl");
    if let Some(d) = config_dir_spec(xdg, home) {
        let base = match xdg {
            Some(x) if is_absolute(x) => x,
            _ => path_join(home->0, ".config"@),
        };
        assert(d == path_join(base, "scout"@));
        assert(d.len() > 0 && d.last() == 't');
        assert(d + "/config.toml"@ =~= d + seq!['/'] + "config.toml"@);
        assert(d + "/watchlist.yaml"@ =~= d + seq!['/'] + "watchlist.yaml"@);
        assert(d + "/ledger.jsonl"@ =~= d + seq!['/'] + "ledger.jsonl"@);
    }
}

} // verus!
