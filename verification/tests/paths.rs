//! Default file locations: `$XDG_CONFIG_HOME/scout/...` when that is an
//! absolute path, else `$HOME/.config/scout/...`.

use scout::init::{InitError, default_config_path, default_watchlist_path};
use scout::paths::join_path;
use scout::took::{TookError, default_ledger_path};
use scout::{expand_tilde, resolve_token};

#[test]
fn xdg_config_home_wins_when_absolute() {
    let p = default_config_path(Some("/xdg"), Some("/home/u")).unwrap();
    assert_eq!(p, "/xdg/scout/config.toml");
    let w = default_watchlist_path(Some("/xdg/"), Some("/home/u")).unwrap();
    assert_eq!(w, "/xdg/scout/watchlist.yaml");
}

#[test]
fn relative_or_empty_xdg_falls_back_to_home() {
    let p = default_config_path(Some("rel/dir"), Some("/home/u")).unwrap();
    assert_eq!(p, "/home/u/.config/scout/config.toml");
    let q = default_config_path(Some(""), Some("/home/u/")).unwrap();
    assert_eq!(q, "/home/u/.config/scout/config.toml");
}

#[test]
fn no_xdg_and_no_home_is_no_config_dir() {
    assert!(matches!(default_config_path(None, None), Err(InitError::NoConfigDir)));
    assert!(matches!(default_watchlist_path(Some("x"), None), Err(InitError::NoConfigDir)));
    assert!(matches!(default_ledger_path(None, None), Err(TookError::NoConfigDir)));
}

#[test]
fn ledger_lives_beside_the_config() {
    assert_eq!(default_ledger_path(None, Some("/h")).unwrap(), "/h/.config/scout/ledger.jsonl");
    assert_eq!(default_ledger_path(Some("/c"), None).unwrap(), "/c/scout/ledger.jsonl");
}

#[test]
fn join_follows_pathbuf_rules() {
    assert_eq!(join_path("a", "b"), "a/b");
    assert_eq!(join_path("a/", "b"), "a/b");
    assert_eq!(join_path("", "b"), "b");
    assert_eq!(join_path("a", "/b"), "/b");
    assert_eq!(join_path("a", ""), "a/");
    assert_eq!(std::path::PathBuf::from("a").join(""), std::path::PathBuf::from("a/"));
}

#[test]
fn tilde_expands_against_home() {
    assert_eq!(expand_tilde("~/tok", Some("/home/u")), "/home/u/tok");
    assert_eq!(expand_tilde("~/tok", None), "~/tok");
    assert_eq!(expand_tilde("/abs/tok", Some("/home/u")), "/abs/tok");
    assert_eq!(expand_tilde("~tok", Some("/home/u")), "~tok");
    assert_eq!(expand_tilde("~/", Some("/home/u")), "/home/u/");
}

#[test]
fn token_file_is_trimmed_and_wins_over_env() {
    assert_eq!(resolve_token(Some("  ghp_abc \n"), Some("env")), Some("ghp_abc".to_string()));
    assert_eq!(resolve_token(Some(" \n"), Some("env")), None);
}

#[test]
fn env_token_used_without_token_file() {
    assert_eq!(resolve_token(None, Some(" env_tok\t")), Some("env_tok".to_string()));
    assert_eq!(resolve_token(None, Some("   ")), None);
    assert_eq!(resolve_token(None, None), None);
}

#[test]
fn override_path_wins_over_default() {
    let r = scout::init::resolve(Some("/tmp/c.toml"), Err(InitError::NoConfigDir)).unwrap();
    assert_eq!(r, "/tmp/c.toml");
    let d = scout::init::resolve(None, Ok("/h/.config/scout/config.toml".to_string())).unwrap();
    assert_eq!(d, "/h/.config/scout/config.toml");
    assert!(matches!(scout::init::resolve(None, Err(InitError::NoConfigDir)), Err(InitError::NoConfigDir)));
}
