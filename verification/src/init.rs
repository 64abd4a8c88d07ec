//! `scout init` writes a starter config and watchlist into
//! `~/.config/scout/`. Default paths follow the XDG Base Directory spec:
//! `$XDG_CONFIG_HOME` first, then `$HOME/.config`; the CLI's `--config`
//! and `--watchlist` flags override these. Existing files are preserved
//! unless `--force` is passed. This module decides the paths and, per
//! file, what happens; reading the environment and touching the
//! filesystem is the program's side.

use vstd::prelude::*;
use crate::paths::{config_file, config_file_spec, opt_view};
use std::path::PathBuf;

verus! {

/// `std::path::PathBuf`, carried opaquely in error and summary values.
#[verifier::external_type_specification]
#[verifier::external_body]
pub struct ExPathBuf(std::path::PathBuf);

/// `std::io::Error`, carried opaquely in error values.
#[verifier::external_type_specification]
#[verifier::external_body]
pub struct ExIoError(std::io::Error);

/// What `write_starter_files` did with each path.
#[derive(Debug, Clone, Copy, PartialEq, Eq)]
pub enum WriteOutcome {
    /// File did not exist; created with the embedded template.
    Created,
    /// File already existed; left untouched (force was not set).
    Preserved,
    /// File already existed; overwritten because force was set.
    Overwritten,
}

/// Per-call summary of `write_starter_files`, so the caller can print
/// human output and tests can assert behavior without re-reading the
/// files.
#[derive(Debug)]
pub struct InitSummary {
    pub config_path: PathBuf,
    pub config: WriteOutcome,
    pub watchlist_path: PathBuf,
    pub watchlist: WriteOutcome,
}

/// Errors surfaced by `scout init`.
#[derive(Debug)]
pub enum InitError {
    /// Neither `$XDG_CONFIG_HOME` nor `$HOME` was set, so there is no
    /// canonical default path to write to.
    NoConfigDir,
    /// Creating a directory or writing a file failed at `path`.
    Io { path: PathBuf, source: std::io::Error },
}

/// The outcome for a path, given whether a file already exists there
/// and whether `--force` was passed. The template is written unless the
/// outcome is `Preserved`.
pub fn write_outcome(exists: bool, force: bool) -> (o: WriteOutcome)
    ensures
        o == (if !exists {
            WriteOutcome::Created
        } else if force {
            WriteOutcome::Overwritten
        } else {
            WriteOutcome::Preserved
        }),
{
    match (exists, force) {
        (true, false) => WriteOutcome::Preserved,
        (true, true) => WriteOutcome::Overwritten,
        (false, _) => WriteOutcome::Created,
    }
}

/// Default path for the TOML config, given `$XDG_CONFIG_HOME` and
/// `$HOME`: `$XDG_CONFIG_HOME/scout/config.toml`, falling back to
/// `$HOME/.config/scout/config.toml`; `NoConfigDir` when neither
/// applies.
pub fn default_config_path(xdg: Option<&str>, home: Option<&str>) -> (r: Result<String, InitError>)
    ensures
        match config_file_spec(opt_view(xdg), opt_view(home), "config.toml"@) {
            Some(p) => r matches Ok(s) && s@ == p,
            None => r matches Err(InitError::NoConfigDir),
        },
{
    match config_file(xdg, home, "config.toml") {
        Some(p) => Ok(p),
        None => Err(InitError::NoConfigDir),
    }
}

/// Default path for the YAML watchlist, given `$XDG_CONFIG_HOME` and
/// `$HOME`: `$XDG_CONFIG_HOME/scout/watchlist.yaml`, falling back to
/// `$HOME/.config/scout/watchlist.yaml`; `NoConfigDir` when neither
/// applies.
pub fn default_watchlist_path(xdg: Option<&str>, home: Option<&str>) -> (r: Result<String, InitError>)
    ensures
        match config_file_spec(opt_view(xdg), opt_view(home), "watchlist.yaml"@) {
            Some(p) => r matches Ok(s) && s@ == p,
            None => r matches Err(InitError::NoConfigDir),
        },
{
    match config_file(xdg, home, "watchlist.yaml") {
        Some(p) => Ok(p),
        None => Err(InitError::NoConfigDir),
    }
}

/// The path a command uses: the CLI override when given, else the
/// default path (or the error resolving it).
pub fn resolve(override_path: Option<&str>, default: Result<String, InitError>) -> (r: Result<
    String,
    InitError,
>)
    ensures
        match override_path {
            Some(p) => r matches Ok(s) && s@ == p@,
            None => r == default,
        },
{
    match override_path {
        Some(p) => Ok(String::from_str(p)),
        None => default,
    }
}

} // verus!
