//! Reference parsing, timestamp rendering and ledger-line framing of
//! `scout::took`.

use scout::took::{IssueRef, ParseError, format_iso8601_z, ledger_entry_line, parse_issue_ref};
use scout::{days_since, parse_iso8601_z};

/// Happy-path parse: `OWNER/REPO#N` round-trips into the struct fields
/// without trimming or mutation.
#[test]
fn parses_well_formed_issue_ref() {
    let parsed = parse_issue_ref("truffle-dev/scout#42").expect("valid ref");
    assert_eq!(
        parsed,
        IssueRef {
            owner: "truffle-dev".to_string(),
            repo: "scout".to_string(),
            number: 42,
        }
    );
}

/// `OWNER/REPO` (no `#N`) fails with `MissingHash`.
#[test]
fn missing_hash_rejected() {
    let err = parse_issue_ref("truffle-dev/scout").expect_err("missing hash");
    assert!(matches!(err, ParseError::MissingHash(_)), "got {err:?}");
}

/// `REPO#N` (no `OWNER/`) fails with `MissingSlash`.
#[test]
fn missing_slash_rejected() {
    let err = parse_issue_ref("scout#42").expect_err("missing slash");
    assert!(matches!(err, ParseError::MissingSlash(_)), "got {err:?}");
}

/// Empty `OWNER` segment (`/repo#1`) is rejected with `EmptySegment`.
#[test]
fn took_empty_owner_rejected() {
    let err = parse_issue_ref("/scout#1").expect_err("empty owner");
    assert!(matches!(err, ParseError::EmptySegment(_)), "got {err:?}");
}

/// Empty `REPO` segment (`owner/#1`) is rejected with `EmptySegment`.
#[test]
fn took_empty_repo_rejected() {
    let err = parse_issue_ref("truffle-dev/#1").expect_err("empty repo");
    assert!(matches!(err, ParseError::EmptySegment(_)), "got {err:?}");
}

/// Non-numeric issue number fails with `BadNumber`. A negative number
/// also fails because the parser reads a `u32`.
#[test]
fn non_numeric_issue_rejected() {
    assert!(matches!(
        parse_issue_ref("o/r#abc").expect_err("bad number"),
        ParseError::BadNumber(_),
    ));
    assert!(matches!(
        parse_issue_ref("o/r#-1").expect_err("negative number"),
        ParseError::BadNumber(_),
    ));
    assert!(matches!(
        parse_issue_ref("o/r#").expect_err("empty number"),
        ParseError::BadNumber(_),
    ));
}

/// `format_iso8601_z` produces the documented narrow shape for the unix
/// epoch and a few hand-picked timestamps.
#[test]
fn format_iso8601_z_known_values() {
    assert_eq!(format_iso8601_z(0), "1970-01-01T00:00:00Z");
    // 2009-02-13 23:31:30 UTC, the famous billion-second tick.
    assert_eq!(format_iso8601_z(1_234_567_890), "2009-02-13T23:31:30Z");
    // 2026-04-25 12:00:00 UTC, hand-derived: 20568 days since epoch.
    assert_eq!(format_iso8601_z(1_777_118_400), "2026-04-25T12:00:00Z");
    // Leap day check: 2024-02-29 00:00:00 UTC.
    assert_eq!(format_iso8601_z(1_709_164_800), "2024-02-29T00:00:00Z");
}

// --- more cases ------------------------------------------------------

#[test]
fn bad_number_carries_only_the_number_text() {
    assert_eq!(
        parse_issue_ref("o/r#4x2").unwrap_err(),
        ParseError::BadNumber("4x2".into())
    );
    assert_eq!(
        parse_issue_ref("o/r").unwrap_err(),
        ParseError::MissingHash("o/r".into())
    );
}

#[test]
fn issue_ref_splits_at_first_hash_and_first_slash() {
    let parsed = parse_issue_ref("a/b/c#7").expect("valid ref");
    assert_eq!(parsed.owner, "a");
    assert_eq!(parsed.repo, "b/c");
    assert_eq!(parsed.number, 7);
    // The number text after the first `#` must itself be a u32.
    assert!(matches!(
        parse_issue_ref("a/b#1#2").unwrap_err(),
        ParseError::BadNumber(s) if s == "1#2"
    ));
}

#[test]
fn issue_number_accepts_plus_sign_and_leading_zeros() {
    assert_eq!(parse_issue_ref("o/r#+7").unwrap().number, 7);
    assert_eq!(parse_issue_ref("o/r#0042").unwrap().number, 42);
}

#[test]
fn issue_number_range_is_u32() {
    assert_eq!(parse_issue_ref("o/r#4294967295").unwrap().number, u32::MAX);
    assert!(matches!(
        parse_issue_ref("o/r#4294967296").unwrap_err(),
        ParseError::BadNumber(_)
    ));
    assert!(matches!(
        parse_issue_ref("o/r#+").unwrap_err(),
        ParseError::BadNumber(_)
    ));
}

#[test]
fn slash_after_hash_does_not_count() {
    assert!(matches!(
        parse_issue_ref("scout#4/2").unwrap_err(),
        ParseError::MissingSlash(_)
    ));
}

#[test]
fn format_then_parse_round_trips() {
    for t in [
        0i64,
        1,
        86_399,
        86_400,
        951_782_400,   // 2000-02-29
        1_234_567_890,
        1_777_118_400,
        -1,            // 1969-12-31T23:59:59Z
        -62_167_219_200, // 0000-01-01T00:00:00Z
        -93_692_592_000, // -999-01-01T00:00:00Z
        253_402_300_799, // 9999-12-31T23:59:59Z
    ] {
        let text = format_iso8601_z(t);
        assert_eq!(parse_iso8601_z(&text), Some(t), "{t} -> {text}");
    }
}

#[test]
fn format_negative_and_wide_years() {
    assert_eq!(format_iso8601_z(-1), "1969-12-31T23:59:59Z");
    assert_eq!(format_iso8601_z(-62_167_219_200), "0000-01-01T00:00:00Z");
    assert_eq!(format_iso8601_z(-93_692_592_000), "-999-01-01T00:00:00Z");
    assert_eq!(format_iso8601_z(253_402_300_800), "10000-01-01T00:00:00Z");
    // Past the four-digit year the text no longer fits the narrow shape.
    assert_eq!(parse_iso8601_z("10000-01-01T00:00:00Z"), None);
}

#[test]
fn parse_reads_fields_as_signed_integers() {
    // `i32::from_str` accepts a sign inside a field.
    assert_eq!(parse_iso8601_z("1970-+1-01T00:00:00Z"), Some(0));
    assert_eq!(parse_iso8601_z("1970-01-01T-0:00:00Z"), Some(0));
    assert_eq!(parse_iso8601_z("1970-01-01T00:00:60Z"), Some(60));
    assert_eq!(parse_iso8601_z("1970-01-01T00:00:61Z"), None);
    assert_eq!(parse_iso8601_z("1970-01-0\u{ff}T00:00:00Z"), None);
}

#[test]
fn days_since_rounds_toward_negative_infinity() {
    assert_eq!(days_since("1970-01-02T00:00:00Z", 0), Some(-1));
    assert_eq!(days_since("1970-01-01T00:00:01Z", 0), Some(-1));
    assert_eq!(days_since("1970-01-01T00:00:00Z", 172_799), Some(1));
}

#[test]
fn ledger_line_has_the_documented_shape() {
    let issue = IssueRef {
        owner: "truffle-dev".into(),
        repo: "scout".into(),
        number: 7,
    };
    let line = ledger_entry_line(&issue, "2026-04-25T07:30:00Z", "took");
    assert_eq!(
        line,
        "{\"repo\":\"truffle-dev/scout\",\"number\":7,\"timestamp\":\"2026-04-25T07:30:00Z\",\"event\":\"took\"}\n"
    );
}

#[test]
fn ledger_line_escapes_json_strings() {
    let issue = IssueRef {
        owner: "o\"w".into(),
        repo: "r\\p".into(),
        number: 4_294_967_295,
    };
    let line = ledger_entry_line(&issue, "t\n", "dropped");
    assert_eq!(
        line,
        "{\"repo\":\"o\\\"w/r\\\\p\",\"number\":4294967295,\"timestamp\":\"t\\n\",\"event\":\"dropped\"}\n"
    );
}
