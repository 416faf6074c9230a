//! Configuration loading and parsing tests.

use wayclip::config::{
    default_max_entries, default_max_entry_size, default_min_entry_size, from_str, Config,
};

#[test]
fn defaults_match_the_documented_policy() {
    let c = Config::default();
    assert_eq!(c.daemon.max_entries, 1000);
    assert_eq!(c.daemon.max_entry_size, 10 * 1024 * 1024);
    assert_eq!(c.daemon.min_entry_size, 1);
    assert_eq!(c.daemon.max_age_days, 0);
    assert_eq!(
        c.clipboard.ignore_mime_patterns,
        vec!["x-kde-passwordManagerHint".to_string()]
    );
    assert!(c.clipboard.ignore_app_patterns.is_empty());
    assert_eq!(default_max_entries(), 1000);
    assert_eq!(default_max_entry_size(), 10485760);
    assert_eq!(default_min_entry_size(), 1);
}

#[test]
fn load_without_a_file_gives_defaults() {
    let c = Config::load(None).unwrap();
    assert_eq!(c.daemon.max_entries, 1000);
}

#[test]
fn parses_sections_keys_and_lists() {
    let text = "\
# wayclip configuration\n\
[daemon]\n\
max_entries = 42\n\
max_entry_size = 1024\n\
min_entry_size = 2\n\
max_age_days = 7\n\
\n\
[clipboard]\n\
ignore_mime_patterns = [\"secret\", \"x-kde-passwordManagerHint\"]\n\
ignore_app_patterns = []\n";
    let c = from_str(text).unwrap();
    assert_eq!(c.daemon.max_entries, 42);
    assert_eq!(c.daemon.max_entry_size, 1024);
    assert_eq!(c.daemon.min_entry_size, 2);
    assert_eq!(c.daemon.max_age_days, 7);
    assert_eq!(
        c.clipboard.ignore_mime_patterns,
        vec!["secret".to_string(), "x-kde-passwordManagerHint".to_string()]
    );
    assert!(c.clipboard.ignore_app_patterns.is_empty());
}

#[test]
fn unknown_keys_and_sections_are_ignored() {
    let text = "\
[daemon]\n\
max_entries = 5\n\
shiny_new_option = 12\n\
[future]\n\
whatever = \"x\"\n";
    let c = from_str(text).unwrap();
    assert_eq!(c.daemon.max_entries, 5);
    // A key of a known name outside its section is ignored too.
    let c = from_str("max_entries = 5\n").unwrap();
    assert_eq!(c.daemon.max_entries, 1000);
}

#[test]
fn malformed_values_are_rejected() {
    assert!(from_str("[daemon]\nmax_entries = many\n").is_err());
    assert!(from_str("[daemon]\nmax_entries = 5x\n").is_err());
    assert!(from_str("[daemon]\nmax_entries = 99999999999999999999999\n").is_err());
    assert!(from_str("[clipboard]\nignore_mime_patterns = [\"unterminated]\n").is_err());
    assert!(from_str("just some words\n").is_err());
    assert!(from_str("[daemon\n").is_err());
}

#[test]
fn whitespace_and_comments_are_tolerated() {
    let text = "  \n\t[daemon]  \n  max_entries\t=\t3  \n# comment\n";
    let c = from_str(text).unwrap();
    assert_eq!(c.daemon.max_entries, 3);
}
