use knzhou::codec::{parse_lockfile, parse_or_default, parse_u64_range, render_lockfile, render_u64};
use knzhou::config::{handout_output_file, Config};
use knzhou::manifest::{Lockfile, WebsiteTreeEntry};

fn lock_with(entries: Vec<(&str, Option<u64>)>) -> Lockfile {
    let mut lock = Lockfile::default();
    for (path, size) in entries {
        lock.update_entry(WebsiteTreeEntry { path: String::from(path), size });
    }
    lock
}

#[test]
fn render_writes_the_line_format() {
    let lock = lock_with(vec![("handouts/1.pdf", Some(100)), ("handouts/2.pdf", None)]);
    let text = render_lockfile(&lock).unwrap();
    assert_eq!(text, "version 1\ntree 100 handouts/1.pdf\ntree - handouts/2.pdf\n");
}

#[test]
fn render_of_empty_manifest_is_the_version_line() {
    let lock = Lockfile::default();
    assert_eq!(render_lockfile(&lock).unwrap(), "version 1\n");
}

#[test]
fn parse_reads_back_the_line_format() {
    let text = "version 1\ntree 100 handouts/1.pdf\ntree - handouts/2.pdf\n";
    let lock = parse_lockfile(text).unwrap();
    assert_eq!(lock.schema_version(), 1);
    assert_eq!(lock.entry_count(), 2);
    assert!(lock.check_exists(&WebsiteTreeEntry {
        path: String::from("handouts/1.pdf"),
        size: Some(100),
    }));
    assert!(lock.check_exists(&WebsiteTreeEntry {
        path: String::from("handouts/2.pdf"),
        size: None,
    }));
}

#[test]
fn round_trip_preserves_paths_and_sizes() {
    let lock = lock_with(vec![
        ("handouts/alpha.pdf", Some(12345)),
        ("handouts/two words.pdf", None),
        ("handouts/beta.pdf", Some(0)),
    ]);
    let text = render_lockfile(&lock).unwrap();
    let reloaded = parse_lockfile(&text).unwrap();
    assert_eq!(reloaded.schema_version(), lock.schema_version());
    assert_eq!(reloaded.entry_count(), lock.entry_count());
    for e in lock.entries() {
        assert!(reloaded.check_exists(e));
    }
}

#[test]
fn round_trip_keeps_extreme_sizes() {
    let lock = lock_with(vec![
        ("handouts/big.pdf", Some(u64::MAX)),
        ("handouts/zero.pdf", Some(0)),
    ]);
    let text = render_lockfile(&lock).unwrap();
    let reloaded = parse_lockfile(&text).unwrap();
    assert!(reloaded.check_exists(&WebsiteTreeEntry {
        path: String::from("handouts/big.pdf"),
        size: Some(u64::MAX),
    }));
    assert!(reloaded.check_exists(&WebsiteTreeEntry {
        path: String::from("handouts/zero.pdf"),
        size: Some(0),
    }));
}

#[test]
fn round_trip_keeps_unusual_paths() {
    // untracked and even empty paths can be recorded and reloaded
    let lock = lock_with(vec![("", None), ("a b -c", Some(1))]);
    let text = render_lockfile(&lock).unwrap();
    let reloaded = parse_lockfile(&text).unwrap();
    assert_eq!(reloaded.entry_count(), 2);
    assert!(reloaded.check_exists(&WebsiteTreeEntry { path: String::new(), size: None }));
    assert!(reloaded.check_exists(&WebsiteTreeEntry {
        path: String::from("a b -c"),
        size: Some(1),
    }));
}

#[test]
fn render_refuses_a_path_with_a_newline() {
    let lock = lock_with(vec![("handouts/a\nb.pdf", Some(1))]);
    assert!(render_lockfile(&lock).is_none());
}

#[test]
fn parse_rejects_malformed_text() {
    assert!(parse_lockfile("").is_none());
    assert!(parse_lockfile("version 1").is_none()); // no terminating newline
    assert!(parse_lockfile("version x\n").is_none());
    assert!(parse_lockfile("version 256\n").is_none());
    assert!(parse_lockfile("schema 1\n").is_none());
    assert!(parse_lockfile("version 1\ntrees 1 a\n").is_none());
    assert!(parse_lockfile("version 1\ntree 1\n").is_none()); // no path field
    assert!(parse_lockfile("version 1\ntree x a\n").is_none());
    assert!(parse_lockfile("version 1\ntree 1 a").is_none()); // unterminated line
    // a repeated path is corrupt, not last-wins
    assert!(parse_lockfile("version 1\ntree 1 a\ntree 2 a\n").is_none());
}

#[test]
fn parse_or_default_falls_back_to_empty() {
    let absent = parse_or_default(None);
    assert_eq!(absent.entry_count(), 0);
    assert_eq!(absent.schema_version(), 1);
    let corrupt = parse_or_default(Some("not a manifest"));
    assert_eq!(corrupt.entry_count(), 0);
    assert_eq!(corrupt.schema_version(), 1);
    let good = parse_or_default(Some("version 3\ntree 7 handouts/x.pdf\n"));
    assert_eq!(good.schema_version(), 3);
    assert_eq!(good.entry_count(), 1);
}

#[test]
fn decimal_rendering_is_canonical() {
    assert_eq!(render_u64(0), "0");
    assert_eq!(render_u64(7), "7");
    assert_eq!(render_u64(100), "100");
    assert_eq!(render_u64(u64::MAX), "18446744073709551615");
}

#[test]
fn decimal_parsing_handles_bounds() {
    let s = "18446744073709551615";
    assert_eq!(parse_u64_range(s, 0, s.len()), Some(u64::MAX));
    let too_big = "18446744073709551616";
    assert_eq!(parse_u64_range(too_big, 0, too_big.len()), None);
    assert_eq!(parse_u64_range("12a", 0, 3), None);
    assert_eq!(parse_u64_range("12a", 0, 2), Some(12));
    assert_eq!(parse_u64_range("", 0, 0), None);
}

#[test]
fn default_config_is_the_bare_placeholder() {
    let config = Config::default();
    assert_eq!(config.format, "{handout}");
    assert!(config.validate());
}

#[test]
fn validate_requires_the_placeholder() {
    let good = Config { format: String::from("E8-{handout}-v2") };
    assert!(good.validate());
    let bad = Config { format: String::from("E8-handout-v2") };
    assert!(!bad.validate());
    let empty = Config { format: String::new() };
    assert!(!empty.validate());
}

#[test]
fn output_file_substitutes_the_identifier() {
    let config = Config { format: String::from("E8-{handout}-v2") };
    assert_eq!(handout_output_file(&config, "quantum"), "E8-quantum-v2.pdf");
    let plain = Config::default();
    assert_eq!(handout_output_file(&plain, "relativity"), "relativity.pdf");
    // every occurrence is substituted
    let twice = Config { format: String::from("{handout}/{handout}") };
    assert_eq!(handout_output_file(&twice, "x"), "x/x.pdf");
}
