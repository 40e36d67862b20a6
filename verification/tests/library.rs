use keyscraper::dedup::build_index;
use keyscraper::key::Key;
use keyscraper::pool::build_pool;
use keyscraper::report::{assemble_report, QueryOutcome};
use keyscraper::scan::{scan_directory, KeypairRecord};
use keyscraper::walk::{WalkAction, Walker};

/// A key identity whose 32 bytes are all `b`.
fn key(b: u8) -> Key {
    Key::from_bytes(vec![b; 32]).unwrap()
}

/// Drives a walk against a mock filesystem: each pair maps a directory path
/// to its immediate subdirectories, or to `None` where listing fails.
fn run_walk(root: &str, depth: usize, fs: &[(&str, Option<&[&str]>)]) -> Vec<String> {
    let mut w = Walker::new(root.to_string(), depth);
    loop {
        match w.step() {
            WalkAction::Done => break,
            WalkAction::Recorded => continue,
            WalkAction::List(p) => {
                match fs.iter().find(|(q, _)| *q == p) {
                    Some((_, Some(subs))) => {
                        w.on_listing(subs.iter().map(|s| s.to_string()).collect())
                    }
                    _ => w.on_list_error(),
                }
            }
        }
    }
    let mut found = w.into_found();
    found.sort();
    found
}

#[test]
fn depth_zero_returns_exactly_root() {
    assert_eq!(run_walk("root", 0, &[]), vec!["root".to_string()]);
}

#[test]
fn walk_always_includes_root() {
    let fs: &[(&str, Option<&[&str]>)] = &[("root", Some(&[]))];
    assert_eq!(run_walk("root", 3, fs), vec!["root".to_string()]);
}

#[test]
fn walk_respects_depth_limit() {
    let fs: &[(&str, Option<&[&str]>)] = &[
        ("root", Some(&["a", "b"])),
        ("a", Some(&["c"])),
        ("b", Some(&[])),
        ("c", Some(&["d"])),
    ];
    // depth 1: the walk records a and b without listing them
    assert_eq!(run_walk("root", 1, fs), vec!["a".to_string(), "b".to_string(), "root".to_string()]);
    // depth 2: c appears, d stays beyond the limit
    assert_eq!(
        run_walk("root", 2, fs),
        vec!["a".to_string(), "b".to_string(), "c".to_string(), "root".to_string()]
    );
}

#[test]
fn walk_skips_subtree_that_fails_to_list() {
    let fs: &[(&str, Option<&[&str]>)] = &[
        ("root", Some(&["a", "b"])),
        ("a", None),
        ("b", Some(&[])),
    ];
    // a fails to list below the depth limit: its subtree, a included,
    // contributes nothing, and the rest of the walk continues
    assert_eq!(run_walk("root", 2, fs), vec!["b".to_string(), "root".to_string()]);
}

#[test]
fn scan_excludes_files_that_do_not_parse() {
    let dir = "somewhere".to_string();
    // an empty file, garbage bytes and a text file all fail to parse; the
    // scan of the directory itself does not fail
    let records = scan_directory(&dir, &vec![None, None, None]);
    assert_eq!(records.len(), 0);
    let records = scan_directory(&dir, &vec![None, Some(key(7)), None, Some(key(9))]);
    assert_eq!(records.len(), 2);
    assert_eq!(records[0].dir, "somewhere");
    assert!(records[0].key == key(7));
    assert!(records[1].key == key(9));
}

#[test]
fn dedup_is_path_invariant() {
    // the same keypair file copied into two different directories: one
    // entry, two locations, counted once
    let records = vec![
        KeypairRecord { dir: "x".to_string(), key: key(5) },
        KeypairRecord { dir: "y".to_string(), key: key(5) },
    ];
    let idx = build_index(&records);
    assert_eq!(idx.distinct_key_count(), 1);
    assert!(idx.entries[0].key == key(5));
    let mut dirs = idx.entries[0].dirs.clone();
    dirs.sort();
    assert_eq!(dirs, vec!["x".to_string(), "y".to_string()]);
}

#[test]
fn dedup_collapses_duplicates_within_one_directory() {
    let records = vec![
        KeypairRecord { dir: "x".to_string(), key: key(5) },
        KeypairRecord { dir: "x".to_string(), key: key(5) },
    ];
    let idx = build_index(&records);
    assert_eq!(idx.distinct_key_count(), 1);
    assert_eq!(idx.entries[0].dirs, vec!["x".to_string()]);
}

#[test]
fn dedup_iterates_in_natural_key_order() {
    let records = vec![
        KeypairRecord { dir: "d".to_string(), key: key(9) },
        KeypairRecord { dir: "d".to_string(), key: key(1) },
        KeypairRecord { dir: "d".to_string(), key: key(4) },
    ];
    let idx = build_index(&records);
    assert_eq!(idx.distinct_key_count(), 3);
    assert!(idx.entries[0].key == key(1));
    assert!(idx.entries[1].key == key(4));
    assert!(idx.entries[2].key == key(9));
}

#[test]
fn discovery_scan_dedup_scenario() {
    // root holds A (keypair k1 and a garbage file) and A/B (a copy of k1
    // named k2), walked at depth 2
    let fs: &[(&str, Option<&[&str]>)] =
        &[("root", Some(&["A"])), ("A", Some(&["A/B"])), ("A/B", Some(&[]))];
    let dirs = run_walk("root", 2, fs);
    assert_eq!(dirs, vec!["A".to_string(), "A/B".to_string(), "root".to_string()]);

    // scanning: in A, k1 parses and the garbage file does not; in A/B the
    // copy parses to the same public key
    let mut records = scan_directory(&"A".to_string(), &vec![Some(key(42)), None]);
    records.extend(scan_directory(&"A/B".to_string(), &vec![Some(key(42))]));
    assert_eq!(records.len(), 2);
    assert!(records[0].key == records[1].key);

    let idx = build_index(&records);
    assert_eq!(idx.distinct_key_count(), 1);
    let mut locations = idx.entries[0].dirs.clone();
    locations.sort();
    assert_eq!(locations, vec!["A".to_string(), "A/B".to_string()]);
}

#[test]
fn pool_is_exactly_the_probe_successes() {
    let urls = vec!["u1".to_string(), "u2".to_string(), "u3".to_string()];
    let ok = vec![true, false, true];
    assert_eq!(build_pool(&urls, &ok), vec!["u1".to_string(), "u3".to_string()]);
    // all probes fail: the pool is empty, not an error
    assert_eq!(build_pool(&urls, &vec![false, false, false]), Vec::<String>::new());
    // membership depends on the outcomes alone, not on any completion order
    assert_eq!(build_pool(&urls, &vec![true, true, true]), urls);
}

#[test]
fn zero_live_endpoints_yield_zero_report_entries() {
    let entries = assemble_report(&key(3), &Vec::new(), Vec::new());
    assert_eq!(entries.len(), 0);
}

#[test]
fn report_pairs_each_endpoint_with_its_own_outcome() {
    // one endpoint answers with a live account of 5 lamports owned by P,
    // the other fails; no error is raised and the failing endpoint's entry
    // is the quiet absent outcome
    let endpoints = vec!["e1".to_string(), "e2".to_string()];
    let outcomes = vec![QueryOutcome::Found { lamports: 5, owner: key(80) }, QueryOutcome::Absent];
    let entries = assemble_report(&key(3), &endpoints, outcomes);
    assert_eq!(entries.len(), 2);
    assert!(entries[0].key == key(3));
    assert_eq!(entries[0].endpoint, "e1");
    match &entries[0].outcome {
        QueryOutcome::Found { lamports, owner } => {
            assert_eq!(*lamports, 5);
            assert!(*owner == key(80));
        }
        QueryOutcome::Absent => panic!("expected a live account on e1"),
    }
    assert_eq!(entries[1].endpoint, "e2");
    assert!(matches!(entries[1].outcome, QueryOutcome::Absent));
}

#[test]
fn key_identity_has_fixed_size_and_total_order() {
    assert!(Key::from_bytes(vec![0; 31]).is_none());
    assert!(Key::from_bytes(vec![0; 33]).is_none());
    assert!(Key::from_bytes(Vec::new()).is_none());
    let a = key(1);
    let b = key(2);
    assert!(a.lt(&b));
    assert!(!b.lt(&a));
    assert!(!a.lt(&a));
    assert!(a == a.duplicate());
    assert!(a != b);
    let mut high = vec![1; 32];
    high[31] = 2;
    let c = Key::from_bytes(high).unwrap();
    assert!(a.lt(&c));
    assert!(!c.lt(&a));
}
