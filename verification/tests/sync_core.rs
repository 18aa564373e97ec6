use knzhou::executor::{apply_fetch_results, FetchOutcome};
use knzhou::fetch::{classify_listing_status, classify_status, handout_url, FetchError};
use knzhou::manifest::{Lockfile, WebsiteTree, WebsiteTreeEntry};
use knzhou::planner::{filter_matches, handout_identifier, is_tracked, needs_fetch, plan};

fn entry(path: &str, size: Option<u64>) -> WebsiteTreeEntry {
    WebsiteTreeEntry { path: String::from(path), size }
}

fn tree_of(entries: Vec<WebsiteTreeEntry>) -> WebsiteTree {
    WebsiteTree {
        sha: String::from("abc123"),
        url: String::from("https://api.example.invalid/tree"),
        tree: entries,
    }
}

#[test]
fn tracked_filter_is_exact() {
    assert!(is_tracked("handouts/1.pdf"));
    assert!(is_tracked("handouts/a.b.pdf"));
    // wrong folder, substring folder, nested folder
    assert!(!is_tracked("handout/1.pdf"));
    assert!(!is_tracked("xhandouts/1.pdf"));
    assert!(!is_tracked("handouts/sub/1.pdf"));
    assert!(!is_tracked("docs/handouts/1.pdf"));
    // wrong or case-mangled extension
    assert!(!is_tracked("handouts/1.txt"));
    assert!(!is_tracked("handouts/1.PDF"));
    assert!(!is_tracked("handouts/1.pdfx"));
    // empty identifier, bare folder
    assert!(!is_tracked("handouts/.pdf"));
    assert!(!is_tracked("handouts/"));
    assert!(!is_tracked("1.pdf"));
}

#[test]
fn identifier_strips_folder_and_extension() {
    assert_eq!(handout_identifier("handouts/quantum.pdf"), Some(String::from("quantum")));
    assert_eq!(handout_identifier("handouts/a.b.pdf"), Some(String::from("a.b")));
    assert_eq!(handout_identifier("handouts/.pdf"), None);
    assert_eq!(handout_identifier("other/quantum.pdf"), None);
}

#[test]
fn update_entry_inserts_and_replaces() {
    let mut lock = Lockfile::default();
    assert_eq!(lock.entry_count(), 0);
    assert_eq!(lock.schema_version(), 1);
    lock.update_entry(entry("handouts/1.pdf", Some(100)));
    assert_eq!(lock.entry_count(), 1);
    assert!(lock.check_exists(&entry("handouts/1.pdf", Some(100))));
    // same path, new size: replaced, not duplicated
    lock.update_entry(entry("handouts/1.pdf", Some(200)));
    assert_eq!(lock.entry_count(), 1);
    assert!(!lock.check_exists(&entry("handouts/1.pdf", Some(100))));
    assert!(lock.check_exists(&entry("handouts/1.pdf", Some(200))));
    // other path appended
    lock.update_entry(entry("handouts/2.pdf", None));
    assert_eq!(lock.entry_count(), 2);
    assert!(lock.check_exists(&entry("handouts/2.pdf", None)));
}

#[test]
fn check_exists_compares_path_and_size() {
    let mut lock = Lockfile::default();
    lock.update_entry(entry("handouts/1.pdf", Some(100)));
    assert!(lock.check_exists(&entry("handouts/1.pdf", Some(100))));
    assert!(!lock.check_exists(&entry("handouts/1.pdf", Some(101))));
    assert!(!lock.check_exists(&entry("handouts/1.pdf", None)));
    assert!(!lock.check_exists(&entry("handouts/2.pdf", Some(100))));
}

#[test]
fn needs_fetch_requires_match_and_file() {
    let mut lock = Lockfile::default();
    lock.update_entry(entry("handouts/1.pdf", Some(100)));
    let current = entry("handouts/1.pdf", Some(100));
    let resized = entry("handouts/1.pdf", Some(999));
    let unknown = entry("handouts/2.pdf", Some(5));
    let untracked = entry("other/2.txt", Some(5));
    // recorded and file present: skip
    assert!(!needs_fetch(&lock, &current, true));
    // recorded but file missing: fetch again
    assert!(needs_fetch(&lock, &current, false));
    // size changed remotely: fetch
    assert!(needs_fetch(&lock, &resized, true));
    // not recorded: fetch
    assert!(needs_fetch(&lock, &unknown, false));
    // untracked entries are never candidates
    assert!(!needs_fetch(&lock, &untracked, false));
}

#[test]
fn scenario_a_fresh_sync_plans_and_records_the_handout() {
    let remote = tree_of(vec![
        entry("handouts/1.pdf", Some(100)),
        entry("other/2.txt", None),
    ]);
    let mut lock = Lockfile::default();
    let exists = vec![false, false];
    let candidates = plan(&remote, &lock, &exists);
    assert_eq!(candidates.len(), 1);
    assert_eq!(candidates[0].path, "handouts/1.pdf");
    assert_eq!(candidates[0].size, Some(100));
    // the single fetch succeeds
    let outcomes = vec![FetchOutcome::Success];
    let failed = apply_fetch_results(&mut lock, &candidates, &outcomes);
    assert!(failed.is_empty());
    assert_eq!(lock.entry_count(), 1);
    assert!(lock.check_exists(&entry("handouts/1.pdf", Some(100))));
}

#[test]
fn scenario_b_unchanged_remote_plans_nothing() {
    let remote = tree_of(vec![
        entry("handouts/1.pdf", Some(100)),
        entry("other/2.txt", None),
    ]);
    let mut lock = Lockfile::default();
    lock.update_entry(entry("handouts/1.pdf", Some(100)));
    // the output file exists for every remote entry
    let exists = vec![true, true];
    let candidates = plan(&remote, &lock, &exists);
    assert!(candidates.is_empty());
}

#[test]
fn scenario_c_listing_server_error_is_fatal() {
    // a server error on the listing: the run fails before any content fetch
    assert_eq!(classify_listing_status(500), Err(FetchError::ApiError));
    assert_eq!(classify_listing_status(503), Err(FetchError::ApiError));
}

#[test]
fn listing_status_never_maps_to_not_found() {
    // a missing listing resource is a failing service, not a missing document
    assert_eq!(classify_listing_status(404), Err(FetchError::ApiError));
    assert_eq!(classify_listing_status(200), Ok(()));
    assert_eq!(classify_listing_status(299), Ok(()));
    assert_eq!(classify_listing_status(300), Err(FetchError::ApiError));
    assert_eq!(classify_listing_status(199), Err(FetchError::ApiError));
}

#[test]
fn filter_without_identifier_is_not_tracked() {
    // passes the folder and extension filter, but no identifier derives
    assert!(filter_matches("handouts/.pdf"));
    assert!(!is_tracked("handouts/.pdf"));
    // ordinary tracked entry passes both
    assert!(filter_matches("handouts/1.pdf"));
    assert!(is_tracked("handouts/1.pdf"));
    // entries outside the filter fail both
    assert!(!filter_matches("other/1.pdf"));
    assert!(!filter_matches("handouts/sub/1.pdf"));
    assert!(!filter_matches("handouts/1.txt"));
}

#[test]
fn scenario_d_partial_failure_records_only_the_success() {
    let mut lock = Lockfile::default();
    let candidates = vec![
        entry("handouts/1.pdf", Some(100)),
        entry("handouts/2.pdf", Some(200)),
    ];
    let outcomes = vec![
        FetchOutcome::Success,
        FetchOutcome::Failure(FetchError::NotFound),
    ];
    let failed = apply_fetch_results(&mut lock, &candidates, &outcomes);
    // the failure is reported, but did not block the sibling fetch
    assert_eq!(failed, vec![1]);
    assert_eq!(lock.entry_count(), 1);
    assert!(lock.check_exists(&entry("handouts/1.pdf", Some(100))));
    assert!(!lock.check_exists(&entry("handouts/2.pdf", Some(200))));
}

#[test]
fn failed_fetch_leaves_existing_record_alone() {
    let mut lock = Lockfile::default();
    lock.update_entry(entry("handouts/1.pdf", Some(50)));
    let candidates = vec![entry("handouts/1.pdf", Some(100))];
    let outcomes = vec![FetchOutcome::Failure(FetchError::NetworkError)];
    let failed = apply_fetch_results(&mut lock, &candidates, &outcomes);
    assert_eq!(failed, vec![0]);
    // the old record, not the failed candidate, is still there
    assert!(lock.check_exists(&entry("handouts/1.pdf", Some(50))));
    assert!(!lock.check_exists(&entry("handouts/1.pdf", Some(100))));
}

#[test]
fn successful_refetch_is_skipped_on_the_next_run() {
    let remote = tree_of(vec![entry("handouts/1.pdf", Some(100))]);
    let mut lock = Lockfile::default();
    let candidates = plan(&remote, &lock, &vec![false]);
    assert_eq!(candidates.len(), 1);
    let failed = apply_fetch_results(&mut lock, &candidates, &vec![FetchOutcome::Success]);
    assert!(failed.is_empty());
    // replanning against the same remote state with the file on disk
    let again = plan(&remote, &lock, &vec![true]);
    assert!(again.is_empty());
}

#[test]
fn from_tree_records_every_entry_last_write_wins() {
    let remote = tree_of(vec![
        entry("handouts/1.pdf", Some(100)),
        entry("other/2.txt", None),
        entry("handouts/1.pdf", Some(200)),
    ]);
    let lock = Lockfile::from_tree(&remote);
    assert_eq!(lock.schema_version(), 1);
    assert_eq!(lock.entry_count(), 2);
    assert!(lock.check_exists(&entry("handouts/1.pdf", Some(200))));
    assert!(!lock.check_exists(&entry("handouts/1.pdf", Some(100))));
    assert!(lock.check_exists(&entry("other/2.txt", None)));
}

#[test]
fn classify_status_boundaries() {
    assert_eq!(classify_status(200), Ok(()));
    assert_eq!(classify_status(204), Ok(()));
    assert_eq!(classify_status(299), Ok(()));
    assert_eq!(classify_status(199), Err(FetchError::ApiError));
    assert_eq!(classify_status(300), Err(FetchError::ApiError));
    assert_eq!(classify_status(404), Err(FetchError::NotFound));
    assert_eq!(classify_status(403), Err(FetchError::ApiError));
}

#[test]
fn handout_url_is_the_fixed_host_path() {
    assert_eq!(
        handout_url("quantum"),
        "https://knzhou.github.io/handouts/quantum.pdf"
    );
}
