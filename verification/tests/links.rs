use tandem::op_heads_store::{
    cas_retry_backoff, heads_for_workspace, load_cached_version, needs_views,
    optimistic_version_cache_enabled, persist_cached_version, retry_limit_message, same_views,
    CacheFile, HeadUpdate, UpdateStep, VersionCache, CAS_MAX_ATTEMPTS,
};
use tandem::placeholder::is_fresh_workspace_placeholder;
use tandem::repo_link::{
    env_value, read_server_address, read_token, read_workspace_id, FileRead, SERVER_ADDRESS_FILE,
    TOKEN_ENV, TOKEN_FILE, WORKSPACE_ID_FILE,
};

fn missing() -> FileRead {
    FileRead::Missing("No such file or directory (os error 2)".to_string())
}

#[test]
fn heads_version_cache_round_trip() {
    assert_eq!(load_cached_version(None), None);
    let written = persist_cached_version(42);
    assert_eq!(load_cached_version(Some(&written)), Some(42));
}

#[test]
fn heads_version_cache_ignores_invalid_content() {
    assert_eq!(load_cached_version(Some("not-a-version")), None);
}

#[test]
fn what_init_writes_is_what_load_reads() {
    let address = FileRead::Text("127.0.0.1:13013".to_string());
    assert_eq!(
        read_server_address(None, address, SERVER_ADDRESS_FILE).expect("address"),
        "127.0.0.1:13013"
    );
    let token = FileRead::Text("tdmw_abc".to_string());
    assert_eq!(read_token(None, token, TOKEN_FILE).expect("token"), "tdmw_abc");
}

#[test]
fn a_workspace_without_a_name_is_the_default_one() {
    assert_eq!(read_workspace_id(None, missing(), WORKSPACE_ID_FILE).expect("id"), "default");

    let blank = FileRead::Text("  \n".to_string());
    assert_eq!(read_workspace_id(None, blank, WORKSPACE_ID_FILE).expect("id"), "default");

    let named = FileRead::Text("agent-a\n".to_string());
    assert_eq!(read_workspace_id(None, named, WORKSPACE_ID_FILE).expect("id"), "agent-a");
}

#[test]
fn a_missing_token_says_where_it_was_looked_for() {
    let path = format!("/repo/.jj/{TOKEN_FILE}");
    let message = read_token(None, missing(), &path).expect_err("no token file");
    assert!(message.contains(TOKEN_ENV), "{message}");
    assert!(message.contains(TOKEN_FILE), "{message}");
}

#[test]
fn the_environment_comes_first() {
    let there = FileRead::Text("from the file".to_string());
    assert_eq!(env_value(Some("  x ".to_string())), Some("x".to_string()));
    assert_eq!(env_value(Some(" \t".to_string())), None);
    assert_eq!(
        read_workspace_id(Some("from env".to_string()), there, "/p").unwrap(),
        "from env"
    );
    let failed = FileRead::Failed("denied".to_string());
    let message = read_workspace_id(None, failed, "/some/where").unwrap_err();
    assert!(message.contains("/some/where") && message.contains("denied"), "{message}");
}

// ─── Publishing with a version that may be stale ──────────────────────────────

#[test]
fn the_backoff_grows_to_its_ceiling() {
    assert!(cas_retry_backoff(1, &[0, 0]) >= 2);
    assert!(cas_retry_backoff(50, &[1, 2, 3]) <= 2 * 256);
    assert_eq!(cas_retry_backoff(3, &[7]), cas_retry_backoff(3, &[7]));
}

#[test]
fn the_switch_turns_the_optimistic_version_off() {
    assert!(optimistic_version_cache_enabled(None));
    assert!(!optimistic_version_cache_enabled(Some("1")));
    assert!(!optimistic_version_cache_enabled(Some("TRUE")));
    assert!(optimistic_version_cache_enabled(Some("0")));
}

#[test]
fn an_accepted_publish_is_remembered() {
    let mut cache = VersionCache::open(true, Some("7"));
    assert_eq!(cache.start(), Some(7));
    let mut update = HeadUpdate::new(7);
    let (step, file) = update.answered(&mut cache, true, 8, &[1]);
    assert_eq!(step, UpdateStep::Done);
    assert_eq!(file, CacheFile::Write("8".to_string()));
    assert_eq!(cache.start(), Some(8));
}

#[test]
fn a_refused_publish_follows_the_server_until_it_gives_up() {
    let mut cache = VersionCache::open(true, Some("7"));
    let mut update = HeadUpdate::new(7);
    let (step, file) = update.answered(&mut cache, false, 30, &[1]);
    assert!(matches!(step, UpdateStep::Retry(_)));
    assert_eq!(file, CacheFile::Keep);
    assert_eq!(update.expected_version, 30);
    let (step, file) = update.answered(&mut cache, true, 31, &[1]);
    assert_eq!(step, UpdateStep::Done);
    assert_eq!(file, CacheFile::Remove);
    assert_eq!(cache.start(), None);

    let mut cache = VersionCache::open(true, None);
    let mut update = HeadUpdate::new(0);
    for attempt in 1..=CAS_MAX_ATTEMPTS {
        let (step, _) = update.answered(&mut cache, false, attempt as u64, &[1]);
        assert_eq!(step == UpdateStep::GiveUp, attempt == CAS_MAX_ATTEMPTS);
    }
    assert!(retry_limit_message().contains("80"));
}

#[test]
fn a_workspace_sees_its_own_head_in_place_of_an_equal_one() {
    let heads = vec![vec![1]];
    let own = Some(vec![2]);
    assert!(needs_views(&heads, &own));
    assert!(!needs_views(&heads, &Some(vec![1])));
    assert!(!needs_views(&heads, &None));
    assert!(same_views(&Some(vec![9]), &Some(vec![9])));
    assert!(!same_views(&Some(vec![9]), &None));
    assert_eq!(heads_for_workspace(heads.clone(), own.clone(), true), vec![vec![2]]);
    let both = heads_for_workspace(heads, own, false);
    assert!(both.contains(&vec![2]));
}

// ─── The commit that a fresh workspace starts with ────────────────────────────

const ROOT_COMMIT: &[u8] = &[0u8; 32];
const EMPTY_TREE: &[u8] = &[1u8; 32];

fn is_placeholder(description: &str, parents: &[&[u8]], root_tree: &[&[u8]]) -> bool {
    is_fresh_workspace_placeholder(description, parents, root_tree, ROOT_COMMIT, EMPTY_TREE)
}

#[test]
fn the_commit_a_half_finished_clone_leaves_is_recognised() {
    assert!(is_placeholder("", &[ROOT_COMMIT], &[EMPTY_TREE]));
}

#[test]
fn anything_a_workspace_published_is_not_a_placeholder() {
    const OTHER: &[u8] = &[7u8; 32];
    const A_TREE: &[u8] = &[9u8; 32];

    // A first snapshot: still on the root commit, but it has a tree now.
    assert!(!is_placeholder("", &[ROOT_COMMIT], &[A_TREE]));

    // An empty change somebody described. Empty is not the same as unused.
    assert!(!is_placeholder("what I am about to do", &[ROOT_COMMIT], &[EMPTY_TREE]));

    // An empty commit further along the history — a workspace that
    // attached, published, and then had its change squashed away.
    assert!(!is_placeholder("", &[OTHER], &[EMPTY_TREE]));

    // A merge, which workspace creation never makes.
    assert!(!is_placeholder("", &[ROOT_COMMIT, OTHER], &[EMPTY_TREE]));

    // A conflicted tree, which it never makes either.
    assert!(!is_placeholder("", &[ROOT_COMMIT], &[EMPTY_TREE, A_TREE, EMPTY_TREE]));
}
