use tandem::agent::{file_at, note_commit, Agent, CommitWalk, Snapshot};
use tandem::heads::HeadsMetadata;
use tandem::http_client::HeadsState;
use tandem::oracle::{
    api_heads, assert_bytes_in_some_wal_entry, check, check_inner, contains, converge, reads_of,
    reads_to_make, ApiHeads, Convergence, Observed, ReadTask, ROUNDS,
};
use tandem::order::{TextMap, TextSet};
use tandem::prepared::{
    check_attribution, check_identity, check_published_bytes, check_published_commit,
    check_view_identity, descend, object_needs, only_head, operation_id, prepared_publish, Descent,
    ImportError, ImportStep, ImportWalk, Item, PublishedSearch, TreeCollection, KIND_OPERATION,
};
use tandem::proto_convert::{
    write_tree, MessageError, Operation, OperationMetadata, Timestamp, Tree, TreeValue,
};
use tandem::reach::ReachWalk;
use tandem::rng::{arbitrary_seed, Rng, STEP};
use tandem::views::{RefTarget, RepoView};
use tandem::wal::{IndexObject, WalEntry};
use tandem::wire::{HeadsBody, PreparedObject, KIND_COMMIT, KIND_FILE, KIND_SYMLINK, KIND_TREE};

fn set(texts: &[&str]) -> TextSet {
    let mut s = TextSet::new();
    for t in texts {
        s.insert(t);
    }
    s
}

fn map(pairs: &[(&str, &str)]) -> TextMap<String> {
    let mut m = TextMap::new();
    for (k, v) in pairs {
        m.insert(k, v.to_string());
    }
    m
}

// ─── The generator ────────────────────────────────────────────────────────────

/// The first numbers of SplitMix64 for two well-known seeds.
#[test]
fn the_stream_of_a_seed_is_fixed() {
    let mut zero = Rng::new(0);
    assert_eq!(zero.next_u64(), 0xe220a8397b1dcdaf);
    assert_eq!(zero.next_u64(), 0x6e789e6aa1b965f4);
    let mut other = Rng::new(1234567);
    assert_eq!(other.next_u64(), 6457827717110365317);
    assert_eq!(other.next_u64(), 3203168211198807973);
}

#[test]
fn draws_stay_in_their_range() {
    let mut rng = Rng::new(9);
    for _ in 0..200 {
        assert!(rng.below(7) < 7);
        let drawn = rng.between(3, 5);
        assert!((3..=5).contains(&drawn));
    }
    assert!(!rng.chance(0));
    assert!(rng.chance(100));
    assert_eq!(rng.bytes(5).len(), 5);
    assert!([1, 2, 3].contains(rng.pick(&[1, 2, 3])));
    let mut again = Rng::new(0);
    assert_eq!(again.bytes(2), vec![0xaf, 0xf4]);
    assert_eq!(arbitrary_seed(5, 0), 5);
    assert_eq!(arbitrary_seed(0, 1), STEP);
}

// ─── Walks ────────────────────────────────────────────────────────────────────

#[test]
fn a_walk_visits_everything_once_and_stops_at_the_root() {
    let history: Vec<(u8, Vec<u8>)> = vec![(5, vec![3, 4]), (4, vec![1]), (3, vec![1]), (1, vec![0])];
    let mut walk = ReachWalk::new(&vec![vec![5], vec![5]]);
    let root = vec![0u8];
    let mut seen = vec![];
    while let Some(id) = walk.next(Some(&root)) {
        let parents = &history.iter().find(|(op, _)| *op == id[0]).unwrap().1;
        walk.took(&parents.iter().map(|p| vec![*p]).collect());
        seen.push(id[0]);
    }
    assert_eq!(seen, vec![5, 4, 1, 3]);
    let mut lone = ReachWalk::new(&vec![vec![0]]);
    assert_eq!(lone.next(None), Some(vec![0]));
    assert_eq!(lone.next(None), None);
}

// ─── Agents ───────────────────────────────────────────────────────────────────

#[test]
fn an_agent_knows_what_it_wrote_and_where() {
    let mut agent = Agent::new("ann");
    agent.wrote(&[1], &vec![("a".to_string(), vec![1]), ("b".to_string(), vec![2])]);
    agent.wrote(&[2], &vec![("a".to_string(), vec![3])]);
    agent.wrote(&[1], &vec![("a".to_string(), vec![9])]);
    let files = agent.expected_files();
    assert_eq!(files.get(&[1]).unwrap().get("a"), Some(&vec![9]));
    assert_eq!(files.get(&[1]).unwrap().get("b"), Some(&vec![2]));
    assert_eq!(files.get(&[2]).unwrap().get("a"), Some(&vec![3]));
    agent.rewrote(&[1], &[7]);
    let files = agent.expected_files();
    assert!(files.get(&[1]).is_none());
    assert_eq!(files.get(&[7]).unwrap().get("b"), Some(&vec![2]));
    assert_eq!(files.get(&[2]).unwrap().get("a"), Some(&vec![3]));
    assert_eq!(agent.commit_message("x"), "ann commits x");
    assert_eq!(agent.describe_message("x"), "ann describes x");
}

fn picture(name: &str) -> Snapshot {
    Snapshot {
        name: name.to_string(),
        op_heads: set(&["0a"]),
        view_heads: set(&["c1"]),
        working_copies: map(&[("ann", "c1"), ("bob", "c2")]),
        changes: TextMap::new(),
    }
}

// ─── The oracle ───────────────────────────────────────────────────────────────

fn entry_for(head: u8) -> Vec<u8> {
    WalEntry { op_id: vec![head], parents: vec![], records: vec![] }.encode().unwrap()
}

fn observed() -> (Vec<Agent>, Observed) {
    let mut ann = Agent::new("ann");
    ann.wrote(&[1], &vec![("a.txt".to_string(), b"hello".to_vec())]);
    let snapshots = vec![picture("ann"), picture("bob")];
    let agents = vec![ann, Agent::new("bob")];
    let tasks = reads_to_make(&agents, &snapshots);
    let reads = tasks.iter().map(|t| Some(t.bytes.clone())).collect();
    let mut entries = TextMap::new();
    entries.insert("0a", entry_for(0x0a));
    let seen = Observed {
        snapshots,
        api: ApiHeads {
            version: 3,
            heads: set(&["0a"]),
            workspace_heads: map(&[("ann", "0a")]),
        },
        jj_heads: set(&["0a"]),
        stored: set(&["0a"]),
        index: Some(IndexObject {
            version: 3,
            op_heads: vec!["0a".to_string()],
            workspace_heads: map(&[("ann", "0a")]),
        }),
        entries,
        sidecar: Some(HeadsMetadata { version: 3, workspace_heads: map(&[("ann", "0a")]) }),
        tasks,
        reads,
    };
    (agents, seen)
}

#[test]
fn a_sound_state_passes() {
    let (agents, seen) = observed();
    assert_eq!(seen.tasks.len(), 2);
    assert_eq!(seen.tasks[1].reader, "bob");
    assert_eq!(check_inner(&agents, &seen), Ok(()));
}

fn failure(change: impl Fn(&mut Vec<Agent>, &mut Observed)) -> String {
    let (mut agents, mut seen) = observed();
    change(&mut agents, &mut seen);
    check_inner(&agents, &seen).expect_err("a property is broken")
}

#[test]
fn each_broken_property_is_named() {
    assert_eq!(
        failure(|agents, _| agents.push(Agent::new("cat"))),
        "the converged view has no working copy for cat: {\"ann\": \"c1\", \"bob\": \"c2\"}"
    );
    assert_eq!(
        failure(|_, seen| seen.jj_heads = set(&["0a", "0b"])),
        "the API head set and the server's jj op heads disagree:\n  jj:  {\"0a\", \"0b\"}\n  api: {\"0a\"}"
    );
    assert_eq!(
        failure(|_, seen| seen.stored = set(&[])),
        "the API holds head 0a, which is not stored"
    );
    assert_eq!(
        failure(|_, seen| {
            seen.jj_heads = set(&["zz"]);
            seen.api.heads = set(&["zz"]);
        }),
        "the API holds head zz, which is not hex"
    );
    assert_eq!(
        failure(|_, seen| seen.entries = TextMap::new()),
        "the index names head 0a but the bucket has no WAL entry for it"
    );
    assert_eq!(
        failure(|_, seen| seen.entries.insert("0a", vec![1, 2])),
        "the WAL entry for 0a does not decode"
    );
    assert_eq!(
        failure(|_, seen| seen.entries.insert("0a", entry_for(0x0b))),
        "the WAL entry at wal/0a carries op id 0b"
    );
    assert_eq!(
        failure(|_, seen| seen.sidecar.as_mut().unwrap().version = 4),
        "local version 4 is ahead of index version 3"
    );
    assert_eq!(
        failure(|_, seen| seen.sidecar.as_mut().unwrap().workspace_heads = TextMap::new()),
        "the sidecar and the API disagree about workspace heads:\n  sidecar: {}\n  api:     {\"ann\": \"0a\"}"
    );
    assert_eq!(
        failure(|_, seen| seen.snapshots[1].op_heads = set(&["0a", "0f"])),
        "bob holds head 0f, which is not stored"
    );
    assert_eq!(
        failure(|_, seen| {
            note_commit(&mut seen.snapshots[0].changes, "kk", "c1");
            note_commit(&mut seen.snapshots[0].changes, "kk", "c2");
        }),
        "ann sees change kk on more than one commit: {\"c1\", \"c2\"}"
    );
    assert_eq!(
        failure(|_, seen| seen.reads[1] = None),
        "bob cannot read a.txt from 01 (written by ann)"
    );
    assert_eq!(
        failure(|_, seen| seen.reads[0] = Some(vec![1])),
        "ann read 1 bytes of a.txt from 01; ann wrote 5 bytes"
    );
    let (agents, mut seen) = observed();
    seen.stored = set(&[]);
    assert_eq!(check(&agents, &seen, "step 4").unwrap_err().0, "oracle failed after step 4");
}

#[test]
fn without_an_index_there_is_nothing_to_hold_it_to() {
    let (agents, mut seen) = observed();
    seen.index = None;
    seen.entries = TextMap::new();
    assert_eq!(check_inner(&agents, &seen), Ok(()));
}

#[test]
fn agents_agree_or_are_read_again() {
    let same = vec![picture("ann"), picture("bob")];
    assert_eq!(converge(0, &same), Convergence::Agreed);
    let mut apart = vec![picture("ann"), picture("bob")];
    apart[1].view_heads = set(&["c9"]);
    assert_eq!(converge(0, &apart), Convergence::ReadAgain);
    match converge(ROUNDS - 1, &apart) {
        Convergence::GaveUp(m) => assert_eq!(
            m,
            "agents did not converge after 8 reads:\n  ann: heads {\"c1\"} working copies {\"ann\": \"c1\", \"bob\": \"c2\"}\n  bob: heads {\"c9\"} working copies {\"ann\": \"c1\", \"bob\": \"c2\"}"
        ),
        other => panic!("unexpected answer: {other:?}"),
    }
    assert_eq!(converge(0, &vec![]), Convergence::Agreed);
}

#[test]
fn bytes_are_found_in_the_log_or_missed() {
    assert!(contains(b"haystack", b"stack"));
    assert!(contains(b"aab", b"ab"));
    assert!(!contains(b"aab", b"ba"));
    assert!(!contains(b"aab", b""));
    assert!(!contains(b"a", b"aa"));
    let log = Some(vec![
        ("b".to_string(), b"one two".to_vec()),
        ("a".to_string(), b"three".to_vec()),
    ]);
    assert_eq!(assert_bytes_in_some_wal_entry(&log, b"two", "the object"), Ok(()));
    assert_eq!(
        assert_bytes_in_some_wal_entry(&log, b"four", "the object"),
        Err("the object (4 bytes) is in none of the 2 WAL entries, so it is durable nowhere: [\"a\", \"b\"]".to_string())
    );
    assert_eq!(
        assert_bytes_in_some_wal_entry(&None, b"four", "the object"),
        Err("the object is in no WAL entry: the bucket has no WAL directory at all".to_string())
    );
}

#[test]
fn the_api_heads_are_a_set() {
    let body = HeadsBody {
        version: 2,
        heads: vec!["b".to_string(), "a".to_string(), "b".to_string()],
        workspace_heads: TextMap::new(),
    };
    let heads = api_heads(body);
    assert_eq!(heads.version, 2);
    assert_eq!(heads.heads.texts(), &vec!["a".to_string(), "b".to_string()]);
}

#[test]
fn agents_that_see_different_views_fail_the_check() {
    let (agents, mut seen) = observed();
    seen.snapshots[1].view_heads = set(&["ff"]);
    let said = check_inner(&agents, &seen).unwrap_err();
    assert!(said.starts_with("agents did not converge after 8 reads:\n  ann: heads "));
}

#[test]
fn the_reads_of_all_agents_follow_one_another() {
    let mut ann = Agent::new("ann");
    ann.wrote(&[2], &vec![("x".to_string(), vec![1])]);
    let mut bob = Agent::new("bob");
    bob.wrote(&[1], &vec![("y".to_string(), vec![2])]);
    let tasks = reads_to_make(&vec![ann, bob], &vec![picture("ann"), picture("bob")]);
    let said: Vec<(&str, &str, &str)> = tasks
        .iter()
        .map(|t| (t.writer.as_str(), t.path.as_str(), t.reader.as_str()))
        .collect();
    assert_eq!(
        said,
        vec![("ann", "x", "ann"), ("ann", "x", "bob"), ("bob", "y", "ann"), ("bob", "y", "bob")]
    );
}

#[test]
fn every_file_is_read_by_everyone() {
    let mut ann = Agent::new("ann");
    ann.wrote(&[2], &vec![("x".to_string(), vec![1])]);
    ann.wrote(&[1], &vec![("y".to_string(), vec![2]), ("b".to_string(), vec![3])]);
    let tasks = reads_of("ann", &ann.expected_files(), &vec![picture("ann")]);
    let order: Vec<(Vec<u8>, String)> =
        tasks.iter().map(|t: &ReadTask| (t.commit.clone(), t.path.clone())).collect();
    assert_eq!(
        order,
        vec![
            (vec![1], "b".to_string()),
            (vec![1], "y".to_string()),
            (vec![2], "x".to_string()),
        ]
    );
}

// ─── Prepared changes ─────────────────────────────────────────────────────────

fn object(kind: u16, id: u8) -> PreparedObject {
    PreparedObject { kind, id: vec![id], data: vec![id, id] }
}

fn tree(entries: &[(&str, TreeValue)]) -> Tree {
    Tree { entries: entries.iter().map(|(n, v)| (n.to_string(), v.clone())).collect() }
}

fn file(id: u8) -> TreeValue {
    TreeValue::File { id: vec![id], executable: false, copy_id: vec![] }
}

#[test]
fn trees_are_collected_after_their_subtrees() {
    let root = tree(&[("a", TreeValue::Tree(vec![2])), ("b", TreeValue::Tree(vec![3]))]);
    let a = tree(&[("c", TreeValue::Tree(vec![4])), ("f", file(9))]);
    let leaf = tree(&[("f", file(9))]);
    let mut collection = TreeCollection::new(&[1], vec![object(KIND_FILE, 9)]);
    while let Some(id) = collection.next() {
        let read = match id[0] {
            1 => &root,
            2 => &a,
            _ => &leaf,
        };
        collection.took(&id, read);
    }
    let ids: Vec<u8> = collection.objects.iter().map(|o| o.id[0]).collect();
    assert_eq!(ids, vec![9, 4, 2, 3, 1]);
    assert_eq!(collection.objects[2].data, write_tree(&a));
    assert_eq!(collection.objects[2].kind, KIND_TREE);
}

#[test]
fn a_request_holds_what_was_prepared() {
    let request = prepared_publish(
        object(KIND_FILE, 1),
        vec![object(KIND_TREE, 2)],
        object(KIND_COMMIT, 3),
        vec![4],
        vec![5],
        &vec![vec![0x0a]],
        &[0xab, 0xcd],
        "bench",
    );
    let ids: Vec<u8> = request.objects.iter().map(|o| o.id[0]).collect();
    assert_eq!(ids, vec![1, 2, 3]);
    assert_eq!(request.heads.old_ids, vec!["0a".to_string()]);
    assert_eq!(request.heads.new_id, "abcd");
    assert_eq!(request.heads.workspace_id, "bench");
    assert_eq!(operation_id(&request), vec![0xab, 0xcd]);
    assert_eq!(only_head(&vec![vec![1]]), Ok(vec![1]));
    assert!(only_head(&vec![]).is_err());
}

fn an_operation(view: u8, parents: &[u8]) -> Operation {
    let epoch = Timestamp { millis_since_epoch: 0, tz_offset: 0 };
    Operation {
        view_id: vec![view; 64],
        parents: parents.iter().map(|p| vec![*p; 64]).collect(),
        metadata: OperationMetadata {
            start: epoch,
            end: epoch,
            description: String::new(),
            hostname: String::new(),
            username: String::new(),
            is_snapshot: false,
            tags: TextMap::new(),
        },
        commit_predecessors: None,
    }
}

fn a_view(heads: &[u8], copy: (&str, u8)) -> RepoView {
    let mut wc_commit_ids = TextMap::new();
    wc_commit_ids.insert(copy.0, vec![copy.1]);
    RepoView {
        head_ids: heads.iter().map(|h| vec![*h]).collect(),
        local_bookmarks: TextMap::new(),
        local_tags: TextMap::new(),
        remote_views: TextMap::new(),
        git_refs: TextMap::new(),
        git_head: RefTarget { terms: vec![None] },
        wc_commit_ids,
    }
}

#[test]
fn an_import_writes_what_is_needed_first() {
    let root_commit = vec![0u8];
    let root_operation = vec![0u8; 64];
    let mut walk = ImportWalk::new(&[2; 64]);
    let mut fetched = vec![];
    let mut stored = vec![];
    while let Some(step) = walk.next(&root_commit, &root_operation) {
        match step {
            ImportStep::Visit { kind, id } if kind == KIND_OPERATION => {
                fetched.push((kind, id[0]));
                let parents: &[u8] = if id[0] == 2 { &[1] } else { &[0] };
                walk.took_operation(&id, &an_operation(id[0], parents));
            }
            ImportStep::Visit { kind, id } => {
                fetched.push((kind, id[0]));
                let data = match (kind, id[0]) {
                    (KIND_TREE, 7) => write_tree(&tree(&[("f", file(8))])),
                    _ => vec![1],
                };
                if kind == KIND_COMMIT {
                    // Stand for a commit by the tree it needs.
                    walk.took_object(KIND_TREE, &id, &write_tree(&tree(&[("t", TreeValue::Tree(vec![7]))])))
                        .unwrap();
                } else {
                    walk.took_object(kind, &id, &data).unwrap();
                }
            }
            ImportStep::View(id) => {
                walk.took_view(&a_view(&[id[0] + 10, 0], ("w", 12)));
            }
            ImportStep::Store { kind, id } => stored.push((kind, id[0])),
            ImportStep::Refuse(why) => panic!("unexpected refusal: {why:?}"),
        }
    }
    // Each once, and no root.
    let mut distinct = fetched.clone();
    distinct.sort();
    distinct.dedup();
    assert_eq!(distinct.len(), fetched.len());
    assert!(!fetched.contains(&(KIND_COMMIT, 0)));
    assert!(!fetched.contains(&(KIND_OPERATION, 0)));
    let place = |item: (u16, u8)| stored.iter().position(|s| *s == item).unwrap();
    assert!(place((KIND_FILE, 8)) < place((KIND_TREE, 7)));
    assert!(place((KIND_TREE, 7)) < place((KIND_TREE, 11)));
    assert!(place((KIND_TREE, 11)) < place((KIND_OPERATION, 1)));
    assert!(place((KIND_OPERATION, 1)) < place((KIND_OPERATION, 2)));
}

#[test]
fn what_an_object_needs_depends_on_its_kind() {
    assert_eq!(object_needs(KIND_FILE, b"anything"), Ok((vec![], true)));
    let data = write_tree(&tree(&[("a", file(1)), ("b", TreeValue::Tree(vec![2]))]));
    assert_eq!(
        object_needs(KIND_TREE, &data),
        Ok((
            vec![
                Item { kind: KIND_FILE, id: vec![1] },
                Item { kind: KIND_TREE, id: vec![2] },
            ],
            true
        ))
    );
    assert_eq!(
        object_needs(KIND_TREE, &[0xff]),
        Err(ImportError::Message(MessageError::Decode))
    );
    let other = object_needs(KIND_SYMLINK, b"x").unwrap_err();
    assert_eq!(other.message(), "unsupported fixture object");
}

#[test]
fn what_stands_before_a_link_is_imported_first() {
    let data = write_tree(&tree(&[
        ("a", file(1)),
        ("l", TreeValue::Symlink(vec![2])),
        ("z", file(3)),
    ]));
    let first = Item { kind: KIND_FILE, id: vec![1] };
    assert_eq!(object_needs(KIND_TREE, &data), Ok((vec![first], false)));
    let mut walk = ImportWalk { steps: vec![], seen: vec![] };
    walk.took_object(KIND_TREE, &[9], &data).unwrap();
    assert_eq!(
        walk.next(&[0], &[0]),
        Some(ImportStep::Visit { kind: KIND_FILE, id: vec![1] })
    );
    walk.took_object(KIND_FILE, &[1], b"bytes").unwrap();
    assert_eq!(walk.next(&[0], &[0]), Some(ImportStep::Store { kind: KIND_FILE, id: vec![1] }));
    match walk.next(&[0], &[0]) {
        Some(ImportStep::Refuse(why)) => {
            assert_eq!(why.message(), "fixture only supports files and trees");
        }
        other => panic!("unexpected step: {other:?}"),
    }
    assert_eq!(walk.next(&[0], &[0]), None);
}

#[test]
fn reachable_commits_are_sorted_by_their_change() {
    // Commits 4 and 3 are of one change; 1 is below both, and 9 is not reached.
    let parents = |id: u8| -> Vec<Vec<u8>> {
        match id {
            4 => vec![vec![1]],
            3 => vec![vec![1], vec![0]],
            1 => vec![vec![0]],
            _ => vec![],
        }
    };
    let change = |id: u8| if id >= 3 { 0xc3 } else { 0xc0 + id };
    let mut walk = CommitWalk::new(&vec![vec![4], vec![3]]);
    while let Some(id) = walk.next() {
        walk.took(&id, &[change(id[0])], &parents(id[0]));
    }
    let changes = walk.finish();
    assert_eq!(changes.get("c3").unwrap().texts(), &vec!["03".to_string(), "04".to_string()]);
    assert_eq!(changes.get("c1").unwrap().texts(), &vec!["01".to_string()]);
    assert_eq!(changes.get("c0").unwrap().texts(), &vec!["00".to_string()]);
    assert_eq!(changes.len(), 3);
}

#[test]
fn what_was_imported_keeps_its_identity() {
    assert!(check_identity(KIND_FILE, &[1], &[1]).is_ok());
    assert_eq!(
        check_identity(KIND_FILE, &[1], &[2]),
        Err("native cache import changed identity".to_string())
    );
    assert_eq!(
        check_identity(KIND_OPERATION, &[1], &[2]),
        Err("operation import mismatch".to_string())
    );
    assert_eq!(check_view_identity(&[1], &[2]), Err("view import mismatch".to_string()));
}

#[test]
fn a_published_change_is_found_again() {
    let mut workspace_heads = TextMap::new();
    workspace_heads.insert("bench", vec![7]);
    let state = HeadsState { heads: vec![vec![7]], version: 1, workspace_heads };
    assert!(check_attribution(&state, "bench", &[7]).is_ok());
    assert_eq!(
        check_attribution(&state, "bench", &[8]),
        Err("server attributed a different operation identity".to_string())
    );
    assert_eq!(
        check_attribution(&state, "other", &[7]),
        Err("missing published workspace operation".to_string())
    );
    let view = a_view(&[1], ("bench", 5));
    assert!(check_published_commit(&view, "bench", &[5]).is_ok());
    assert!(check_published_commit(&view, "bench", &[6]).is_err());
    assert!(check_published_commit(&view, "other", &[5]).is_err());
    assert!(check_published_bytes(b"a", b"a").is_ok());
    assert!(check_published_bytes(b"a", b"b").is_err());
    let root = tree(&[("dir", TreeValue::Tree(vec![2])), ("l", TreeValue::Symlink(vec![3]))]);
    assert_eq!(descend(&root, "dir"), Descent::Tree(vec![2]));
    assert_eq!(descend(&root, "l"), Descent::Unexpected);
    assert_eq!(descend(&tree(&[("f", file(4))]), "f"), Descent::File(vec![4]));
}

#[test]
fn the_search_goes_below_the_heads_and_stops_at_the_root() {
    let id = |n: u8| vec![n; 64];
    let mut workspace_heads = TextMap::new();
    workspace_heads.insert("bench", id(7));
    let state = HeadsState { heads: vec![id(8), id(9)], version: 1, workspace_heads };
    assert!(PublishedSearch::new(&state, "other", &id(7)).is_err());
    assert!(PublishedSearch::new(&state, "bench", &id(6)).is_err());
    let mut search = PublishedSearch::new(&state, "bench", &id(7)).unwrap();
    assert_eq!(search.next(&id(0)), Ok(id(9)));
    assert_eq!(search.took(&id(9), &an_operation(1, &[0])), None);
    assert_eq!(search.next(&id(0)), Ok(id(8)));
    assert_eq!(search.took(&id(8), &an_operation(2, &[7, 9])), None);
    assert_eq!(search.next(&id(0)), Ok(id(7)));
    assert_eq!(search.took(&id(7), &an_operation(3, &[0])), Some(id(3)));

    let mut search = PublishedSearch::new(&state, "bench", &id(7)).unwrap();
    for n in [9, 8] {
        assert_eq!(search.next(&id(0)), Ok(id(n)));
        assert_eq!(search.took(&id(n), &an_operation(1, &[0])), None);
    }
    assert_eq!(
        search.next(&id(0)),
        Err("workspace operation is unreachable from current heads".to_string())
    );
}

#[test]
fn an_agent_takes_a_picture_of_what_it_sees() {
    let agent = Agent::new("ann");
    let view = a_view(&[0x0c, 0x0b], ("ann", 0x0c));
    assert_eq!(agent.working_commit_id(&view, &[0]), vec![0x0c]);
    assert_eq!(agent.commit_to_describe(&view, &[0]), Some(vec![0x0c]));
    assert_eq!(agent.commit_to_describe(&view, &[0x0c]), None);
    let other = Agent::new("bob");
    assert_eq!(other.working_commit_id(&view, &[0]), vec![0]);
    assert_eq!(other.commit_to_describe(&view, &[0]), None);
    let heads = vec![vec![2], vec![1], vec![2]];
    assert_eq!(agent.op_heads(&heads), vec!["01", "02", "02"]);
    let picture = agent.snapshot(&heads, &view, TextMap::new());
    assert_eq!(picture.name, "ann");
    assert_eq!(picture.op_heads, set(&["01", "02"]));
    assert_eq!(picture.view_heads, set(&["0b", "0c"]));
    assert_eq!(picture.working_copies.get("ann"), Some(&"0c".to_string()));
    assert_eq!(picture.file_id(&[1], "a.txt", Some(&file(0x1f))), Ok("1f".to_string()));
    assert_eq!(
        picture.file_id(&[1], "a.txt", Some(&TreeValue::Tree(vec![2]))),
        Err("ann: a.txt is not a plain file in 01".to_string())
    );
    assert_eq!(
        file_at("ann", "a.txt", &[1], None),
        Err("ann: a.txt is not a plain file in 01".to_string())
    );
}
