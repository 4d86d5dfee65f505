use tandem::authority::{
    assemble_bases, first_shared_by_all, is_rewrite_of, merge_base, served_head_ids,
    unserved_parent_message, BaseAnswer, KnownOps, Lane, ScopeFailure, ServedStep, ServedWalk,
    MAX_HISTORY_WALK,
};
use tandem::bucket::{
    acknowledged_heads, adopted_metadata, check_replayed, derived_step, heads_to_replay,
    index_conflict_result, index_document, index_is_ahead, is_root_operation_hex,
    prospective_op_heads, publish_writes_entry, recovery, replay_plan, test_env_u64, AncestryWalk,
    DerivedStep, IndexPut, IndexPutOutcome, IndexSlot, Mirroring, Recovery, ReplayStep, WalkAction,
};
use tandem::faults::{CrashWindow, FaultError, FaultPoints};
use tandem::heads::{
    catch_up, finish_update, head_ids_for_wire, read_route, readable_head_ids,
    resolve_operation_id_prefix, start_update, updated_workspace_heads, workspace_heads_for_wire,
    write_route, HeadsMetadata, HeadsState, MetadataError, ObjectError, ObjectRoute, UpdateStart,
    WatcherTable,
};
use tandem::order::TextMap;
use tandem::publish::PublishStage;
use tandem::publish_scope::{ScopeAnswer, ScopeCheck, ScopeStage};
use tandem::serve::{ServeAction, ServeEvent, ServePhase, ServeState, DRAIN_TIMEOUT_MS};
use tandem::wal::{IndexObject, RecordKind, WalEntry, WalRecord};

fn texts(list: &[&str]) -> Vec<String> {
    list.iter().map(|s| s.to_string()).collect()
}

fn map(pairs: &[(&str, &str)]) -> TextMap<String> {
    let mut m = TextMap::new();
    for (k, v) in pairs {
        m.insert(k, v.to_string());
    }
    m
}

// ─── Heads ────────────────────────────────────────────────────────────────────

#[test]
fn metadata_reads_back_and_starts_at_zero() {
    let metadata = HeadsMetadata { version: 4, workspace_heads: map(&[("w", "0a")]) };
    assert_eq!(HeadsMetadata::decode(&metadata.encode().unwrap()), Ok(metadata));
    assert_eq!(HeadsMetadata::initial().version, 0);
    assert_eq!(HeadsMetadata::decode(b"[]"), Err(MetadataError::Decode));
    assert_eq!(HeadsMetadata::decode(br#"{"version":2}"#).unwrap().version, 2);
}

#[test]
fn one_of_two_publishes_at_one_version_wins() {
    let metadata = HeadsMetadata { version: 4, workspace_heads: map(&[("other", "0b")]) };
    let heads = texts(&["0a", "0b"]);
    match start_update(&metadata, &heads, &vec![vec![0x0a]], &[0x0c], 4) {
        UpdateStart::Retire(old) => assert_eq!(old, vec![vec![0x0a]]),
        other => panic!("unexpected start: {other:?}"),
    }
    let (next, result) = finish_update(&metadata, &texts(&["0b", "0c"]), &[0x0c], Some("w"));
    assert_eq!(next.version, 5);
    assert_eq!(next.workspace_heads, map(&[("other", "0b"), ("w", "0c")]));
    assert!(result.ok);
    assert_eq!(result.version, 5);
    assert_eq!(result.heads, vec![vec![0x0b], vec![0x0c]]);
    match start_update(&next, &texts(&["0b", "0c"]), &vec![vec![0x0a]], &[0x0d], 4) {
        UpdateStart::Refuse(refused) => {
            assert!(!refused.ok);
            assert_eq!(refused.version, 5);
        }
        other => panic!("unexpected start: {other:?}"),
    }
}

#[test]
fn a_publish_moves_only_its_workspace() {
    let before = map(&[("a", "01"), ("b", "02")]);
    assert_eq!(
        updated_workspace_heads(&before, Some("b"), "03"),
        map(&[("a", "01"), ("b", "03")])
    );
    assert_eq!(updated_workspace_heads(&before, None, "03"), before);
    assert_eq!(updated_workspace_heads(&before, Some(""), "03"), before);
}

#[test]
fn heads_that_are_not_hex_are_left_out_of_the_wire() {
    assert_eq!(head_ids_for_wire(&texts(&["0a", "ff00"])), vec![vec![10], vec![255, 0]]);
    assert_eq!(readable_head_ids(&texts(&["0a", "nope"])), vec![vec![10]]);
    assert_eq!(
        workspace_heads_for_wire(&map(&[("a", "0a")])),
        vec![("a".to_string(), vec![10])]
    );
}

#[test]
fn watchers_hear_of_each_version_once() {
    let mut table = WatcherTable::new();
    table.register(3);
    table.register(0);
    assert_eq!(table.notify(3), vec![1]);
    assert_eq!(table.notify(3), Vec::<usize>::new());
    assert_eq!(table.notify(5), vec![0, 1]);
    assert_eq!(table.cancel(), 2);
    assert_eq!(table.notify(9), Vec::<usize>::new());
    let state =
        HeadsState { version: 2, heads: texts(&["0a"]), workspace_heads: TextMap::new() };
    assert_eq!(catch_up(1, &state), Some((2, vec![vec![10]])));
    assert_eq!(catch_up(2, &state), None);
}

#[test]
fn operation_prefixes_are_resolved_by_name() {
    let names = texts(&["aa01", "aa02", "bb"]);
    assert_eq!(
        resolve_operation_id_prefix(&names, "b"),
        Ok(("singleMatch".to_string(), Some(vec![0xbb])))
    );
    assert_eq!(resolve_operation_id_prefix(&names, "aa"), Ok(("ambiguous".to_string(), None)));
    assert_eq!(resolve_operation_id_prefix(&names, "c"), Ok(("noMatch".to_string(), None)));
}

#[test]
fn objects_are_routed_by_kind() {
    assert_eq!(read_route("commit", &[0; 20], &[0; 20]), Ok(ObjectRoute::RootCommit));
    assert_eq!(read_route("commit", &[1; 20], &[0; 20]), Ok(ObjectRoute::Commit));
    assert_eq!(read_route("file", &[0; 20], &[0; 20]), Ok(ObjectRoute::File));
    assert_eq!(read_route("copy", &[1], &[0]).unwrap_err(), ObjectError::CopyUnsupported);
    let unknown = read_route("banana", &[1], &[0]).unwrap_err();
    assert_eq!(unknown.message(), "unknown object kind: banana");
    assert_eq!(write_route("tree", &vec![1]), Ok(ObjectRoute::Tree));
    assert_eq!(write_route("symlink", &b"target".to_vec()), Ok(ObjectRoute::Symlink));
    assert_eq!(write_route("symlink", &vec![0xff]).unwrap_err(), ObjectError::SymlinkNotText);
}

// ─── The bucket ───────────────────────────────────────────────────────────────

#[test]
fn parents_are_written_before_their_children() {
    let mut walk = AncestryWalk::new("0c");
    assert_eq!(walk.next(), Some(WalkAction::Check("0c".to_string())));
    walk.descend("0c", &texts(&["0a", "0b"]));
    let mut written = vec![];
    while let Some(action) = walk.next() {
        match action {
            WalkAction::Check(op) => {
                if op == "0b" {
                    walk.descend("0b", &texts(&["0a"]));
                } else {
                    walk.descend(&op, &vec![]);
                }
            }
            WalkAction::Write(op) => written.push(op),
        }
    }
    assert_eq!(written.len(), 3);
    assert_eq!(written[2], "0c");
    let place = |op: &str| written.iter().position(|w| w == op).unwrap();
    assert!(place("0a") < place("0b"));
}

#[test]
fn the_root_operation_has_no_entry() {
    assert!(is_root_operation_hex(&"0".repeat(128)));
    assert!(!is_root_operation_hex(&format!("{}1", "0".repeat(127))));
    assert!(!publish_writes_entry(&"0".repeat(128), false));
    assert!(publish_writes_entry("0a", false));
    assert!(!publish_writes_entry("0a", true));
}

#[test]
fn the_index_is_compared_and_set() {
    let mut slot = IndexSlot { conditional: true, etag: None };
    assert_eq!(slot.plan(), IndexPut::Compare(None));
    assert_eq!(slot.settle(IndexPutOutcome::Stored("e1".to_string())), Some(true));
    assert_eq!(slot.plan(), IndexPut::Compare(Some("e1".to_string())));
    assert_eq!(slot.settle(IndexPutOutcome::Conflict), Some(false));
    assert_eq!(slot.settle(IndexPutOutcome::Failed), None);
    let plain = IndexSlot { conditional: false, etag: Some("e".to_string()) };
    assert_eq!(plain.plan(), IndexPut::Overwrite);
    let found = Some((br#"{"version":9,"opHeads":["0a"]}"#.to_vec(), "e2".to_string()));
    let index = slot.reload(found).unwrap().unwrap();
    assert_eq!(index.version, 9);
    assert_eq!(slot.etag, Some("e2".to_string()));
    assert!(slot.reload(Some((b"junk".to_vec(), "e3".to_string()))).is_err());
}

#[test]
fn heads_after_a_publish_are_sorted_and_distinct() {
    let current = texts(&["0a", "0c"]);
    assert_eq!(
        prospective_op_heads(&current, &vec![vec![0x0a]], &[0x0b]),
        texts(&["0b", "0c"])
    );
    assert_eq!(prospective_op_heads(&current, &vec![], &[0x0c]), texts(&["0a", "0c"]));
    let document = index_document(3, &current, &map(&[("w", "0a")])).unwrap();
    let read = IndexObject::decode(&document).unwrap();
    assert_eq!(read.op_heads, current);
    assert_eq!(read.version, 3);
}

fn index(version: u64, heads: &[&str]) -> IndexObject {
    IndexObject { version, op_heads: texts(heads), workspace_heads: map(&[("w", "0a")]) }
}

#[test]
fn recovery_follows_the_newer_of_the_two() {
    assert!(index_is_ahead(1, &Some(index(2, &[]))));
    assert!(!index_is_ahead(2, &Some(index(2, &[]))));
    assert!(!index_is_ahead(0, &None));
    assert_eq!(recovery(0, &None), Recovery::Seed);
    assert_eq!(recovery(1, &Some(index(2, &[]))), Recovery::Adopt);
    assert_eq!(recovery(3, &Some(index(2, &[]))), Recovery::Republish);
    assert_eq!(recovery(2, &Some(index(2, &[]))), Recovery::InSync);
    let adopted = adopted_metadata(&index(7, &["0a"]));
    assert_eq!(adopted.version, 7);
    assert_eq!(adopted.workspace_heads, map(&[("w", "0a")]));
}

#[test]
fn a_conflict_answers_with_what_the_index_says() {
    let metadata = HeadsMetadata { version: 1, workspace_heads: TextMap::new() };
    let result = index_conflict_result(metadata, Some(index(6, &["0b"])), &texts(&["0a"]));
    assert!(!result.ok);
    assert_eq!(result.version, 6);
}

#[test]
fn replay_goes_record_by_record() {
    let entry = WalEntry {
        op_id: vec![1],
        parents: vec![],
        records: vec![
            WalRecord { kind: RecordKind::File, id: vec![2], data: vec![] },
            WalRecord { kind: RecordKind::View, id: vec![3], data: vec![] },
            WalRecord { kind: RecordKind::Operation, id: vec![0xab], data: vec![] },
        ],
    };
    assert_eq!(
        replay_plan(&entry),
        vec![
            ReplayStep::Object("file"),
            ReplayStep::View("03".to_string()),
            ReplayStep::Operation("ab".to_string()),
        ]
    );
    assert!(check_replayed("file", &[1], &[1]).is_ok());
    assert!(check_replayed("file", &[1], &[2]).is_err());
    assert_eq!(heads_to_replay(&texts(&["0a", "0b"]), &texts(&["0b"])), texts(&["0a"]));
}

#[test]
fn a_head_is_acknowledged_once_its_entry_is_durable() {
    let heads = texts(&["0a", "0b", "0c"]);
    let kept = acknowledged_heads(&heads, &texts(&["0a"]), &vec![true, false, true]);
    assert!(kept.contains(&"0a".to_string()));
    assert!(!kept.contains(&"0b".to_string()));
    assert_eq!(kept, texts(&["0a"]));
    assert_eq!(acknowledged_heads(&heads, &texts(&["0a"]), &vec![true; 3]), heads);
    assert_eq!(test_env_u64(Some("12")), 12);
    assert_eq!(test_env_u64(Some("x")), 0);
    assert_eq!(test_env_u64(None), 0);
}

#[test]
fn derived_heads_are_mirrored_once_they_are_durable() {
    let heads = texts(&["0a", "0b"]);
    let old = texts(&["09"]);
    let step = |made: &[bool], mirroring: Mirroring| {
        derived_step(&heads, &old, &made.to_vec(), mirroring)
    };
    let open = Mirroring::Open;
    assert_eq!(step(&[], open), DerivedStep::EnsureEntry("0a".to_string()));
    assert_eq!(step(&[true], open), DerivedStep::EnsureEntry("0b".to_string()));
    assert_eq!(step(&[true, true], open), DerivedStep::WriteIndex);
    let all = DerivedStep::Acknowledge(texts(&["0a", "0b"]));
    assert_eq!(step(&[true, true], Mirroring::Tried(Some(true))), all);
    assert_eq!(step(&[true, true], Mirroring::Tried(None)), all);
    assert_eq!(step(&[true, true], Mirroring::Tried(Some(false))), DerivedStep::ReloadIndex);
    assert_eq!(step(&[true, true], Mirroring::Reloaded), all);
    assert_eq!(step(&[true, false], open), DerivedStep::Acknowledge(texts(&["09"])));
}

// ─── Authority ────────────────────────────────────────────────────────────────

fn walk_served(parents: &[u8], heads: &[u8], history: &[(u8, &[u8])]) -> ServedStep {
    let ids = |list: &[u8]| list.iter().map(|b| vec![*b]).collect::<Vec<Vec<u8>>>();
    let mut walk = ServedWalk::new(&ids(parents), &ids(heads), &[0]);
    loop {
        match walk.next() {
            ServedStep::Read(id) => {
                let found = history.iter().find(|(op, _)| *op == id[0]).expect("known");
                walk.took(&ids(found.1));
            }
            done => return done,
        }
    }
}

#[test]
fn a_parent_in_the_served_history_is_accepted() {
    let history: &[(u8, &[u8])] = &[(9, &[8]), (8, &[7]), (7, &[0])];
    assert_eq!(walk_served(&[7], &[9], history), ServedStep::Accept);
    assert_eq!(walk_served(&[9, 0], &[9], history), ServedStep::Accept);
    assert_eq!(walk_served(&[5], &[9], history), ServedStep::Deny(vec![5]));
    assert!(unserved_parent_message(&[0xab]).contains("ab"));
    assert!(MAX_HISTORY_WALK > 0);
}

fn known(history: &[(u8, &[u8])]) -> KnownOps {
    let mut ops = KnownOps::new();
    for (op, parents) in history {
        ops.learn(vec![*op], parents.iter().map(|p| vec![*p]).collect());
    }
    ops
}

#[test]
fn the_merge_base_is_the_closest_shared_operation() {
    let history: &[(u8, &[u8])] = &[(5, &[3]), (4, &[3]), (3, &[1]), (1, &[])];
    assert_eq!(
        merge_base(&vec![vec![5], vec![4]], &known(history)),
        BaseAnswer::Found(vec![3])
    );
    let apart: &[(u8, &[u8])] = &[(5, &[]), (4, &[])];
    assert_eq!(merge_base(&vec![vec![5], vec![4]], &known(apart)), BaseAnswer::NotFound);
    match merge_base(&vec![vec![5], vec![4]], &KnownOps::new()) {
        BaseAnswer::Need(id) => assert!(id == vec![5] || id == vec![4]),
        other => panic!("unexpected answer: {other:?}"),
    }
    let lane = |ids: &[u8]| Lane {
        reached: ids.iter().map(|b| vec![*b]).collect(),
        frontier: vec![],
    };
    assert_eq!(first_shared_by_all(&vec![lane(&[1, 2]), lane(&[3, 2])]), Some(vec![2]));
    assert_eq!(first_shared_by_all(&vec![lane(&[1]), lane(&[2])]), None);
}

#[test]
fn a_publish_is_measured_against_what_it_comes_from() {
    assert_eq!(served_head_ids(&texts(&["0a"])), Ok(vec![vec![10]]));
    let wrong = served_head_ids(&texts(&["zz"])).unwrap_err();
    assert_eq!(wrong, ScopeFailure::HeadNotHex("zz".to_string()));
    assert!(!wrong.is_denial());
    assert!(ScopeFailure::UnservedParent(vec![1]).is_denial());
    let bases = assemble_bases(vec![1, 2], vec![3], Some(4), 9);
    assert_eq!(bases.inherited, vec![1, 2]);
    assert_eq!(bases.merge_base, Some(4));
    let bases = assemble_bases(vec![], vec![], None, 9);
    assert!(bases.inherited == vec![9] || bases.served == vec![9]);
    assert!(is_rewrite_of(&Some(vec![1]), &Some(vec![1])));
    assert!(!is_rewrite_of(&Some(vec![1]), &Some(vec![2])));
    assert!(!is_rewrite_of(&None, &Some(vec![2])));
}

/// A check over a history of operations whose view is their own id, on a server with
/// root operation 0.
fn scope_of(new: u8, heads: &[&str], history: &[(u8, &[u8])]) -> (Vec<u8>, ScopeCheck<u8>) {
    let parents = |id: &[u8]| {
        let found = history.iter().find(|(op, _)| *op == id[0]);
        found.map(|(_, parents)| parents.iter().map(|p| vec![*p]).collect::<Vec<Vec<u8>>>())
    };
    let why = || "why".to_string();
    let mut asked_of = vec![];
    let mut check = ScopeCheck::new(vec![new], vec![0], 100);
    loop {
        let answer = match &check.stage {
            ScopeStage::Published { new_id, .. } => match parents(new_id) {
                Some(found) => ScopeAnswer::Published(found, new_id[0]),
                None => ScopeAnswer::Unread(why()),
            },
            ScopeStage::Heads { .. } => ScopeAnswer::Heads(texts(heads)),
            ScopeStage::History { asked, .. } | ScopeStage::MergeBase { asked, .. } => {
                asked_of.push(asked[0]);
                match parents(asked) {
                    Some(found) => ScopeAnswer::Parents(found),
                    None => ScopeAnswer::Unread(why()),
                }
            }
            ScopeStage::Base { asked, .. } | ScopeStage::MergeView { asked, .. } => {
                asked_of.push(asked[0]);
                match parents(asked) {
                    Some(_) => ScopeAnswer::View(asked[0]),
                    None => ScopeAnswer::NoView(why()),
                }
            }
            ScopeStage::Measure { .. } | ScopeStage::Settled(_) => return (asked_of, check),
        };
        check = check.took(answer);
    }
}

const SCOPE_HISTORY: &[(u8, &[u8])] =
    &[(9, &[8, 7]), (8, &[6]), (7, &[6]), (6, &[0]), (20, &[8, 7]), (21, &[8]), (22, &[5])];

#[test]
fn a_scope_check_reads_in_order() {
    let (asked, check) = scope_of(20, &["09"], SCOPE_HISTORY);
    // The walk, the views of the parents and of the head, the search, the merge base.
    assert_eq!(asked, vec![9, 8, 7, 9, 8, 7, 6]);
    match &check.stage {
        ScopeStage::Measure { view, bases } => {
            assert_eq!(*view, 20);
            assert_eq!(bases.inherited, vec![8, 7]);
            assert_eq!(bases.served, vec![9]);
            assert_eq!(bases.merge_base, Some(6));
        }
        other => panic!("unexpected stage: {other:?}"),
    }
    let denied = check.took(ScopeAnswer::Denied("no".to_string()));
    let failure = ScopeFailure::OutOfScope("no".to_string());
    assert!(failure.is_denial());
    assert_eq!(failure.message(), "no");
    assert_eq!(denied.stage, ScopeStage::Settled(Err(failure)));
    let (_, check) = scope_of(20, &["09"], SCOPE_HISTORY);
    assert_eq!(check.took(ScopeAnswer::Allowed).stage, ScopeStage::Settled(Ok(())));
}

#[test]
fn one_parent_needs_no_merge_base() {
    let (asked, check) = scope_of(21, &["09"], SCOPE_HISTORY);
    assert_eq!(asked, vec![9, 8, 9]);
    match check.stage {
        ScopeStage::Measure { bases, .. } => assert_eq!(bases.merge_base, None),
        other => panic!("unexpected stage: {other:?}"),
    }
}

#[test]
fn each_way_a_scope_check_can_fail() {
    let settled = |check: ScopeCheck<u8>| match check.stage {
        ScopeStage::Settled(Err(failure)) => failure,
        other => panic!("unexpected stage: {other:?}"),
    };
    let failure = settled(scope_of(99, &[], SCOPE_HISTORY).1);
    assert_eq!(failure, ScopeFailure::CannotCheck(vec![99], "why".to_string()));
    let failure = settled(scope_of(21, &["zz"], SCOPE_HISTORY).1);
    assert_eq!(failure, ScopeFailure::HeadNotHex("zz".to_string()));
    let (asked, check) = scope_of(22, &["09"], SCOPE_HISTORY);
    assert_eq!(settled(check), ScopeFailure::UnservedParent(vec![5]));
    // All of the history was read, and no view.
    assert_eq!(asked, vec![9, 7, 6, 8]);
    let failure = settled(scope_of(21, &["08", "63"], SCOPE_HISTORY).1);
    assert_eq!(failure, ScopeFailure::CannotReadView(vec![0x63], "why".to_string()));
    let check = ScopeCheck::new(vec![21], vec![0], 100u8)
        .took(ScopeAnswer::Published(vec![vec![8]], 21))
        .took(ScopeAnswer::Unread("disk".to_string()));
    let failure = settled(check);
    assert_eq!(failure, ScopeFailure::HeadsUnread("disk".to_string()));
    assert!(!failure.is_denial());
    assert_eq!(failure.message(), "disk");
    let check = ScopeCheck::new(vec![21], vec![0], 100u8)
        .took(ScopeAnswer::Published(vec![vec![8]], 21))
        .took(ScopeAnswer::Heads(texts(&["08"])))
        .took(ScopeAnswer::Unread("disk".to_string()));
    let failure = settled(check);
    assert_eq!(failure, ScopeFailure::CannotReadOperation(vec![8], "disk".to_string()));
}

#[test]
fn the_first_operation_is_measured_against_the_empty_repo() {
    let check = ScopeCheck::new(vec![1], vec![0], 100u8)
        .took(ScopeAnswer::Published(vec![], 1))
        .took(ScopeAnswer::Heads(vec![]));
    match check.stage {
        ScopeStage::Measure { view, bases } => {
            assert_eq!((view, bases.served), (1, vec![100]));
        }
        other => panic!("unexpected stage: {other:?}"),
    }
}

// ─── Faults and stages ────────────────────────────────────────────────────────

#[test]
fn faults_fire_as_often_as_they_were_asked_for() {
    let mut faults = FaultPoints::inert();
    assert!(!faults.take_index_cas_conflict());
    faults.set_index_cas_conflicts(2);
    assert!(faults.take_index_cas_conflict());
    assert!(faults.take_index_cas_conflict());
    assert!(!faults.take_index_cas_conflict());
    faults.fail_wal_writes(1);
    assert!(faults.take_wal_write_failure());
    assert!(!faults.take_wal_write_failure());
    faults.stage_object_on_index_conflict(Some(vec![1]));
    assert_eq!(faults.object_for_index_conflict(), Some(vec![1]));
    faults.fail_derived_head_wal(true);
    assert!(faults.derived_head_wal_fault().unwrap().message().contains("derived op head"));
}

#[test]
fn a_crash_halts_the_server_in_its_window() {
    let mut faults = FaultPoints::inert();
    faults.crash_at(Some(CrashWindow::AfterIndexWrite));
    assert!(faults.crash(CrashWindow::BeforeWalWrite).is_ok());
    assert_eq!(
        faults.crash(CrashWindow::AfterIndexWrite),
        Err(FaultError::Stopped(CrashWindow::AfterIndexWrite))
    );
    assert!(faults.halted());
    assert_eq!(faults.refuse_if_halted(), Err(FaultError::Halted));
    assert_eq!(CrashWindow::all().len(), 5);
}

#[test]
fn a_publish_goes_through_its_stages_in_order() {
    let mut stage = PublishStage::first();
    let mut windows = vec![stage.window()];
    while let Some(next) = stage.next() {
        stage = next;
        windows.push(stage.window());
    }
    assert_eq!(windows, CrashWindow::all());
}

// ─── Serving ──────────────────────────────────────────────────────────────────

#[test]
fn a_server_drains_before_it_stops() {
    let mut state = ServeState::new();
    assert_eq!(state.step(ServeEvent::Connected), ServeAction::Serve(1));
    assert_eq!(state.step(ServeEvent::Connected), ServeAction::Serve(2));
    assert_eq!(state.step(ServeEvent::Signal), ServeAction::Wait);
    assert_eq!(state.step(ServeEvent::Connected), ServeAction::Nothing);
    assert_eq!(state.step(ServeEvent::Disconnected), ServeAction::Nothing);
    assert_eq!(state.step(ServeEvent::Tick(10)), ServeAction::Wait);
    assert_eq!(state.step(ServeEvent::Disconnected), ServeAction::Nothing);
    assert_eq!(state.step(ServeEvent::Tick(20)), ServeAction::Stop(false));
    assert_eq!(state.phase, ServePhase::Stopped);
}

#[test]
fn draining_is_given_up_and_a_second_signal_forces_the_exit() {
    let mut state = ServeState::new();
    state.step(ServeEvent::Connected);
    assert_eq!(state.step(ServeEvent::ShutdownRequested), ServeAction::Wait);
    assert_eq!(state.step(ServeEvent::Tick(DRAIN_TIMEOUT_MS + 1)), ServeAction::Stop(true));
    let mut state = ServeState::new();
    state.step(ServeEvent::Connected);
    state.step(ServeEvent::Signal);
    assert_eq!(state.step(ServeEvent::Signal), ServeAction::ForceExit);
    let mut idle = ServeState::new();
    assert_eq!(idle.step(ServeEvent::Signal), ServeAction::Stop(false));
}
