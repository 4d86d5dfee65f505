use tandem::staging::{
    operation_entry, settle_entry, DurableOps, PendingBlobs, PutOutcome, DURABLE_OPS_CAPACITY,
    PENDING_BLOBS_MAX_BYTES,
};
use tandem::wal::{RecordKind, WalRecord};

fn blob(tag: u8, len: usize) -> WalRecord {
    WalRecord { kind: RecordKind::File, id: vec![tag], data: vec![tag; len] }
}

/// The staging buffer is a hard cap, not a warning. A client that writes
/// and never publishes must be refused rather than grow the server's
/// memory without limit.
#[test]
fn staging_refuses_writes_past_its_cap() {
    let mut pending = PendingBlobs::default();
    let chunk = PENDING_BLOBS_MAX_BYTES / 4;

    for tag in 0..4u8 {
        pending.stage(blob(tag, chunk)).expect("staging under the cap must be accepted");
    }
    let err = pending.stage(blob(9, chunk)).expect_err("staging past the cap must be refused");
    assert!(
        err.message().contains("no publish has made durable"),
        "the refusal should say why: {}",
        err.message()
    );
    assert_eq!(pending.records().len(), 4, "a refused write must not be buffered");
}

/// Restaging is not a new write. The objects were accepted already and the
/// client has been told nothing about them, so dropping them at the cap
/// would lose content a later head can reach.
#[test]
fn restaging_is_not_subject_to_the_cap() {
    let mut pending = PendingBlobs::default();
    let chunk = PENDING_BLOBS_MAX_BYTES / 2;

    pending.stage(blob(1, chunk)).expect("first stage");
    let drained = pending.take();
    pending.stage(blob(2, chunk)).expect("second stage");

    pending.restage(drained);
    assert_eq!(
        pending.records().len(),
        2,
        "restaged objects must survive even when the buffer is at its cap"
    );
    assert_eq!(
        pending.records()[0].id,
        vec![1],
        "restaged objects go ahead of anything written since"
    );
}

#[test]
fn taking_empties_the_buffer() {
    let mut pending = PendingBlobs::default();
    pending.stage(blob(1, 3)).unwrap();
    pending.stage(blob(2, 4)).unwrap();
    assert_eq!(pending.bytes(), 7);
    assert_eq!(pending.take().len(), 2);
    assert_eq!(pending.bytes(), 0);
    assert!(pending.records().is_empty());
}

fn an_entry() -> tandem::wal::WalEntry {
    operation_entry(
        vec![0xaa],
        vec![vec![0xbb]],
        vec![blob(1, 2), blob(2, 2)],
        vec![0xcc],
        b"view".to_vec(),
        b"op".to_vec(),
    )
}

#[test]
fn an_entry_carries_the_blobs_then_the_view_then_the_operation() {
    let entry = an_entry();
    assert_eq!(entry.op_id, vec![0xaa]);
    assert_eq!(entry.parents, vec![vec![0xbb]]);
    let kinds: Vec<RecordKind> = entry.records.iter().map(|r| r.kind).collect();
    assert_eq!(
        kinds,
        vec![RecordKind::File, RecordKind::File, RecordKind::View, RecordKind::Operation]
    );
    assert_eq!(entry.records[2].id, vec![0xcc]);
    assert_eq!(entry.records[3].data, b"op".to_vec());
}

/// A write that fails puts the objects back; one that finds an entry there puts
/// back only what that entry cannot be known to carry.
#[test]
fn a_failed_write_gives_the_objects_back() {
    let mut pending = PendingBlobs::default();
    settle_entry(&mut pending, an_entry(), PutOutcome::Stored);
    assert!(pending.records().is_empty());

    settle_entry(&mut pending, an_entry(), PutOutcome::Failed);
    let ids: Vec<Vec<u8>> = pending.records().iter().map(|r| r.id.clone()).collect();
    assert_eq!(ids[0], vec![1]);
    assert_eq!(ids[1], vec![2]);

    let mut other = PendingBlobs::default();
    settle_entry(&mut other, an_entry(), PutOutcome::AlreadyThere);
    assert_eq!(other.records().len(), 2);
    assert!(other.records().iter().all(|r| r.kind == RecordKind::File));
}

#[test]
fn the_cache_of_durable_entries_forgets_the_oldest() {
    let mut ops = DurableOps::new();
    assert!(!ops.contains("0"));
    for i in 0..DURABLE_OPS_CAPACITY {
        ops.insert(&i.to_string());
    }
    ops.insert("0");
    assert!(ops.contains("0"));
    ops.insert("one more");
    assert!(!ops.contains("0"));
    assert!(ops.contains("1"));
    assert!(ops.contains("one more"));
}

#[test]
fn whatever_is_called_each_id_is_held_once() {
    let mut pending = PendingBlobs::default();
    pending.stage(blob(1, 3)).unwrap();
    pending.accept(blob(1, 9));
    pending.accept(blob(2, 4));
    let drained = pending.take();
    pending.stage(blob(2, 4)).unwrap();
    pending.stage(blob(3, 5)).unwrap();
    pending.restage(drained);
    let ids: Vec<u8> = pending.records().iter().map(|record| record.id[0]).collect();
    assert_eq!(ids, vec![1, 2, 3]);
    assert_eq!(pending.bytes(), 12);
}
