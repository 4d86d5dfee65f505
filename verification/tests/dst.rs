//! Fixed schedules against a whole server: its bucket and its disk are maps, and
//! everything it decides is decided by the library.

use std::collections::BTreeMap;

use tandem::bucket::{
    adopted_metadata, heads_to_replay, index_conflict_result, index_document, is_root_operation_hex,
    missing_entry_message, prospective_op_heads, recovery, replay_plan, AncestryWalk, IndexPut,
    IndexPutOutcome, IndexSlot, Recovery, ReplayStep, WalkAction,
};
use tandem::faults::{CrashWindow, FaultPoints};
use tandem::heads::{
    finish_update, start_update, updated_workspace_heads, HeadsMetadata, UpdateStart,
};
use tandem::hex::{from_hex, to_hex};
use tandem::op_heads_store::{HeadUpdate, UpdateStep, VersionCache};
use tandem::oracle::assert_bytes_in_some_wal_entry;
use tandem::publish::PublishStage;
use tandem::staging::{operation_entry, DurableOps, PutOutcome};
use tandem::uploads::Uploads;
use tandem::wal::{wal_key, IndexObject, RecordKind, WalEntry, WalRecord};

/// The bucket: entries and the index, each write of which gets a new etag.
#[derive(Default)]
struct Bucket {
    entries: BTreeMap<String, Vec<u8>>,
    index: Option<(Vec<u8>, String)>,
    writes: u64,
}

impl Bucket {
    fn put_index(&mut self, document: Vec<u8>, put: IndexPut) -> IndexPutOutcome {
        if let IndexPut::Compare(expected) = put {
            if self.index.as_ref().map(|(_, etag)| etag.clone()) != expected {
                return IndexPutOutcome::Conflict;
            }
        }
        self.writes += 1;
        let etag = format!("etag-{}", self.writes);
        self.index = Some((document, etag.clone()));
        IndexPutOutcome::Stored(etag)
    }

    fn index(&self) -> IndexObject {
        IndexObject::decode(&self.index.as_ref().expect("an index").0).expect("a readable index")
    }

    fn holds(&self, bytes: &[u8], what: &str) {
        let entries = self.entries.iter().map(|(k, v)| (k.clone(), v.clone())).collect();
        assert_bytes_in_some_wal_entry(&Some(entries), bytes, what).expect(what);
    }
}

/// The disk: what survives the process, but not the machine.
struct Disk {
    operations: BTreeMap<String, (Vec<Vec<u8>>, Vec<u8>)>,
    objects: BTreeMap<Vec<u8>, Vec<u8>>,
    heads: Vec<String>,
    metadata: HeadsMetadata,
}

struct Server {
    bucket: Bucket,
    disk: Disk,
    faults: FaultPoints,
    uploads: Uploads,
    durable: DurableOps,
    slot: IndexSlot,
    minted: u8,
}

fn empty_disk() -> Disk {
    Disk {
        operations: BTreeMap::new(),
        objects: BTreeMap::new(),
        heads: vec![to_hex(&[0; 64])],
        metadata: HeadsMetadata::initial(),
    }
}

impl Server {
    fn start() -> Server {
        let mut server = Server {
            bucket: Bucket::default(),
            disk: empty_disk(),
            faults: FaultPoints::inert(),
            uploads: Uploads::new(),
            durable: DurableOps::new(),
            slot: IndexSlot { conditional: true, etag: None },
            minted: 0,
        };
        server.recover();
        server
    }

    /// The process ends and another one starts: what was only in memory is gone.
    fn restart(&mut self) {
        self.faults = FaultPoints::inert();
        self.uploads = Uploads::new();
        self.durable = DurableOps::new();
        self.slot = IndexSlot { conditional: true, etag: None };
        self.recover();
    }

    /// The machine is gone as well: only the bucket is left.
    fn cold_restart(&mut self) {
        self.disk = empty_disk();
        self.restart();
    }

    fn reload(&mut self) -> Option<IndexObject> {
        self.slot.reload(self.bucket.index.clone()).expect("a readable index")
    }

    fn write_index(&mut self, version: u64, heads: &Vec<String>) -> Option<bool> {
        let document = index_document(version, heads, &self.disk.metadata.workspace_heads).unwrap();
        let outcome = self.bucket.put_index(document, self.slot.plan());
        self.slot.settle(outcome)
    }

    fn recover(&mut self) {
        let index = self.reload();
        let local = self.disk.metadata.version;
        match recovery(local, &index) {
            Recovery::InSync => {}
            Recovery::Seed | Recovery::Republish => {
                let heads = self.disk.heads.clone();
                for head in &heads {
                    self.ensure_entry(head);
                }
                assert_eq!(self.write_index(local, &heads), Some(true));
            }
            Recovery::Adopt => {
                let index = index.expect("an index that is ahead");
                for head in heads_to_replay(&index.op_heads, &self.disk.heads) {
                    self.replay(&head);
                }
                self.disk.metadata = adopted_metadata(&index);
            }
        }
    }

    fn replay(&mut self, head: &str) {
        let bytes = self.bucket.entries.get(&wal_key(head));
        let entry = WalEntry::decode(bytes.expect(&missing_entry_message(head))).unwrap();
        for (step, record) in replay_plan(&entry).into_iter().zip(&entry.records) {
            match step {
                ReplayStep::Operation(name) => {
                    self.disk.operations.insert(name, (entry.parents.clone(), record.data.clone()));
                }
                ReplayStep::View(_) => {}
                ReplayStep::Object(kind) => {
                    assert_eq!(kind, "file");
                    self.disk.objects.insert(record.id.clone(), record.data.clone());
                }
            }
        }
        self.disk.heads = prospective_op_heads(&self.disk.heads, &entry.parents, &entry.op_id);
    }

    fn is_durable(&mut self, op: &str) -> bool {
        if !self.durable.contains(op) && self.bucket.entries.contains_key(&wal_key(op)) {
            self.durable.insert(op);
        }
        self.durable.contains(op)
    }

    fn entry_of(&self, op: &str, leading: Vec<WalRecord>) -> WalEntry {
        let (parents, data) = self.disk.operations[op].clone();
        operation_entry(
            from_hex(op).unwrap(),
            parents,
            leading,
            vec![9; 64],
            b"view".to_vec(),
            data,
        )
    }

    fn put_entry(&mut self, op: &str, entry: &WalEntry) -> PutOutcome {
        if self.faults.take_wal_write_failure() {
            return PutOutcome::Failed;
        }
        self.durable.insert(op);
        if self.bucket.entries.contains_key(&wal_key(op)) {
            return PutOutcome::AlreadyThere;
        }
        self.bucket.entries.insert(wal_key(op), entry.encode().unwrap());
        PutOutcome::Stored
    }

    fn ensure_entry(&mut self, op: &str) {
        let mut walk = AncestryWalk::new(op);
        while let Some(action) = walk.next() {
            match action {
                WalkAction::Check(op) => {
                    if !self.is_durable(&op) {
                        let parents = self.disk.operations[&op].0.iter().map(|p| to_hex(p));
                        walk.descend(&op, &parents.collect());
                    }
                }
                WalkAction::Write(op) => {
                    let entry = self.entry_of(&op, vec![]);
                    assert_eq!(self.put_entry(&op, &entry), PutOutcome::Stored);
                }
            }
        }
    }

    /// An object is written to the disk and staged.
    fn upload(&mut self, id: u8, bytes: &[u8]) {
        self.disk.objects.insert(vec![id], bytes.to_vec());
        let record = WalRecord { kind: RecordKind::File, id: vec![id], data: bytes.to_vec() };
        self.uploads.stage(record).unwrap();
    }

    /// An operation on top of the current heads is written to the disk.
    fn operate(&mut self) -> String {
        self.minted += 1;
        let id = to_hex(&[self.minted; 64]);
        let parents = self.disk.heads.iter().map(|h| from_hex(h).unwrap()).collect();
        self.disk.operations.insert(id.clone(), (parents, vec![self.minted]));
        id
    }

    fn write_publish_entry(&mut self, op: &str) -> Result<(), String> {
        let durable = self.is_durable(op);
        if !durable {
            for parent in self.disk.operations[op].0.clone() {
                self.ensure_entry(&to_hex(&parent));
            }
        }
        let Some(drained) = self.uploads.start(op, durable) else {
            return Ok(());
        };
        let entry = self.entry_of(op, drained);
        let outcome = self.put_entry(op, &entry);
        self.uploads.put(entry, outcome);
        match outcome {
            PutOutcome::Failed => Err("injected bucket failure".to_string()),
            _ => Ok(()),
        }
    }

    /// One attempt: whether the heads moved, and the version the server is at.
    fn publish_once(&mut self, op: &str, version: u64) -> Result<(bool, u64), String> {
        self.faults.refuse_if_halted().map_err(|e| e.message())?;
        let parents = self.disk.operations[op].0.clone();
        let new_id = from_hex(op).unwrap();
        let metadata = self.disk.metadata.clone();
        let retired = match start_update(&metadata, &self.disk.heads, &parents, &new_id, version) {
            UpdateStart::Refuse(result) => return Ok((false, result.version)),
            UpdateStart::Retire(ids) => ids,
        };
        let heads = prospective_op_heads(&self.disk.heads, &retired, &new_id);
        let (next, result) = finish_update(&metadata, &heads, &new_id, Some("agent"));
        let mut stage = Some(PublishStage::first());
        while let Some(at) = stage {
            self.faults.crash(at.window()).map_err(|e| e.message())?;
            match at {
                PublishStage::WriteWal => self.write_publish_entry(op)?,
                PublishStage::WriteIndex => {
                    if self.faults.take_index_write_failure() {
                        self.uploads.indexed(false);
                        return Err("injected bucket failure".to_string());
                    }
                    if self.faults.take_index_cas_conflict() {
                        if let Some(content) = self.faults.object_for_index_conflict() {
                            self.upload(200, &content);
                        }
                        self.uploads.indexed(false);
                        let index = self.reload();
                        let answer = index_conflict_result(metadata, index, &self.disk.heads);
                        return Ok((answer.ok, answer.version));
                    }
                    let before = updated_workspace_heads(
                        &self.disk.metadata.workspace_heads,
                        Some("agent"),
                        op,
                    );
                    let document = index_document(next.version, &heads, &before).unwrap();
                    let outcome = self.bucket.put_index(document, self.slot.plan());
                    assert_eq!(self.slot.settle(outcome), Some(true));
                    self.uploads.indexed(true);
                }
                PublishStage::ApplyLocally => self.disk.heads = heads.clone(),
                PublishStage::WriteMetadata => self.disk.metadata = next.clone(),
                PublishStage::PublishDerived => {}
            }
            stage = at.next();
        }
        Ok((result.ok, result.version))
    }

    /// Publish as a client does: again from the version it is told.
    fn publish(&mut self, op: &str) -> Result<(), String> {
        let mut cache = VersionCache::open(false, None);
        let mut update = HeadUpdate::new(self.disk.metadata.version);
        loop {
            let (ok, version) = self.publish_once(op, update.expected_version)?;
            match update.answered(&mut cache, ok, version, &from_hex(op).unwrap()).0 {
                UpdateStep::Done => return Ok(()),
                UpdateStep::Retry(_) => {}
                UpdateStep::GiveUp => return Err("gave up".to_string()),
            }
        }
    }

    fn commit(&mut self, id: u8, bytes: &[u8]) -> Result<String, String> {
        self.upload(id, bytes);
        let op = self.operate();
        self.publish(&op)?;
        Ok(op)
    }

    /// The bucket and the disk agree, and the bucket can give back every head.
    fn check(&self) {
        let index = self.bucket.index();
        assert_eq!(index.version, self.disk.metadata.version);
        assert_eq!(index.op_heads, self.disk.heads);
        for head in index.op_heads.iter().filter(|head| !is_root_operation_hex(head)) {
            let bytes = &self.bucket.entries[&wal_key(head)];
            assert_eq!(to_hex(&WalEntry::decode(bytes).unwrap().op_id), *head);
        }
    }
}

fn abandoned_publish(index_write_failure: bool) {
    let mut server = Server::start();
    let contents = b"survives an abandoned WAL and an immediate cold restart\n";
    server.upload(1, contents);
    let surviving = server.operate();
    let abandoned = server.operate();
    let version = server.disk.metadata.version;
    if index_write_failure {
        server.faults.fail_index_writes(1);
        let err = server.publish_once(&abandoned, version).expect_err("index write must fail");
        assert!(err.contains("injected bucket failure"), "{err}");
    } else {
        server.faults.set_index_cas_conflicts(1);
        assert!(!server.publish_once(&abandoned, version).unwrap().0);
    }
    assert!(server.publish_once(&surviving, version).unwrap().0);

    server.cold_restart();
    server.check();
    assert_eq!(server.disk.heads, vec![surviving]);
    assert_eq!(server.disk.objects.get(&vec![1]).map(|b| b.as_slice()), Some(&contents[..]));
}

/// An unindexed WAL entry is not replay ancestry. Another workspace must not depend
/// on its failed publisher ever retrying before its own bytes become durable.
#[test]
fn an_abandoned_publish_does_not_strand_another_workspaces_uploads() {
    abandoned_publish(false);
}

#[test]
fn an_index_write_failure_does_not_strand_another_workspaces_uploads() {
    abandoned_publish(true);
}

/// Every crash window, every run.
#[test]
fn crash_windows() {
    for window in CrashWindow::all() {
        let mut server = Server::start();
        server.commit(1, b"before the crash\n").unwrap();
        server.faults.crash_at(Some(window));
        server.upload(2, b"during the crash\n");
        let during = server.operate();
        let err = server.publish(&during).expect_err("the server stops");
        assert_eq!(err, format!("the server stopped at the {} window", window.as_str()));
        assert_eq!(server.publish(&during).unwrap_err(), "the server has stopped");

        server.restart();
        server.check();
        let landed = server.disk.heads == vec![during.clone()];
        let unindexed =
            matches!(window, CrashWindow::BeforeWalWrite | CrashWindow::AfterWalWrite);
        assert_eq!(landed, !unindexed, "{}", window.as_str());
        if !landed {
            server.upload(2, b"during the crash\n");
            server.publish(&during).unwrap();
        }
        let after = server.commit(3, b"after the crash\n").unwrap();
        server.check();
        for bytes in [&b"before the crash\n"[..], b"during the crash\n", b"after the crash\n"] {
            server.bucket.holds(bytes, window.as_str());
        }
        server.cold_restart();
        assert!(server.disk.heads.contains(&after));
        assert_eq!(server.disk.metadata.version, server.bucket.index().version);
    }
}

/// An object that lands between two attempts of a retried publish. The publish that
/// conflicts cannot carry it, as its WAL entry is already in the bucket and
/// immutable, so the next one has to.
#[test]
fn objects_staged_between_retries_reach_the_wal() {
    let mut server = Server::start();
    server.commit(1, b"before the contention\n").unwrap();
    let staged = b"tandem-object-staged-between-two-attempts\n";
    server.faults.stage_object_on_index_conflict(Some(staged.to_vec()));
    server.faults.set_index_cas_conflicts(1);
    server.commit(2, b"through the contention\n").unwrap();
    server.commit(3, b"closing\n").unwrap();
    server.check();
    server.bucket.holds(b"through the contention\n", "the object of the retried publish");
    server.bucket.holds(staged, "an object staged between two attempts of a retried publish");
}

/// A publish drains the staging buffer before it writes, so a write that then fails
/// is holding every object the client wrote for it.
#[test]
fn objects_drained_by_a_failed_wal_write_reach_the_wal() {
    let contended = b"tandem-object-drained-by-a-failed-wal-write\n";
    let mut server = Server::start();
    server.commit(1, b"before the outage\n").unwrap();
    server.faults.fail_wal_writes(1);
    assert_eq!(server.commit(2, contended), Err("injected bucket failure".to_string()));
    server.faults.fail_wal_writes(0);
    server.commit(3, b"closing\n").unwrap();
    server.check();
    server.bucket.holds(contended, "an object drained by a publish whose WAL write failed");
}
