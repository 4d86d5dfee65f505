//! The way of an upload: staged, carried by the WAL entry of a publish, and safe
//! once the index names that entry.
//!
//! An entry that no index names is no part of what is replayed. So the objects that
//! an entry took along are kept until the index was written, and staged again where
//! it was not: whoever publishes next carries them, and nobody depends on the
//! publisher that failed ever trying again.
use vstd::prelude::*;

use crate::bucket::{is_root_text, publish_writes_entry};
use crate::staging::{
    accepted, data_total, entry_records, holds_id, lemma_accepted_holds, objects_in, objects_of,
    restaged, PendingBlobs, PutOutcome, StagingFull, PENDING_BLOBS_MAX_BYTES,
};
use crate::text::models;
use crate::wal::{RecordKind, RecordModel, WalEntry, WalRecord};

verus! {

/// Objects that no indexed entry carries yet.
#[derive(Debug, PartialEq, Eq)]
pub struct Uploads {
    pending: PendingBlobs,
    carried: Vec<WalRecord>,
}

/// The objects that wait for an entry, and those whose entry waits for the index.
#[verifier::ext_equal]
pub struct UploadsModel {
    pub held: Seq<RecordModel>,
    pub carried: Seq<RecordModel>,
}

impl View for Uploads {
    type V = UploadsModel;

    closed spec fn view(&self) -> UploadsModel {
        UploadsModel { held: self.pending@, carried: models(self.carried@) }
    }
}

impl Uploads {
    pub fn new() -> (r: Self)
        ensures
            r@ == (UploadsModel { held: Seq::empty(), carried: Seq::empty() }),
    {
        let carried: Vec<WalRecord> = Vec::new();
        assert(models(carried@) =~= Seq::<RecordModel>::empty());
        Uploads { pending: PendingBlobs::default(), carried }
    }

    /// Accept a newly written object. Fails once the buffer is over its cap.
    pub fn stage(&mut self, record: WalRecord) -> (r: Result<(), StagingFull>)
        ensures
            final(self)@.carried == old(self)@.carried,
            match r {
                Ok(()) => {
                    &&& data_total(old(self)@.held) + record@.data.len() <= PENDING_BLOBS_MAX_BYTES
                    &&& final(self)@.held == accepted(old(self)@.held, record@)
                },
                Err(full) => {
                    &&& data_total(old(self)@.held) + record@.data.len() > PENDING_BLOBS_MAX_BYTES
                    &&& final(self)@.held == old(self)@.held
                    &&& full.held == data_total(old(self)@.held)
                },
            },
    {
        self.pending.stage(record)
    }

    /// Start a publish: the objects that its entry takes along, if it has an entry to
    /// write. One that has none, because its operation is the root or because the
    /// bucket holds its entry already, leaves them to whoever publishes next. What a
    /// publish before this one took along and never settled is staged again.
    pub fn start(&mut self, op_hex: &str, durable: bool) -> (r: Option<Vec<WalRecord>>)
        ensures
            final(self)@.carried == Seq::<RecordModel>::empty(),
            ({
                let held = restaged(old(self)@.held, old(self)@.carried);
                match r {
                    Some(drained) => {
                        &&& !is_root_text(op_hex@) && !durable
                        &&& models(drained@) == held
                        &&& final(self)@.held == Seq::<RecordModel>::empty()
                    },
                    None => {
                        &&& is_root_text(op_hex@) || durable
                        &&& final(self)@.held == held
                    },
                }
            }),
    {
        self.indexed(false);
        if publish_writes_entry(op_hex, durable) {
            Some(self.pending.take())
        } else {
            None
        }
    }

    /// The entry could not even be built: its objects are staged again.
    pub fn abandoned(&mut self, drained: Vec<WalRecord>)
        ensures
            final(self)@.carried == old(self)@.carried,
            final(self)@.held == restaged(old(self)@.held, objects_of(models(drained@))),
    {
        self.pending.restage_blobs(drained);
    }

    /// The write of an entry came out like this. Where the entry was stored, its
    /// objects wait for the index; where it was not, they are staged again.
    pub fn put(&mut self, entry: WalEntry, outcome: PutOutcome)
        ensures
            match outcome {
                PutOutcome::Stored => {
                    &&& final(self)@.held == old(self)@.held
                    &&& final(self)@.carried == old(self)@.carried + objects_of(entry@.records)
                },
                _ => {
                    &&& final(self)@.held == restaged(old(self)@.held, objects_of(entry@.records))
                    &&& final(self)@.carried == old(self)@.carried
                },
            },
    {
        if outcome == PutOutcome::Stored {
            let ghost before = self.carried@;
            let mut objects = objects_in(entry.records);
            let ghost more = objects@;
            self.carried.append(&mut objects);
            assert(models(self.carried@) =~= models(before) + models(more));
        } else {
            self.pending.restage_blobs(entry.records);
        }
    }

    /// The index was written, or it was not, for whatever reason: where it was not,
    /// the objects whose entry waited for it are staged again.
    pub fn indexed(&mut self, committed: bool)
        ensures
            final(self)@.carried == Seq::<RecordModel>::empty(),
            final(self)@.held == if committed {
                old(self)@.held
            } else {
                restaged(old(self)@.held, old(self)@.carried)
            },
    {
        let mut carried: Vec<WalRecord> = Vec::new();
        assert(models(carried@) =~= Seq::<RecordModel>::empty());
        std::mem::swap(&mut self.carried, &mut carried);
        if !committed {
            self.pending.restage(carried);
        }
    }
}

// ─── What becomes of an upload ────────────────────────────────────────────────

/// What happens to a server, as far as its uploads are concerned.
pub enum UploadEvent {
    Staged(RecordModel),
    /// A publish started; the flag says whether it has an entry to write.
    Started(bool),
    /// The entry could not be built.
    Abandoned,
    Put(PutOutcome),
    Indexed(bool),
}

/// A server, as far as its uploads are concerned: what waits for an entry, what the
/// entry that is being written takes along, what waits for the index, and the ids
/// of what an indexed entry carries.
#[verifier::ext_equal]
pub struct UploadRun {
    pub uploads: UploadsModel,
    pub flight: Option<Seq<RecordModel>>,
    pub safe: Set<Seq<u8>>,
}

pub open spec fn ids_of(records: Seq<RecordModel>) -> Set<Seq<u8>> {
    Set::new(|id: Seq<u8>| holds_id(records, id))
}

pub open spec fn no_uploads() -> UploadRun {
    UploadRun {
        uploads: UploadsModel { held: Seq::empty(), carried: Seq::empty() },
        flight: None,
        safe: Set::empty(),
    }
}

/// What an event does. One publish is under way at a time; an event that belongs to
/// no publish under way does nothing.
pub open spec fn upload_step(run: UploadRun, event: UploadEvent) -> UploadRun {
    let held = run.uploads.held;
    let carried = run.uploads.carried;
    match (event, run.flight) {
        (UploadEvent::Staged(record), _) => UploadRun {
            uploads: UploadsModel { held: accepted(held, record), carried },
            ..run
        },
        (UploadEvent::Started(writes), None) => {
            let all = restaged(held, carried);
            if writes {
                UploadRun {
                    uploads: UploadsModel { held: Seq::empty(), carried: Seq::empty() },
                    flight: Some(all),
                    ..run
                }
            } else {
                UploadRun { uploads: UploadsModel { held: all, carried: Seq::empty() }, ..run }
            }
        },
        (UploadEvent::Abandoned, Some(drained)) => UploadRun {
            uploads: UploadsModel { held: restaged(held, objects_of(drained)), carried },
            flight: None,
            ..run
        },
        (UploadEvent::Put(outcome), Some(drained)) => UploadRun {
            uploads: if outcome == PutOutcome::Stored {
                UploadsModel { held, carried: carried + objects_of(drained) }
            } else {
                UploadsModel { held: restaged(held, objects_of(drained)), carried }
            },
            flight: None,
            ..run
        },
        (UploadEvent::Indexed(committed), None) => UploadRun {
            uploads: UploadsModel {
                held: if committed {
                    held
                } else {
                    restaged(held, carried)
                },
                carried: Seq::empty(),
            },
            safe: if committed {
                run.safe.union(ids_of(carried))
            } else {
                run.safe
            },
            ..run
        },
        _ => run,
    }
}

/// A server after some events.
pub open spec fn upload_run(events: Seq<UploadEvent>) -> UploadRun
    decreases events.len(),
{
    if events.len() == 0 {
        no_uploads()
    } else {
        upload_step(upload_run(events.drop_last()), events.last())
    }
}

/// Where an upload is to be found.
pub open spec fn is_kept(run: UploadRun, id: Seq<u8>) -> bool {
    ||| holds_id(run.uploads.held, id)
    ||| run.flight matches Some(drained) && holds_id(drained, id)
    ||| holds_id(run.uploads.carried, id)
    ||| run.safe.contains(id)
}

/// Whether every record is a backend object.
pub open spec fn all_objects(records: Seq<RecordModel>) -> bool {
    forall|i: int| 0 <= i < records.len() ==> (#[trigger] records[i]).kind.object_word() is Some
}

/// Whether only backend objects were uploaded.
pub open spec fn objects_only(events: Seq<UploadEvent>) -> bool {
    forall|i: int|
        0 <= i < events.len() ==> ((#[trigger] events[i]) matches UploadEvent::Staged(record)
            ==> record.kind.object_word() is Some)
}

/// The view and the operation of an entry are no objects: what the entry takes along
/// is what the publish drained.
pub proof fn an_entry_takes_along_what_was_drained(
    drained: Seq<RecordModel>,
    view: RecordModel,
    operation: RecordModel,
)
    requires
        view.kind == RecordKind::View,
        operation.kind == RecordKind::Operation,
    ensures
        objects_of(entry_records(drained, view, operation)) == objects_of(drained),
        all_objects(drained) ==> objects_of(drained) == drained,
    decreases drained.len(),
{
    reveal(Seq::filter);
    let is_object = |record: RecordModel| record.kind.object_word() is Some;
    let one = drained.push(view);
    let all = one.push(operation);
    assert(one.drop_last() =~= drained);
    assert(all.drop_last() =~= one);
    assert(one.filter(is_object) == drained.filter(is_object));
    assert(all.filter(is_object) == one.filter(is_object));
    if all_objects(drained) {
        lemma_all_pass(drained);
    }
}

proof fn lemma_all_pass(records: Seq<RecordModel>)
    requires
        all_objects(records),
    ensures
        objects_of(records) == records,
    decreases records.len(),
{
    reveal(Seq::filter);
    if records.len() > 0 {
        let front = records.drop_last();
        assert forall|i: int| 0 <= i < front.len() implies (
        #[trigger] front[i]).kind.object_word() is Some by {
            assert(front[i] == records[i]);
        }
        lemma_all_pass(front);
        assert(records.last().kind.object_word() is Some);
        assert(objects_of(records) =~= front.push(records.last()));
    }
    assert(objects_of(records) =~= records);
}

proof fn lemma_restaged(held: Seq<RecordModel>, records: Seq<RecordModel>)
    ensures
        forall|id: Seq<u8>|
            holds_id(held, id) || holds_id(records, id) ==> #[trigger] holds_id(
                restaged(held, records),
                id,
            ),
        all_objects(held) && all_objects(records) ==> all_objects(restaged(held, records)),
{
    let all = records + held;
    let now = restaged(held, records);
    lemma_accepted_holds(Seq::empty(), all);
    assert forall|id: Seq<u8>| holds_id(held, id) || holds_id(records, id) implies #[trigger] holds_id(
        now,
        id,
    ) by {
        if holds_id(records, id) {
            let i = choose|i: int| 0 <= i < records.len() && (#[trigger] records[i]).id == id;
            assert(all[i].id == id);
        } else {
            let i = choose|i: int| 0 <= i < held.len() && (#[trigger] held[i]).id == id;
            assert(all[records.len() + i].id == id);
        }
    }
    if all_objects(held) && all_objects(records) {
        assert forall|i: int| 0 <= i < now.len() implies (
        #[trigger] now[i]).kind.object_word() is Some by {
            assert(all.contains(now[i]));
            let k = choose|k: int| 0 <= k < all.len() && all[k] == now[i];
            if k < records.len() {
                assert(records[k] == now[i]);
            } else {
                assert(held[k - records.len()] == now[i]);
            }
        }
    }
}

spec fn run_inv(run: UploadRun) -> bool {
    &&& all_objects(run.uploads.held)
    &&& all_objects(run.uploads.carried)
    &&& run.flight matches Some(drained) ==> all_objects(drained)
}

proof fn lemma_step(run: UploadRun, event: UploadEvent)
    requires
        run_inv(run),
        event matches UploadEvent::Staged(record) ==> record.kind.object_word() is Some,
    ensures
        run_inv(upload_step(run, event)),
        forall|id: Seq<u8>| is_kept(run, id) ==> #[trigger] is_kept(upload_step(run, event), id),
        event matches UploadEvent::Staged(record) ==> is_kept(upload_step(run, event), record.id),
{
    let held = run.uploads.held;
    let carried = run.uploads.carried;
    let after = upload_step(run, event);
    lemma_restaged(held, carried);
    if let Some(drained) = run.flight {
        lemma_all_pass(drained);
        lemma_restaged(held, drained);
        assert forall|id: Seq<u8>| holds_id(drained, id) || holds_id(
            carried,
            id,
        ) implies #[trigger] holds_id(carried + drained, id) by {
            if holds_id(carried, id) {
                let i = choose|i: int| 0 <= i < carried.len() && (#[trigger] carried[i]).id == id;
                assert((carried + drained)[i].id == id);
            } else {
                let i = choose|i: int| 0 <= i < drained.len() && (#[trigger] drained[i]).id == id;
                assert((carried + drained)[carried.len() + i].id == id);
            }
        }
    }
    if let UploadEvent::Staged(record) = event {
        let now = accepted(held, record);
        assert forall|id: Seq<u8>| holds_id(held, id) implies #[trigger] holds_id(now, id) by {
            let i = choose|i: int| 0 <= i < held.len() && (#[trigger] held[i]).id == id;
            assert(now[i].id == id);
        }
        if !holds_id(held, record.id) {
            assert(now[held.len() as int].id == record.id);
        }
    }
}

proof fn lemma_run(events: Seq<UploadEvent>)
    requires
        objects_only(events),
    ensures
        run_inv(upload_run(events)),
    decreases events.len(),
{
    if events.len() > 0 {
        lemma_front(events);
        lemma_run(events.drop_last());
        assert(events.last() == events[events.len() - 1]);
        lemma_step(upload_run(events.drop_last()), events.last());
    }
}

proof fn lemma_front(events: Seq<UploadEvent>)
    requires
        events.len() > 0,
        objects_only(events),
    ensures
        objects_only(events.drop_last()),
{
    let front = events.drop_last();
    assert forall|i: int| 0 <= i < front.len() implies ((
    #[trigger] front[i]) matches UploadEvent::Staged(record)
        ==> record.kind.object_word() is Some) by {
        assert(front[i] == events[i]);
    }
}

/// No upload is stranded: whatever happens to the publishes, of whatever workspace,
/// an object that was uploaded waits for an entry, is on its way in one, waits for
/// the index in one, or is in an entry that the index names.
pub proof fn no_upload_is_stranded(events: Seq<UploadEvent>, i: int)
    requires
        objects_only(events),
        0 <= i < events.len(),
        events[i] is Staged,
    ensures
        is_kept(upload_run(events), events[i]->Staged_0.id),
    decreases events.len(),
{
    lemma_front(events);
    let front = events.drop_last();
    lemma_run(front);
    assert(events.last() == events[events.len() - 1]);
    lemma_step(upload_run(front), events.last());
    if i < front.len() {
        assert(front[i] == events[i]);
        no_upload_is_stranded(front, i);
    }
}

/// The next publish that goes through makes every upload before it safe, whether or
/// not an earlier one that failed had taken it along.
pub proof fn the_next_publish_makes_uploads_safe(events: Seq<UploadEvent>, i: int)
    requires
        objects_only(events),
        0 <= i < events.len(),
        events[i] is Staged,
        upload_run(events).flight is None,
    ensures
        ({
            let started = upload_step(upload_run(events), UploadEvent::Started(true));
            let stored = upload_step(started, UploadEvent::Put(PutOutcome::Stored));
            let done = upload_step(stored, UploadEvent::Indexed(true));
            done.safe.contains(events[i]->Staged_0.id)
        }),
{
    let id = events[i]->Staged_0.id;
    let run = upload_run(events);
    no_upload_is_stranded(events, i);
    lemma_run(events);
    lemma_restaged(run.uploads.held, run.uploads.carried);
    let all = restaged(run.uploads.held, run.uploads.carried);
    lemma_all_pass(all);
    assert(Seq::<RecordModel>::empty() + all =~= all);
    if !run.safe.contains(id) {
        assert(holds_id(all, id));
    }
}

} // verus!
