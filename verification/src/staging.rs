//! What the server holds back for the next publish: the objects that no WAL
//! entry carries yet, and the ids of the entries it knows to be durable.
use vstd::prelude::*;
use vstd::string::*;

use crate::order::{copied, holds_text, same_bytes};
use crate::text::{decimal, models, push_decimal, push_long_decimal};
use crate::wal::{RecordKind, RecordModel, WalEntry, WalRecord};

verus! {

// ─── Durable operations ───────────────────────────────────────────────────────

/// How many operation ids the durable-WAL-entry cache remembers. It is only a
/// cache: a miss costs one extra conditional put, which the bucket rejects as
/// already present, so the memory ceiling is worth more than the perfect recall.
pub const DURABLE_OPS_CAPACITY: usize = 4096;

pub open spec fn texts_distinct(texts: Seq<Seq<char>>) -> bool {
    forall|i: int, j: int| 0 <= i < j < texts.len() ==> #[trigger] texts[i] != #[trigger] texts[j]
}

/// The cache after `op` was remembered: what it held stays where it was, a new
/// id goes last, and the oldest one leaves where the cache was full.
pub open spec fn remembered(held: Seq<Seq<char>>, op: Seq<char>) -> Seq<Seq<char>> {
    if held.contains(op) {
        held
    } else if held.len() < DURABLE_OPS_CAPACITY {
        held.push(op)
    } else {
        held.subrange(1, held.len() as int).push(op)
    }
}

/// Operation ids whose WAL entry this process has already put in the bucket,
/// kept to a fixed size in insertion order.
#[derive(Debug, PartialEq, Eq)]
pub struct DurableOps {
    order: Vec<String>,
}

impl DurableOps {
    #[verifier::type_invariant]
    spec fn bounded(self) -> bool {
        &&& self.order@.len() <= DURABLE_OPS_CAPACITY
        &&& texts_distinct(models(self.order@))
    }
}

impl View for DurableOps {
    type V = Seq<Seq<char>>;

    closed spec fn view(&self) -> Seq<Seq<char>> {
        models(self.order@)
    }
}

impl DurableOps {
    /// A cache that remembers nothing.
    pub fn new() -> (r: DurableOps)
        ensures
            r@ == Seq::<Seq<char>>::empty(),
    {
        let r = DurableOps { order: Vec::new() };
        assert(r@ =~= Seq::<Seq<char>>::empty());
        r
    }

    pub fn contains(&self, op_hex: &str) -> (r: bool)
        ensures
            r == self@.contains(op_hex@),
    {
        holds_text(&self.order, op_hex)
    }

    pub fn insert(&mut self, op_hex: &str)
        ensures
            final(self)@ == remembered(old(self)@, op_hex@),
    {
        proof {
            use_type_invariant(&*self);
        }
        if self.contains(op_hex) {
            return;
        }
        let mut order: Vec<String> = Vec::new();
        std::mem::swap(&mut order, &mut self.order);
        let ghost before = order@;
        if order.len() >= DURABLE_OPS_CAPACITY {
            let _ = order.remove(0);
        }
        let ghost kept = order@;
        order.push(op_hex.to_owned());
        proof {
            let had = models(before);
            let now = models(order@);
            assert(forall|i: int| 0 <= i < had.len() ==> #[trigger] had[i] == before[i]@);
            assert(!had.contains(op_hex@));
            let skip: int = if before.len() >= DURABLE_OPS_CAPACITY {
                1
            } else {
                0
            };
            assert forall|i: int| 0 <= i < now.len() - 1 implies #[trigger] now[i] == had[i + skip] by {
                assert(kept[i] == before[i + skip]);
            }
            assert(now =~= remembered(had, op_hex@));
            assert forall|i: int, j: int| 0 <= i < j < now.len() implies #[trigger] now[i]
                != #[trigger] now[j] by {
                assert(now[i] == had[i + skip]);
                if j < now.len() - 1 {
                    assert(now[j] == had[j + skip]);
                }
            }
        }
        self.order = order;
    }
}

/// The cache never grows past its capacity and never holds an id twice.
pub proof fn the_cache_stays_bounded(held: Seq<Seq<char>>, op: Seq<char>)
    requires
        held.len() <= DURABLE_OPS_CAPACITY,
        texts_distinct(held),
    ensures
        remembered(held, op).len() <= DURABLE_OPS_CAPACITY,
        texts_distinct(remembered(held, op)),
        remembered(held, op).contains(op),
{
    let now = remembered(held, op);
    if !held.contains(op) {
        assert(now.last() == op);
    }
}

/// Only a full cache forgets, and only the id it has held longest; everything else it
/// held stays, in its order, and the id that was remembered is held.
pub proof fn only_the_oldest_is_forgotten(held: Seq<Seq<char>>, op: Seq<char>, other: Seq<char>)
    requires
        held.len() <= DURABLE_OPS_CAPACITY,
        texts_distinct(held),
    ensures
        ({
            let full = held.len() == DURABLE_OPS_CAPACITY && !held.contains(op);
            let after = remembered(held, op);
            &&& after.contains(other) <==> other == op || (held.contains(other) && !(full && other
                == held[0]))
            &&& held.contains(op) ==> after == held
            &&& !held.contains(op) ==> after.last() == op
            &&& !held.contains(op) && !full ==> after.drop_last() == held
            &&& full ==> after.drop_last() == held.skip(1)
            &&& full ==> held.len() == 4096
            &&& held.len() == 4096 && !held.contains(op) ==> full
        }),
{
    let full = held.len() == DURABLE_OPS_CAPACITY && !held.contains(op);
    let after = remembered(held, op);
    if full {
        assert(after.drop_last() =~= held.skip(1));
    } else if !held.contains(op) {
        assert(after.drop_last() =~= held);
    }
    if held.contains(other) {
        let i = choose|i: int| 0 <= i < held.len() && held[i] == other;
        if full {
            if i > 0 {
                assert(after[i - 1] == other);
            }
        } else if !held.contains(op) {
            assert(after[i] == other);
        }
    }
    if !held.contains(op) {
        assert(after[after.len() - 1] == op);
    }
    if after.contains(other) && other != op {
        let i = choose|i: int| 0 <= i < after.len() && after[i] == other;
        if full {
            assert(held[i + 1] == other);
        } else if !held.contains(op) {
            assert(held[i] == other);
        }
    }
}

// ─── Pending objects ──────────────────────────────────────────────────────────

/// The staging buffer refuses what would take it past this many bytes. A client
/// that writes without ever publishing, or a bucket outage that makes every
/// publish fail and restage, otherwise grows the server's memory without limit.
/// Refusing the write is backpressure the client can act on; running the server
/// out of memory is not.
pub const PENDING_BLOBS_MAX_BYTES: usize = 1073741824;

/// How many bytes of content the records hold.
pub open spec fn data_total(records: Seq<RecordModel>) -> nat
    decreases records.len(),
{
    if records.len() == 0 {
        0
    } else {
        data_total(records.drop_last()) + records.last().data.len()
    }
}

pub open spec fn ids_distinct(records: Seq<RecordModel>) -> bool {
    forall|i: int, j: int|
        0 <= i < j < records.len() ==> (#[trigger] records[i]).id != (#[trigger] records[j]).id
}

pub open spec fn holds_id(records: Seq<RecordModel>, id: Seq<u8>) -> bool {
    exists|i: int| 0 <= i < records.len() && (#[trigger] records[i]).id == id
}

/// Objects are content-addressed, so the same id twice is the same bytes twice:
/// a record whose id is held already adds nothing.
pub open spec fn accepted(held: Seq<RecordModel>, record: RecordModel) -> Seq<RecordModel> {
    if holds_id(held, record.id) {
        held
    } else {
        held.push(record)
    }
}

/// The buffer after it accepted `records` in turn.
pub open spec fn accepted_all(held: Seq<RecordModel>, records: Seq<RecordModel>) -> Seq<RecordModel>
    decreases records.len(),
{
    if records.len() == 0 {
        held
    } else {
        accepted(accepted_all(held, records.drop_last()), records.last())
    }
}

/// The records that are backend objects.
pub open spec fn objects_of(records: Seq<RecordModel>) -> Seq<RecordModel> {
    records.filter(|record: RecordModel| record.kind.object_word() is Some)
}

/// What counts are the bytes of every record, each once: those of two lists are those of
/// the first and those of the second together, and a single record counts its own.
pub proof fn every_record_counts(first: Seq<RecordModel>, second: Seq<RecordModel>)
    ensures
        data_total(first + second) == data_total(first) + data_total(second),
        first.len() == 1 ==> data_total(first) == first[0].data.len(),
    decreases second.len(),
{
    if first.len() == 1 {
        assert(data_total(first.drop_last()) == 0);
    }
    if second.len() == 0 {
        assert(first + second =~= first);
    } else {
        assert((first + second).drop_last() =~= first + second.drop_last());
        every_record_counts(first, second.drop_last());
    }
}

/// Views and operations are not objects; every record of another kind is, and the objects
/// keep their order.
pub proof fn views_and_operations_are_not_objects(
    records: Seq<RecordModel>,
    more: Seq<RecordModel>,
    record: RecordModel,
)
    ensures
        objects_of(records).contains(record) <==> records.contains(record) && !(record.kind is View)
            && !(record.kind is Operation),
        objects_of(records + more) == objects_of(records) + objects_of(more),
{
    let is_object = |record: RecordModel| record.kind.object_word() is Some;
    let objects = objects_of(records);
    if objects.contains(record) {
        let i = choose|i: int| 0 <= i < objects.len() && objects[i] == record;
        records.lemma_filter_contains_rev(is_object, record);
        records.lemma_filter_pred(is_object, i);
    }
    if records.contains(record) && is_object(record) {
        let i = choose|i: int| 0 <= i < records.len() && records[i] == record;
        records.lemma_filter_contains(is_object, i);
    }
    Seq::filter_distributes_over_add(records, more, is_object);
}

/// The buffer with `records` put back ahead of what it holds.
pub open spec fn restaged(held: Seq<RecordModel>, records: Seq<RecordModel>) -> Seq<RecordModel> {
    accepted_all(Seq::empty(), records + held)
}

/// The staging buffer is over its cap.
#[derive(Debug, Clone, Copy, PartialEq, Eq)]
pub struct StagingFull {
    /// How many bytes the buffer holds.
    pub held: u128,
}

impl StagingFull {
    pub open spec fn text(self) -> Seq<char> {
        "the server is holding "@ + decimal(self.held as nat)
            + " bytes of objects that no publish has made durable yet (limit "@ + decimal(
            PENDING_BLOBS_MAX_BYTES as nat,
        ) + "); commit an operation to flush them"@
    }

    /// The sentence that says why the write was refused.
    pub fn message(&self) -> (s: String)
        ensures
            s@ == self.text(),
    {
        let mut s = "the server is holding ".to_owned();
        push_long_decimal(&mut s, self.held);
        s.append(" bytes of objects that no publish has made durable yet (limit ");
        push_decimal(&mut s, PENDING_BLOBS_MAX_BYTES as u64);
        s.append("); commit an operation to flush them");
        s
    }
}

/// Objects written since the last publish, waiting to be folded into the next
/// WAL entry.
#[derive(Debug, PartialEq, Eq)]
pub struct PendingBlobs {
    records: Vec<WalRecord>,
    bytes: u128,
}

impl PendingBlobs {
    #[verifier::type_invariant]
    spec fn counted(self) -> bool {
        &&& self.bytes == data_total(models(self.records@))
        &&& ids_distinct(models(self.records@))
    }
}

impl View for PendingBlobs {
    type V = Seq<RecordModel>;

    closed spec fn view(&self) -> Seq<RecordModel> {
        models(self.records@)
    }
}

impl Default for PendingBlobs {
    fn default() -> (r: PendingBlobs)
        ensures
            r@ == Seq::<RecordModel>::empty(),
    {
        let r = PendingBlobs { records: Vec::new(), bytes: 0 };
        assert(r@ =~= Seq::<RecordModel>::empty());
        r
    }
}

proof fn lemma_total_bound(records: Seq<WalRecord>)
    ensures
        data_total(models(records)) <= records.len() * usize::MAX,
    decreases records.len(),
{
    if records.len() > 0 {
        lemma_total_bound(records.drop_last());
        assert(models(records).drop_last() =~= models(records.drop_last()));
        assert(records.last().data.len() <= usize::MAX);
        assert((records.len() - 1) * usize::MAX + usize::MAX == records.len() * usize::MAX)
            by (nonlinear_arith);
    }
}

proof fn lemma_accepted_distinct(held: Seq<RecordModel>, records: Seq<RecordModel>)
    requires
        ids_distinct(held),
    ensures
        ids_distinct(accepted_all(held, records)),
    decreases records.len(),
{
    if records.len() > 0 {
        lemma_accepted_distinct(held, records.drop_last());
    }
}

/// Records of distinct ids, none of which is held, all go in, in order.
proof fn lemma_accepts_distinct(held: Seq<RecordModel>, records: Seq<RecordModel>)
    requires
        ids_distinct(held + records),
    ensures
        accepted_all(held, records) == held + records,
    decreases records.len(),
{
    let all = held + records;
    if records.len() > 0 {
        let front = records.drop_last();
        assert forall|i: int, j: int| 0 <= i < j < (held + front).len() implies (#[trigger] (held
            + front)[i]).id != (#[trigger] (held + front)[j]).id by {
            assert((held + front)[i] == all[i] && (held + front)[j] == all[j]);
        }
        lemma_accepts_distinct(held, front);
        let last = records.last();
        assert(all[all.len() - 1] == last);
        assert forall|i: int| 0 <= i < (held + front).len() implies (#[trigger] (held + front)[i]).id
            != last.id by {
            assert((held + front)[i] == all[i]);
        }
        assert((held + front).push(last) =~= all);
    } else {
        assert(all =~= held);
    }
}

proof fn lemma_accepted_in_two(held: Seq<RecordModel>, a: Seq<RecordModel>, b: Seq<RecordModel>)
    ensures
        accepted_all(held, a + b) == accepted_all(accepted_all(held, a), b),
    decreases b.len(),
{
    if b.len() == 0 {
        assert(a + b =~= a);
    } else {
        assert((a + b).drop_last() =~= a + b.drop_last());
        lemma_accepted_in_two(held, a, b.drop_last());
    }
}

impl PendingBlobs {
    /// The objects held, in the order in which they will be written.
    pub fn records(&self) -> (r: &Vec<WalRecord>)
        ensures
            models(r@) == self@,
            ids_distinct(self@),
    {
        proof {
            use_type_invariant(self);
        }
        &self.records
    }

    /// How many bytes of content are held.
    pub fn bytes(&self) -> (n: u128)
        ensures
            n == data_total(self@),
    {
        proof {
            use_type_invariant(self);
        }
        self.bytes
    }

    /// Accept a newly written object. Fails once the buffer is over its cap.
    pub fn stage(&mut self, record: WalRecord) -> (r: Result<(), StagingFull>)
        ensures
            match r {
                Ok(()) => {
                    &&& data_total(old(self)@) + record@.data.len() <= PENDING_BLOBS_MAX_BYTES
                    &&& final(self)@ == accepted(old(self)@, record@)
                },
                Err(full) => {
                    &&& data_total(old(self)@) + record@.data.len() > PENDING_BLOBS_MAX_BYTES
                    &&& final(self)@ == old(self)@
                    &&& full.held == data_total(old(self)@)
                },
            },
    {
        proof {
            use_type_invariant(&*self);
            lemma_total_bound(self.records@);
            assert(self.records.len() <= usize::MAX);
            assert(self.records@.len() * usize::MAX <= usize::MAX * usize::MAX) by (nonlinear_arith)
                requires
                    self.records@.len() <= usize::MAX,
            ;
            assert(usize::MAX * usize::MAX + usize::MAX <= u128::MAX) by (nonlinear_arith)
                requires
                    usize::MAX <= 0xffff_ffff_ffff_ffff,
            ;
        }
        if self.bytes + record.data.len() as u128 > PENDING_BLOBS_MAX_BYTES as u128 {
            return Err(StagingFull { held: self.bytes });
        }
        self.accept(record);
        Ok(())
    }

    /// Hold a record, unless its id is held already: it goes last.
    pub fn accept(&mut self, record: WalRecord)
        ensures
            final(self)@ == accepted(old(self)@, record@),
    {
        proof {
            use_type_invariant(&*self);
        }
        let mut i: usize = 0;
        while i < self.records.len()
            invariant
                i <= self.records@.len(),
                forall|j: int| 0 <= j < i ==> (#[trigger] self.records@[j]).id@ != record.id@,
                *self == *old(self),
            decreases self.records@.len() - i,
        {
            if same_bytes(self.records[i].id.as_slice(), record.id.as_slice()) {
                assert(self@[i as int].id == record.id@);
                return;
            }
            i = i + 1;
        }
        let mut held = PendingBlobs::default();
        std::mem::swap(self, &mut held);
        let PendingBlobs { mut records, bytes } = held;
        let ghost before = records@;
        let size: u128 = record.data.len() as u128;
        proof {
            lemma_total_bound(before.push(record));
            assert(models(before.push(record)).drop_last() =~= models(before));
            assert(models(before.push(record)).last() == record@);
            assert((before.len() + 1) * usize::MAX <= u128::MAX) by (nonlinear_arith)
                requires
                    before.len() <= usize::MAX,
                    usize::MAX <= 0xffff_ffff_ffff_ffff,
            ;
        }
        records.push(record);
        proof {
            let had = models(before);
            let now = models(records@);
            assert(now =~= had.push(record@));
            assert(forall|j: int| 0 <= j < had.len() ==> (#[trigger] had[j]) == before[j]@);
            assert(!holds_id(had, record@.id));
            assert(now.drop_last() =~= had);
        }
        *self = PendingBlobs { records, bytes: bytes + size };
    }

    /// Take everything that is held.
    pub fn take(&mut self) -> (r: Vec<WalRecord>)
        ensures
            models(r@) == old(self)@,
            final(self)@ == Seq::<RecordModel>::empty(),
            ids_distinct(old(self)@),
    {
        proof {
            use_type_invariant(&*self);
        }
        let mut held = PendingBlobs::default();
        std::mem::swap(self, &mut held);
        let PendingBlobs { records, bytes: _ } = held;
        records
    }

    fn accept_each(&mut self, records: Vec<WalRecord>)
        ensures
            final(self)@ == accepted_all(old(self)@, models(records@)),
    {
        let ghost all = records@;
        let mut rest = records;
        let mut queue: Vec<WalRecord> = Vec::new();
        while rest.len() > 0
            invariant
                rest@.len() + queue@.len() == all.len(),
                rest@ == all.take(rest@.len() as int),
                forall|i: int|
                    0 <= i < queue@.len() ==> #[trigger] queue@[i] == all[all.len() - 1 - i],
                *self == *old(self),
            decreases rest@.len(),
        {
            if let Some(record) = rest.pop() {
                queue.push(record);
            }
        }
        while queue.len() > 0
            invariant
                queue@.len() <= all.len(),
                forall|i: int|
                    0 <= i < queue@.len() ==> #[trigger] queue@[i] == all[all.len() - 1 - i],
                self@ == accepted_all(
                    old(self)@,
                    models(all).take(all.len() - queue@.len()),
                ),
            decreases queue@.len(),
        {
            let ghost done = (all.len() - queue@.len()) as int;
            if let Some(record) = queue.pop() {
                self.accept(record);
                proof {
                    assert(record == all[done]);
                    assert(models(all).take(done + 1).drop_last() =~= models(all).take(done));
                    assert(models(all).take(done + 1).last() == record@);
                }
            }
        }
        assert(models(all).take(all.len() as int) =~= models(all));
    }

    /// Put objects back at the front, so a publish that could not carry them
    /// leaves them ahead of anything written since.
    ///
    /// The cap does not apply: these objects were accepted already, and the
    /// client has been told nothing about them yet. Dropping them here would
    /// lose content a later head can reach.
    pub fn restage(&mut self, records: Vec<WalRecord>)
        ensures
            final(self)@ == restaged(old(self)@, models(records@)),
    {
        let tail = self.take();
        proof {
            lemma_accepted_in_two(Seq::empty(), models(records@), models(tail@));
        }
        self.accept_each(records);
        self.accept_each(tail);
    }

    /// Put staged objects back on the queue after a WAL write that did not carry
    /// them, ahead of anything written since, so the next publish does.
    pub fn restage_blobs(&mut self, records: Vec<WalRecord>)
        ensures
            final(self)@ == restaged(old(self)@, objects_of(models(records@))),
    {
        let blobs = objects_in(records);
        proof {
            use_type_invariant(&*self);
            lemma_accepts_distinct(Seq::empty(), self@);
            assert(Seq::<RecordModel>::empty() + self@ =~= self@);
        }
        if blobs.len() == 0 {
            assert(models(blobs@) + self@ =~= self@);
            return;
        }
        self.restage(blobs);
    }
}

/// The records that are backend objects, in order.
pub(crate) fn objects_in(records: Vec<WalRecord>) -> (r: Vec<WalRecord>)
    ensures
        models(r@) == objects_of(models(records@)),
{
    let ghost all = records@;
    let mut rest = records;
    let mut back: Vec<WalRecord> = Vec::new();
    while rest.len() > 0
        invariant
            rest@.len() + back@.len() == all.len(),
            rest@ == all.take(rest@.len() as int),
            forall|i: int| 0 <= i < back@.len() ==> #[trigger] back@[i] == all[all.len() - 1 - i],
        decreases rest@.len(),
    {
        if let Some(record) = rest.pop() {
            back.push(record);
        }
    }
    let mut blobs: Vec<WalRecord> = Vec::new();
    let ghost is_object = |record: RecordModel| record.kind.object_word() is Some;
    while back.len() > 0
        invariant
            back@.len() <= all.len(),
            forall|i: int| 0 <= i < back@.len() ==> #[trigger] back@[i] == all[all.len() - 1 - i],
            is_object == (|record: RecordModel| record.kind.object_word() is Some),
            models(blobs@) == models(all).take(all.len() - back@.len()).filter(is_object),
        decreases back@.len(),
    {
        let ghost done = (all.len() - back@.len()) as int;
        let ghost kept = blobs@;
        if let Some(record) = back.pop() {
            proof {
                assert(record == all[done]);
                let next = models(all).take(done + 1);
                assert(next.drop_last() =~= models(all).take(done));
                assert(next.last() == record@);
                reveal(Seq::filter);
            }
            if record.kind.object_kind().is_some() {
                blobs.push(record);
                assert(models(blobs@) =~= models(kept).push(record@));
            }
        }
    }
    assert(models(all).take(all.len() as int) =~= models(all));
    blobs
}

// ─── One publish's entry ──────────────────────────────────────────────────────

/// How a write of a WAL entry came out.
#[derive(Debug, Clone, Copy, PartialEq, Eq, Structural)]
pub enum PutOutcome {
    /// This call stored the entry.
    Stored,
    /// The bucket already held an entry for this operation. Entries are
    /// immutable, so the records just built are not in it.
    AlreadyThere,
    /// The write failed.
    Failed,
}

/// The operation and its view, as the tail records of a WAL entry. Order matters
/// on replay: blobs, then the view, then the operation.
pub open spec fn entry_records(
    leading: Seq<RecordModel>,
    view: RecordModel,
    operation: RecordModel,
) -> Seq<RecordModel> {
    leading.push(view).push(operation)
}

/// One operation's WAL entry: the leading records the caller supplies, then the
/// operation's view, then the operation. That order is the replay order, and it
/// is the whole shape of a WAL entry: staged blobs ahead of the operation that
/// makes them reachable.
pub fn operation_entry(
    op_id: Vec<u8>,
    parents: Vec<Vec<u8>>,
    leading: Vec<WalRecord>,
    view_id: Vec<u8>,
    view_bytes: Vec<u8>,
    op_bytes: Vec<u8>,
) -> (entry: WalEntry)
    ensures
        entry.op_id@ == op_id@,
        entry.parents@ == parents@,
        entry@.records == entry_records(
            models(leading@),
            (RecordModel { kind: RecordKind::View, id: view_id@, data: view_bytes@ }),
            (RecordModel { kind: RecordKind::Operation, id: op_id@, data: op_bytes@ }),
        ),
        entry.records@.len() == leading@.len() + 2,
        entry.records@.take(leading@.len() as int) == leading@,
        entry.records@[leading@.len() as int].kind is View,
        entry.records@[leading@.len() as int].id@ == view_id@,
        entry.records@[leading@.len() as int].data@ == view_bytes@,
        entry.records@.last().kind is Operation,
        entry.records@.last().id@ == op_id@,
        entry.records@.last().data@ == op_bytes@,
{
    let mut records = leading;
    let ghost before = models(records@);
    let operation = WalRecord {
        kind: RecordKind::Operation,
        id: copied(op_id.as_slice()),
        data: op_bytes,
    };
    let view = WalRecord { kind: RecordKind::View, id: view_id, data: view_bytes };
    records.push(view);
    records.push(operation);
    assert(models(records@) =~= before.push(view@).push(operation@));
    WalEntry { op_id, parents, records }
}

/// The buffer after a publish whose entry carried `records` settled.
pub open spec fn settled(
    held: Seq<RecordModel>,
    records: Seq<RecordModel>,
    outcome: PutOutcome,
) -> Seq<RecordModel> {
    if outcome == PutOutcome::Stored {
        held
    } else {
        restaged(held, objects_of(records))
    }
}

/// An entry that was stored leaves the buffer as it is; any other outcome puts back every
/// object of the entry, and neither its view nor its operation.
pub proof fn only_an_unstored_entry_is_put_back(
    held: Seq<RecordModel>,
    records: Seq<RecordModel>,
    outcome: PutOutcome,
    record: RecordModel,
)
    requires
        forall|a: RecordModel, b: RecordModel|
            (records + held).contains(a) && (records + held).contains(b) && a.id == b.id ==> a == b,
    ensures
        outcome is Stored ==> settled(held, records, outcome) == held,
        !(outcome is Stored) ==> (settled(held, records, outcome).contains(record)
            <==> held.contains(record) || (records.contains(record) && !(record.kind is View)
            && !(record.kind is Operation))),
{
    let objects = objects_of(records);
    assert forall|a: RecordModel| (objects + held).contains(a) implies (records + held).contains(
        a,
    ) by {
        let i = choose|i: int| 0 <= i < (objects + held).len() && (objects + held)[i] == a;
        if i < objects.len() {
            assert(objects.contains(objects[i]));
            views_and_operations_are_not_objects(records, held, a);
            let j = choose|j: int| 0 <= j < records.len() && records[j] == a;
            assert((records + held)[j] == a);
        } else {
            assert((records + held)[records.len() + (i - objects.len())] == a);
        }
    }
    restaging_loses_nothing(held, objects, record);
    views_and_operations_are_not_objects(records, held, record);
}

/// Settle the write of one entry. Anything that stops the entry from being
/// stored (a bucket that refuses, an entry already there) puts its objects back
/// on the staging queue, so no object the publish drained is left durable
/// nowhere.
pub fn settle_entry(pending: &mut PendingBlobs, entry: WalEntry, outcome: PutOutcome)
    ensures
        final(pending)@ == settled(old(pending)@, entry@.records, outcome),
{
    if outcome == PutOutcome::Stored {
        return;
    }
    pending.restage_blobs(entry.records);
}

// ─── What staging promises ────────────────────────────────────────────────────

pub(crate) proof fn lemma_accepted_holds(held: Seq<RecordModel>, records: Seq<RecordModel>)
    ensures
        forall|i: int|
            0 <= i < records.len() ==> holds_id(
                accepted_all(held, records),
                (#[trigger] records[i]).id,
            ),
        held.len() <= accepted_all(held, records).len(),
        forall|i: int|
            0 <= i < held.len() ==> accepted_all(held, records)[i] == #[trigger] held[i],
        forall|i: int|
            0 <= i < accepted_all(held, records).len() ==> held.contains(
                #[trigger] accepted_all(held, records)[i],
            ) || records.contains(accepted_all(held, records)[i]),
    decreases records.len(),
{
    let all = accepted_all(held, records);
    if records.len() > 0 {
        let front = records.drop_last();
        lemma_accepted_holds(held, front);
        let before = accepted_all(held, front);
        assert forall|i: int| 0 <= i < records.len() implies holds_id(
            all,
            (#[trigger] records[i]).id,
        ) by {
            if i < front.len() {
                assert(front[i] == records[i]);
                let j = choose|j: int| 0 <= j < before.len() && before[j].id == records[i].id;
                assert(all[j] == before[j]);
            } else if !holds_id(before, records[i].id) {
                assert(all[before.len() as int].id == records[i].id);
            }
        }
        assert forall|i: int| 0 <= i < held.len() implies all[i] == #[trigger] held[i] by {
            assert(before[i] == held[i]);
            assert(all[i] == before[i]);
        }
        assert forall|i: int| 0 <= i < all.len() implies held.contains(#[trigger] all[i])
            || records.contains(all[i]) by {
            if i < before.len() {
                assert(before[i] == all[i]);
                if front.contains(all[i]) {
                    let j = choose|j: int| 0 <= j < front.len() && front[j] == all[i];
                    assert(records[j] == all[i]);
                }
            } else {
                assert(records[records.len() - 1] == all[i]);
            }
        }
    } else {
        assert forall|i: int| 0 <= i < all.len() implies held.contains(#[trigger] all[i]) by {
            assert(held[i] == all[i]);
        }
    }
}

/// A call on the buffer.
pub enum StagingCall {
    Stage(RecordModel),
    Accept(RecordModel),
    Take,
    Restage(Seq<RecordModel>),
}

/// The buffer after a call.
pub open spec fn after_call(held: Seq<RecordModel>, call: StagingCall) -> Seq<RecordModel> {
    match call {
        StagingCall::Stage(record) => if data_total(held) + record.data.len()
            <= PENDING_BLOBS_MAX_BYTES {
            accepted(held, record)
        } else {
            held
        },
        StagingCall::Accept(record) => accepted(held, record),
        StagingCall::Take => Seq::empty(),
        StagingCall::Restage(records) => restaged(held, records),
    }
}

/// An object is taken in exactly where the buffer stays within a gibibyte with it; else the
/// buffer stays as it was.
pub proof fn the_buffer_holds_a_gibibyte(held: Seq<RecordModel>, record: RecordModel)
    ensures
        data_total(held) + record.data.len() <= 0x4000_0000 ==> after_call(
            held,
            StagingCall::Stage(record),
        ) == accepted(held, record),
        data_total(held) + record.data.len() > 0x4000_0000 ==> after_call(
            held,
            StagingCall::Stage(record),
        ) == held,
        accepted(held, record) == held || accepted(held, record) == held.push(record),
        accepted(held, record) == held <==> exists|i: int|
            0 <= i < held.len() && (#[trigger] held[i]).id == record.id,
{
    assert(held.push(record).len() == held.len() + 1);
}

/// The buffer after some calls on an empty one.
pub open spec fn after_calls(calls: Seq<StagingCall>) -> Seq<RecordModel>
    decreases calls.len(),
{
    if calls.len() == 0 {
        Seq::empty()
    } else {
        after_call(after_calls(calls.drop_last()), calls.last())
    }
}

/// Whatever calls were made on it, the buffer holds no id twice. A record whose id it
/// holds leaves it as it is, any other goes last, and the bytes it counts are those
/// of what it holds.
pub proof fn the_buffer_holds_each_id_once(calls: Seq<StagingCall>, record: RecordModel)
    ensures
        ids_distinct(after_calls(calls)),
        holds_id(after_calls(calls), record.id) ==> accepted(after_calls(calls), record)
            == after_calls(calls),
        !holds_id(after_calls(calls), record.id) ==> accepted(after_calls(calls), record)
            == after_calls(calls).push(record) && data_total(accepted(after_calls(calls), record))
            == data_total(after_calls(calls)) + record.data.len(),
    decreases calls.len(),
{
    let held = after_calls(calls);
    if calls.len() > 0 {
        the_buffer_holds_each_id_once(calls.drop_last(), record);
        if let StagingCall::Restage(records) = calls.last() {
            lemma_accepted_distinct(Seq::empty(), records + after_calls(calls.drop_last()));
        }
    }
    assert(held.push(record).drop_last() =~= held);
}

/// Restaging loses nothing: every object put back and every object held is held
/// afterwards, and nothing else is. The buffer still holds no id twice.
pub proof fn restaging_loses_nothing(
    held: Seq<RecordModel>,
    records: Seq<RecordModel>,
    record: RecordModel,
)
    requires
        forall|a: RecordModel, b: RecordModel|
            (records + held).contains(a) && (records + held).contains(b) && a.id == b.id ==> a == b,
    ensures
        restaged(held, records).contains(record) <==> held.contains(record) || records.contains(
            record,
        ),
        ids_distinct(restaged(held, records)),
{
    let all = records + held;
    let now = restaged(held, records);
    let none = Seq::<RecordModel>::empty();
    lemma_accepted_holds(none, all);
    lemma_accepted_distinct(none, all);
    if held.contains(record) || records.contains(record) {
        if records.contains(record) {
            let i = choose|i: int| 0 <= i < records.len() && records[i] == record;
            assert(all[i] == record);
        } else {
            let i = choose|i: int| 0 <= i < held.len() && held[i] == record;
            assert(all[records.len() + i] == record);
        }
        assert(all.contains(record));
        assert(holds_id(now, record.id));
        let j = choose|j: int| 0 <= j < now.len() && (#[trigger] now[j]).id == record.id;
        assert(all.contains(now[j]));
        assert(now[j] == record);
    }
    if now.contains(record) {
        let j = choose|j: int| 0 <= j < now.len() && now[j] == record;
        assert(all.contains(now[j]));
        let i = choose|i: int| 0 <= i < all.len() && all[i] == record;
        if i < records.len() {
            assert(records[i] == record);
        } else {
            assert(held[i - records.len()] == record);
        }
    }
}

/// Restaged objects go ahead of anything written since, in the order in which
/// they were drained.
pub proof fn restaged_objects_go_ahead(held: Seq<RecordModel>, records: Seq<RecordModel>)
    requires
        ids_distinct(records),
    ensures
        records.len() <= restaged(held, records).len(),
        restaged(held, records).take(records.len() as int) == records,
{
    let none = Seq::<RecordModel>::empty();
    lemma_accepted_in_two(none, records, held);
    assert(none + records =~= records);
    lemma_accepts_distinct(none, records);
    lemma_accepted_holds(records, held);
    assert(records.len() == 0 || restaged(held, records)[records.len() - 1] == records[records.len()
        - 1]);
    assert(restaged(held, records).take(records.len() as int) =~= records);
}

/// Draining and restaging undo each other where nothing was written in between.
pub proof fn a_failed_publish_restores_the_buffer(held: Seq<RecordModel>)
    requires
        ids_distinct(held),
    ensures
        restaged(Seq::empty(), held) == held,
{
    let none = Seq::<RecordModel>::empty();
    assert(held + none =~= held);
    assert(none + held =~= held);
    lemma_accepts_distinct(none, held);
}

/// No drained object is left durable nowhere: where the entry that carries the
/// drained objects was not stored, every one of them is staged again.
pub proof fn no_drained_object_is_lost(
    drained: Seq<RecordModel>,
    held: Seq<RecordModel>,
    view: RecordModel,
    operation: RecordModel,
    outcome: PutOutcome,
    i: int,
)
    requires
        0 <= i < drained.len(),
        drained[i].kind.object_word() is Some,
    ensures
        entry_records(drained, view, operation).contains(drained[i]),
        outcome != PutOutcome::Stored ==> holds_id(
            settled(held, entry_records(drained, view, operation), outcome),
            drained[i].id,
        ),
{
    let records = entry_records(drained, view, operation);
    assert(records[i] == drained[i]);
    if outcome != PutOutcome::Stored {
        let objects = objects_of(records);
        let is_object = |record: RecordModel| record.kind.object_word() is Some;
        records.lemma_filter_contains(is_object, i);
        let j = choose|j: int| 0 <= j < objects.len() && objects[j] == drained[i];
        lemma_accepted_holds(Seq::empty(), objects + held);
        assert((objects + held)[j] == drained[i]);
    }
}

} // verus!
