//! Bytes in, bytes out: what a client writes, a client reads back, and the server
//! hands out the same thing.
//!
//! Here the backend is any function that gives what is written an id and a stored
//! form, as long as one id stands for one content. What lies between the two clients
//! is the library: the frames of a batch, the outcomes of its items, and the paths
//! under which objects are asked for.
use vstd::prelude::*;

use crate::bucket::{replay_step_of, ReplayStep};
use crate::hex::{hex_reads_back, hex_text, hex_text_digits, hex_value, HexError};
use crate::http::item_outcome;
use crate::staging::entry_records;
use crate::wal::{
    all_fit, entry_bytes, entry_lengths, entry_read, wal_entries_read_back, EntryModel, RecordModel,
    WalError,
};
use crate::wire::{
    items_fit, kind_word, kind_words_round_trip, outcomes_fit, request_frame,
    request_frames_read_back, request_read, response_frame, response_frames_read_back,
    response_read, word_kind, OutcomeModel,
};

verus! {

/// What a backend makes of something that is written: its id, and the form in which
/// it is stored.
pub type Backend = spec_fn(Seq<char>, Seq<u8>) -> (Seq<u8>, Seq<u8>);

/// Whether one id stands for one content.
pub open spec fn is_content_addressed(backend: Backend) -> bool {
    forall|kind: Seq<char>, a: Seq<u8>, b: Seq<u8>|
        #![trigger backend(kind, a), backend(kind, b)]
        backend(kind, a).0 == backend(kind, b).0 ==> backend(kind, a).1 == backend(kind, b).1
}

/// The answer of the backend to an item.
pub open spec fn written(backend: Backend, item: (u16, Seq<u8>)) -> Result<
    (Seq<u8>, Seq<u8>),
    Seq<char>,
> {
    match kind_word(item.0) {
        Some(word) => Ok(backend(word, item.1)),
        None => Err(Seq::empty()),
    }
}

/// What is stored once the first `n` items were written.
pub open spec fn stored(
    store: Map<(Seq<char>, Seq<u8>), Seq<u8>>,
    backend: Backend,
    items: Seq<(u16, Seq<u8>)>,
    n: nat,
) -> Map<(Seq<char>, Seq<u8>), Seq<u8>>
    decreases n,
{
    if n == 0 {
        store
    } else {
        let before = stored(store, backend, items, (n - 1) as nat);
        match kind_word(items[n - 1].0) {
            Some(word) => {
                let (id, data) = backend(word, items[n - 1].1);
                before.insert((word, id), data)
            },
            None => before,
        }
    }
}

/// The outcomes that the server sends back.
pub open spec fn outcomes(backend: Backend, items: Seq<(u16, Seq<u8>)>) -> Seq<OutcomeModel> {
    Seq::new(items.len(), |i: int| item_outcome(items[i], written(backend, items[i])))
}

proof fn lemma_stored(
    store: Map<(Seq<char>, Seq<u8>), Seq<u8>>,
    backend: Backend,
    items: Seq<(u16, Seq<u8>)>,
    n: nat,
    i: int,
)
    requires
        is_content_addressed(backend),
        0 <= i < n <= items.len(),
        kind_word(items[i].0) is Some,
    ensures
        ({
            let word = kind_word(items[i].0)->0;
            let (id, data) = backend(word, items[i].1);
            let now = stored(store, backend, items, n);
            now.contains_key((word, id)) && now[(word, id)] == data
        }),
    decreases n,
{
    let word = kind_word(items[i].0)->0;
    let (id, data) = backend(word, items[i].1);
    if i < n - 1 {
        lemma_stored(store, backend, items, (n - 1) as nat, i);
        if let Some(other) = kind_word(items[n - 1].0) {
            let again = backend(other, items[n - 1].1);
            if other == word && again.0 == id {
                assert(again.1 == data);
            }
        }
    }
}

/// What is written is what is read. A batch reaches the server as it was sent; the
/// client learns the id and the stored form of every item that has a kind; and under
/// that kind and id the server has that form, whatever else the batch held.
pub proof fn what_is_written_is_read_back(
    store: Map<(Seq<char>, Seq<u8>), Seq<u8>>,
    backend: Backend,
    items: Seq<(u16, Seq<u8>)>,
    i: int,
)
    requires
        is_content_addressed(backend),
        items_fit(items),
        outcomes_fit(outcomes(backend, items)),
        0 <= i < items.len(),
        kind_word(items[i].0) is Some,
    ensures
        request_read(request_frame(items)) == Ok::<Seq<(u16, Seq<u8>)>, Seq<char>>(items),
        response_read(response_frame(outcomes(backend, items))) == Ok::<
            Seq<OutcomeModel>,
            Seq<char>,
        >(outcomes(backend, items)),
        ({
            let word = kind_word(items[i].0)->0;
            let (id, normalized) = backend(word, items[i].1);
            let now = stored(store, backend, items, items.len());
            &&& outcomes(backend, items)[i] == (OutcomeModel::Written { id, normalized })
            &&& now.contains_key((word, id))
            &&& now[(word, id)] == normalized
            // The kind and the id come back out of the path of the object.
            &&& word_kind(word) == Some(items[i].0)
            &&& hex_value(hex_text(id)) == Ok::<Seq<u8>, HexError>(id)
        }),
{
    request_frames_read_back(items);
    response_frames_read_back(outcomes(backend, items));
    lemma_stored(store, backend, items, items.len(), i);
    let word = kind_word(items[i].0)->0;
    kind_words_round_trip(items[i].0, word);
    hex_reads_back(backend(word, items[i].1).0);
}

/// The path of an object.
pub open spec fn path_of(word: Seq<char>, id: Seq<u8>) -> Seq<char> {
    "/api/objects/"@ + word + "/"@ + hex_text(id)
}

/// Two objects are never asked for under one path.
pub proof fn paths_tell_objects_apart(a: u16, id: Seq<u8>, b: u16, other: Seq<u8>)
    requires
        kind_word(a) is Some,
        kind_word(b) is Some,
        path_of(kind_word(a)->0, id) == path_of(kind_word(b)->0, other),
    ensures
        a == b,
        id == other,
{
    let (x, y) = (kind_word(a)->0, kind_word(b)->0);
    let (p, q) = (path_of(x, id), path_of(y, other));
    let front = "/api/objects/"@;
    let n = front.len() as int;
    reveal_strlit("/");
    reveal_strlit("commit");
    reveal_strlit("tree");
    reveal_strlit("file");
    reveal_strlit("symlink");
    reveal_strlit("copy");
    hex_text_digits(id);
    hex_text_digits(other);
    let rest = (x + "/"@ + hex_text(id));
    let rest2 = (y + "/"@ + hex_text(other));
    assert(p =~= front + rest);
    assert(q =~= front + rest2);
    assert(rest =~= p.skip(n));
    assert(rest2 =~= q.skip(n));
    assert(rest == rest2);
    assert(rest[x.len() as int] == '/');
    assert(rest2[y.len() as int] == '/');
    assert(forall|k: int| 0 <= k < x.len() ==> x[k] != '/');
    assert(forall|k: int| 0 <= k < y.len() ==> y[k] != '/');
    if x.len() < y.len() {
        assert(rest2[x.len() as int] == y[x.len() as int]);
    }
    if y.len() < x.len() {
        assert(rest[y.len() as int] == x[y.len() as int]);
    }
    assert(x =~= rest.take(x.len() as int));
    assert(y =~= rest2.take(y.len() as int));
    assert(hex_text(id) =~= rest.skip(x.len() as int + 1));
    assert(hex_text(other) =~= rest2.skip(y.len() as int + 1));
    kind_words_round_trip(a, x);
    kind_words_round_trip(b, y);
    hex_reads_back(id);
    hex_reads_back(other);
}

/// What is replayed is what was uploaded: an entry comes out of its bytes with every
/// object that it took along, of the same kind, under the same id and with the same
/// content.
pub proof fn what_is_replayed_is_what_was_uploaded(
    op_id: Seq<u8>,
    parents: Seq<Seq<u8>>,
    drained: Seq<RecordModel>,
    view: RecordModel,
    operation: RecordModel,
    i: int,
    step: ReplayStep,
)
    requires
        ({
            let entry = EntryModel { op_id, parents, records: entry_records(drained, view, operation) };
            all_fit(entry_lengths(entry)) && entry_bytes(entry).len() <= usize::MAX
        }),
        0 <= i < drained.len(),
        drained[i].kind.object_word() is Some,
        replay_step_of(step, entry_records(drained, view, operation)[i]),
    ensures
        ({
            let entry = EntryModel { op_id, parents, records: entry_records(drained, view, operation) };
            &&& entry_read(entry_bytes(entry)) == Ok::<EntryModel, WalError>(entry)
            &&& entry.records[i] == drained[i]
            &&& step matches ReplayStep::Object(kind) && drained[i].kind.object_word() == Some(kind@)
        }),
{
    let entry = EntryModel { op_id, parents, records: entry_records(drained, view, operation) };
    wal_entries_read_back(entry);
    assert(entry.records[i] == drained[i]);
}

} // verus!
