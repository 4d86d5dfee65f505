//! The order of a publish, and why a crash anywhere in it is harmless.
//!
//! A publish writes the WAL entry, compare-and-swaps the index, applies the
//! operation to the local repo, records the metadata, and finally publishes
//! whatever head set the reconcile derived. The first two make it durable; the
//! rest brings this server in line. A server that stops in between comes back
//! through recovery, and what it then serves is either the state before the
//! publish or the state after it.
use vstd::prelude::*;

use crate::bucket::{is_root_text, missing_from, recovery_of, replayed_heads, Recovery};
use crate::faults::CrashWindow;
use crate::order::lemma_pushed;

verus! {

/// A stage of a publish.
#[derive(Debug, Clone, Copy, PartialEq, Eq, Structural)]
pub enum PublishStage {
    WriteWal,
    WriteIndex,
    ApplyLocally,
    WriteMetadata,
    PublishDerived,
}

impl PublishStage {
    /// What follows a stage.
    pub open spec fn after(self) -> Option<PublishStage> {
        match self {
            PublishStage::WriteWal => Some(PublishStage::WriteIndex),
            PublishStage::WriteIndex => Some(PublishStage::ApplyLocally),
            PublishStage::ApplyLocally => Some(PublishStage::WriteMetadata),
            PublishStage::WriteMetadata => Some(PublishStage::PublishDerived),
            PublishStage::PublishDerived => None,
        }
    }

    /// The window in front of a stage.
    pub open spec fn window_of(self) -> CrashWindow {
        match self {
            PublishStage::WriteWal => CrashWindow::BeforeWalWrite,
            PublishStage::WriteIndex => CrashWindow::AfterWalWrite,
            PublishStage::ApplyLocally => CrashWindow::AfterIndexWrite,
            PublishStage::WriteMetadata => CrashWindow::AfterLocalApply,
            PublishStage::PublishDerived => CrashWindow::AfterMetadataWrite,
        }
    }

    /// Where a publish starts.
    pub fn first() -> (r: PublishStage)
        ensures
            r == PublishStage::WriteWal,
    {
        PublishStage::WriteWal
    }

    /// The stage that follows; nothing after the last.
    pub fn next(self) -> (r: Option<PublishStage>)
        ensures
            r == self.after(),
            self is WriteWal <==> r == Some(PublishStage::WriteIndex),
            self is WriteIndex <==> r == Some(PublishStage::ApplyLocally),
            self is ApplyLocally <==> r == Some(PublishStage::WriteMetadata),
            self is WriteMetadata <==> r == Some(PublishStage::PublishDerived),
            self is PublishDerived <==> r is None,
    {
        match self {
            PublishStage::WriteWal => Some(PublishStage::WriteIndex),
            PublishStage::WriteIndex => Some(PublishStage::ApplyLocally),
            PublishStage::ApplyLocally => Some(PublishStage::WriteMetadata),
            PublishStage::WriteMetadata => Some(PublishStage::PublishDerived),
            PublishStage::PublishDerived => None,
        }
    }

    /// The window a server may be cut off at before it does this stage's work.
    pub fn window(self) -> (r: CrashWindow)
        ensures
            r == self.window_of(),
            self is WriteWal <==> r is BeforeWalWrite,
            self is WriteIndex <==> r is AfterWalWrite,
            self is ApplyLocally <==> r is AfterIndexWrite,
            self is WriteMetadata <==> r is AfterLocalApply,
            self is PublishDerived <==> r is AfterMetadataWrite,
    {
        match self {
            PublishStage::WriteWal => CrashWindow::BeforeWalWrite,
            PublishStage::WriteIndex => CrashWindow::AfterWalWrite,
            PublishStage::ApplyLocally => CrashWindow::AfterIndexWrite,
            PublishStage::WriteMetadata => CrashWindow::AfterLocalApply,
            PublishStage::PublishDerived => CrashWindow::AfterMetadataWrite,
        }
    }
}

// ─── The state a publish moves ────────────────────────────────────────────────

/// The index object, as far as a publish moves it.
pub struct IndexState {
    pub version: u64,
    pub heads: Seq<Seq<char>>,
}

/// The bucket and the local repo: the operations that have a WAL entry, the
/// index, the operation heads of the repo, and the version recorded beside them.
pub struct ServerState {
    pub wal: Set<Seq<char>>,
    pub index: Option<IndexState>,
    pub heads: Seq<Seq<char>>,
    pub version: u64,
}

/// A publish of `op`, after which the heads are `heads`.
pub struct PublishModel {
    pub op: Seq<char>,
    pub heads: Seq<Seq<char>>,
}

/// What the work of one stage does.
pub open spec fn stage_done(
    state: ServerState,
    publish: PublishModel,
    stage: PublishStage,
) -> ServerState {
    match stage {
        PublishStage::WriteWal => ServerState { wal: state.wal.insert(publish.op), ..state },
        PublishStage::WriteIndex => ServerState {
            index: Some(
                IndexState { version: (state.version + 1) as u64, heads: publish.heads },
            ),
            ..state
        },
        PublishStage::ApplyLocally => ServerState { heads: publish.heads, ..state },
        PublishStage::WriteMetadata => ServerState {
            version: (state.version + 1) as u64,
            ..state
        },
        PublishStage::PublishDerived => state,
    }
}

/// The state when a publish that was at `stage` is cut off at `window`; the
/// state after the publish where the window lies behind it.
pub open spec fn cut_off(
    state: ServerState,
    publish: PublishModel,
    stage: PublishStage,
    window: CrashWindow,
) -> ServerState
    decreases
            (match stage {
                PublishStage::WriteWal => 5nat,
                PublishStage::WriteIndex => 4,
                PublishStage::ApplyLocally => 3,
                PublishStage::WriteMetadata => 2,
                PublishStage::PublishDerived => 1,
            }),
{
    if stage.window_of() == window {
        state
    } else {
        let done = stage_done(state, publish, stage);
        match stage.after() {
            Some(next) => cut_off(done, publish, next, window),
            None => done,
        }
    }
}

/// The heads once the entry of `head` was replayed: its parents retire.
pub open spec fn replayed_one(
    heads: Set<Seq<char>>,
    parents: Seq<Seq<char>>,
    head: Seq<char>,
) -> Set<Seq<char>> {
    heads.difference(parents.to_set()).insert(head)
}

/// The heads once the entries of `named` were replayed in order.
pub open spec fn replayed_all(
    heads: Set<Seq<char>>,
    parents: spec_fn(Seq<char>) -> Seq<Seq<char>>,
    named: Seq<Seq<char>>,
) -> Set<Seq<char>>
    decreases named.len(),
{
    if named.len() == 0 {
        heads
    } else {
        replayed_one(
            replayed_all(heads, parents, named.drop_last()),
            parents(named.last()),
            named.last(),
        )
    }
}

/// Whether `after` is what recovery makes of `before`.
pub open spec fn recovers(
    before: ServerState,
    parents: spec_fn(Seq<char>) -> Seq<Seq<char>>,
    after: ServerState,
) -> bool {
    let index_version = match before.index {
        Some(index) => Some(index.version),
        None => None,
    };
    &&& after.wal == before.wal
    &&& match recovery_of(before.version, index_version) {
        Recovery::Seed | Recovery::Republish => {
            &&& after.heads == before.heads
            &&& after.version == before.version
            &&& after.index == Some(IndexState { version: before.version, heads: before.heads })
        },
        Recovery::Adopt => {
            &&& after.index == before.index
            &&& after.version == before.index->0.version
            &&& after.heads.to_set() == replayed_all(
                before.heads.to_set(),
                parents,
                replayed_heads(before.index->0.heads, before.heads),
            )
        },
        Recovery::InSync => after == before,
    }
}

/// The repo and the bucket agree.
pub open spec fn in_line(state: ServerState) -> bool {
    state.index matches Some(index) && index.version == state.version && index.heads.to_set()
        == state.heads.to_set()
}

/// Every head is an operation the bucket can give back.
pub open spec fn heads_are_durable(state: ServerState) -> bool {
    forall|head: Seq<char>| #[trigger]
        state.heads.contains(head) ==> is_root_text(head) || state.wal.contains(head)
}

/// The publish adds `op` to the heads and retires exactly its parents.
pub open spec fn publishes(
    state: ServerState,
    parents: spec_fn(Seq<char>) -> Seq<Seq<char>>,
    publish: PublishModel,
) -> bool {
    &&& !is_root_text(publish.op)
    &&& !state.heads.contains(publish.op)
    &&& publish.heads.no_duplicates()
    &&& forall|head: Seq<char>| #[trigger]
        publish.heads.contains(head) <==> head == publish.op || (state.heads.contains(head)
            && !parents(publish.op).contains(head))
}

proof fn lemma_filter_none<A>(s: Seq<A>, pred: spec_fn(A) -> bool)
    requires
        forall|j: int| 0 <= j < s.len() ==> !pred(#[trigger] s[j]),
    ensures
        s.filter(pred) == Seq::<A>::empty(),
    decreases s.len(),
{
    reveal(Seq::filter);
    if s.len() > 0 {
        let front = s.drop_last();
        assert forall|j: int| 0 <= j < front.len() implies !pred(#[trigger] front[j]) by {
            assert(front[j] == s[j]);
        }
        lemma_filter_none(front, pred);
        assert(!pred(s[s.len() - 1]));
    }
}

proof fn lemma_filter_one<A>(s: Seq<A>, pred: spec_fn(A) -> bool, i: int)
    requires
        0 <= i < s.len(),
        pred(s[i]),
        forall|j: int| 0 <= j < s.len() && j != i ==> !pred(#[trigger] s[j]),
    ensures
        s.filter(pred) == seq![s[i]],
    decreases s.len(),
{
    reveal(Seq::filter);
    let front = s.drop_last();
    assert forall|j: int| 0 <= j < front.len() && j != i implies !pred(#[trigger] front[j]) by {
        assert(front[j] == s[j]);
    }
    if i == s.len() - 1 {
        lemma_filter_none(front, pred);
        assert(s.filter(pred) =~= seq![s[i]]);
    } else {
        lemma_filter_one(front, pred, i);
        assert(!pred(s[s.len() - 1]));
    }
}

/// Wherever a publish is cut off, recovery brings the repo and the bucket in
/// line, at a head set that the bucket can give back. Cut off before the index
/// was written, the publish never happened; cut off anywhere after, it happened
/// as if nothing had stopped it.
pub proof fn a_crash_is_all_or_nothing(
    state: ServerState,
    parents: spec_fn(Seq<char>) -> Seq<Seq<char>>,
    publish: PublishModel,
    window: CrashWindow,
    recovered: ServerState,
)
    requires
        in_line(state),
        heads_are_durable(state),
        state.version < u64::MAX,
        publishes(state, parents, publish),
        recovers(
            cut_off(state, publish, PublishStage::WriteWal, window),
            parents,
            recovered,
        ),
    ensures
        in_line(recovered),
        heads_are_durable(recovered),
        window == CrashWindow::BeforeWalWrite || window == CrashWindow::AfterWalWrite ==> {
            &&& recovered.version == state.version
            &&& recovered.heads.to_set() == state.heads.to_set()
        },
        window != CrashWindow::BeforeWalWrite && window != CrashWindow::AfterWalWrite ==> {
            &&& recovered.version == state.version + 1
            &&& recovered.heads.to_set() == publish.heads.to_set()
        },
{
    reveal_with_fuel(cut_off, 6);
    let stopped = cut_off(state, publish, PublishStage::WriteWal, window);
    let op = publish.op;
    assert forall|head: Seq<char>| #[trigger] publish.heads.contains(head) implies is_root_text(head)
        || state.wal.insert(op).contains(head) by {
        if head != op {
            assert(state.heads.contains(head));
        }
    }
    if window == CrashWindow::AfterIndexWrite {
        // The one window in which something is replayed: the new operation.
        assert(publish.heads.contains(op));
        let i = choose|i: int| 0 <= i < publish.heads.len() && publish.heads[i] == op;
        assert forall|j: int| 0 <= j < publish.heads.len() && j != i implies !missing_from(
            state.heads,
        )(#[trigger] publish.heads[j]) by {
            assert(publish.heads.contains(publish.heads[j]));
        }
        lemma_filter_one(publish.heads, missing_from(state.heads), i);
        let named = replayed_heads(publish.heads, state.heads);
        assert(named == seq![op]);
        assert(named.drop_last() =~= Seq::<Seq<char>>::empty());
        reveal_with_fuel(replayed_all, 2);
        let heads = replayed_all(state.heads.to_set(), parents, named);
        assert(heads == replayed_one(state.heads.to_set(), parents(op), op));
        assert(recovered.heads.to_set() =~= publish.heads.to_set()) by {
            assert forall|head: Seq<char>| heads.contains(head) <==> publish.heads.to_set().contains(
                head,
            ) by {
                assert(publish.heads.contains(head) <==> head == op || (state.heads.contains(head)
                    && !parents(op).contains(head)));
                assert(state.heads.to_set().contains(head) == state.heads.contains(head));
                assert(parents(op).to_set().contains(head) == parents(op).contains(head));
            }
        }
    } else if window == CrashWindow::AfterLocalApply {
        assert forall|j: int| 0 <= j < publish.heads.len() implies !missing_from(publish.heads)(
            #[trigger] publish.heads[j],
        ) by {
            assert(publish.heads.contains(publish.heads[j]));
        }
        lemma_filter_none(publish.heads, missing_from(publish.heads));
    }
    assert forall|head: Seq<char>| #[trigger] recovered.heads.contains(head) implies is_root_text(
        head,
    ) || recovered.wal.contains(head) by {
        assert(recovered.heads.to_set().contains(head));
        if window == CrashWindow::BeforeWalWrite || window == CrashWindow::AfterWalWrite {
            assert(state.heads.to_set().contains(head));
        } else {
            assert(publish.heads.to_set().contains(head));
        }
    }
}

/// A publish that nothing stops leaves the repo and the bucket in line too.
pub proof fn a_whole_publish_stays_in_line(
    state: ServerState,
    parents: spec_fn(Seq<char>) -> Seq<Seq<char>>,
    publish: PublishModel,
)
    requires
        in_line(state),
        heads_are_durable(state),
        state.version < u64::MAX,
        publishes(state, parents, publish),
    ensures
        ({
            let after = stage_done(
                cut_off(state, publish, PublishStage::WriteWal, CrashWindow::AfterMetadataWrite),
                publish,
                PublishStage::PublishDerived,
            );
            &&& in_line(after)
            &&& heads_are_durable(after)
            &&& after.version == state.version + 1
            &&& after.heads == publish.heads
        }),
{
    reveal_with_fuel(cut_off, 6);
    let after = cut_off(state, publish, PublishStage::WriteWal, CrashWindow::AfterMetadataWrite);
    assert forall|head: Seq<char>| #[trigger] after.heads.contains(head) implies is_root_text(head)
        || after.wal.contains(head) by {
        if head != publish.op {
            assert(state.heads.contains(head));
        }
    }
}

/// A head stays through a replay that does not retire it, and a replayed head is
/// there afterwards.
proof fn lemma_replayed_heads_stay(
    heads: Set<Seq<char>>,
    parents: spec_fn(Seq<char>) -> Seq<Seq<char>>,
    named: Seq<Seq<char>>,
    head: Seq<char>,
)
    requires
        heads.contains(head) || named.contains(head),
        forall|other: Seq<char>| named.contains(other) ==> !(#[trigger] parents(other)).contains(
            head,
        ),
    ensures
        replayed_all(heads, parents, named).contains(head),
    decreases named.len(),
{
    if named.len() > 0 {
        let front = named.drop_last();
        let last = named.last();
        assert(named.contains(last));
        assert(parents(last).to_set().contains(head) == parents(last).contains(head));
        if last != head {
            assert forall|other: Seq<char>| front.contains(other) implies !(#[trigger] parents(
                other,
            )).contains(head) by {
                let i = choose|i: int| 0 <= i < front.len() && front[i] == other;
                assert(named[i] == other);
            }
            if named.contains(head) {
                let i = choose|i: int| 0 <= i < named.len() && named[i] == head;
                assert(front[i] == head);
            }
            lemma_replayed_heads_stay(heads, parents, front, head);
        }
    }
}

proof fn lemma_filtered<A>(s: Seq<A>, pred: spec_fn(A) -> bool, x: A)
    ensures
        s.filter(pred).contains(x) <==> s.contains(x) && pred(x),
    decreases s.len(),
{
    reveal(Seq::filter);
    if s.len() > 0 {
        let front = s.drop_last();
        lemma_filtered(front, pred, x);
        assert(s =~= front.push(s.last()));
        lemma_pushed(front, s.last());
        if pred(s.last()) {
            lemma_pushed(front.filter(pred), s.last());
        }
    }
}

/// However many publishes a server has missed, once it has recovered it serves
/// every head that the bucket names and is at the version that the bucket has.
/// (The root operation is no entry of the bucket. Of two heads, neither is a parent
/// of the other.)
pub proof fn a_recovered_server_serves_what_the_bucket_names(
    state: ServerState,
    parents: spec_fn(Seq<char>) -> Seq<Seq<char>>,
    recovered: ServerState,
    head: Seq<char>,
)
    requires
        recovers(state, parents, recovered),
        state.index matches Some(index) && index.version > state.version && index.heads.contains(
            head,
        ) && forall|a: Seq<char>, b: Seq<char>|
            index.heads.contains(a) && index.heads.contains(b) ==> !(#[trigger] parents(
                a,
            ).contains(b)),
        !is_root_text(head),
    ensures
        recovered.version == state.index->0.version,
        recovered.heads.contains(head),
{
    let index = state.index->0;
    let named = replayed_heads(index.heads, state.heads);
    assert forall|other: Seq<char>| named.contains(other) implies !(#[trigger] parents(
        other,
    )).contains(head) by {
        lemma_filtered(index.heads, missing_from(state.heads), other);
    }
    lemma_filtered(index.heads, missing_from(state.heads), head);
    assert(state.heads.to_set().contains(head) == state.heads.contains(head));
    lemma_replayed_heads_stay(state.heads.to_set(), parents, named, head);
    assert(recovered.heads.to_set().contains(head));
}

} // verus!
