//! The operation store of a client: what it knows without asking the server, and
//! what it makes of the answers.
//!
//! The server stores neither the root operation nor the root view. The client
//! makes both up, hangs operations without a parent below the root, and lets the
//! root take part when a prefix is resolved.
use vstd::prelude::*;
use vstd::string::*;

use crate::faults::bytes_view;
use crate::heads::{has_prefix, starts_with};
use crate::hex::{hex_text, to_hex};
use crate::http_client::PrefixResult;
use crate::ids::{IdMap, OPERATION_ID_LENGTH, VIEW_ID_LENGTH};
use crate::order::{copied, same_bytes, TextMap};
use crate::proto_convert::{
    epoch, formed_operation, operation_form, operation_read, operations_read_back, read_operation,
    write_operation, IdList, MetadataModel, Operation, OperationError, OperationMetadata,
    OperationModel, Timestamp,
};
use crate::text::{chars_of, models};
use crate::views::{absent, RefTarget, RepoView, RepoViewModel};

verus! {

// ─── Prefixes ─────────────────────────────────────────────────────────────────

/// What a prefix of an operation id stands for.
#[derive(Debug, Clone, PartialEq, Eq)]
pub enum PrefixResolution {
    NoMatch,
    SingleMatch(Vec<u8>),
    AmbiguousMatch,
}

pub enum ResolutionModel {
    NoMatch,
    SingleMatch(Seq<u8>),
    AmbiguousMatch,
}

impl View for PrefixResolution {
    type V = ResolutionModel;

    open spec fn view(&self) -> ResolutionModel {
        match *self {
            PrefixResolution::NoMatch => ResolutionModel::NoMatch,
            PrefixResolution::SingleMatch(id) => ResolutionModel::SingleMatch(id@),
            PrefixResolution::AmbiguousMatch => ResolutionModel::AmbiguousMatch,
        }
    }
}

/// Whether a prefix is one of the root operation's id.
pub open spec fn matches_root(prefix: Seq<char>, root: Seq<u8>) -> bool {
    starts_with(hex_text(root), prefix)
}

/// Whether the server has to be asked: not for the whole id of the root.
pub open spec fn has_to_ask(prefix: Seq<char>, root: Seq<u8>) -> bool {
    !(prefix.len() == 2 * OPERATION_ID_LENGTH && matches_root(prefix, root))
}

/// What the server's answer comes to once the root is counted in.
pub open spec fn resolution(
    prefix: Seq<char>,
    root: Seq<u8>,
    answer: PrefixResult,
    matched: Option<Seq<u8>>,
) -> ResolutionModel {
    match (answer, matches_root(prefix, root)) {
        (PrefixResult::NoMatch, true) => ResolutionModel::SingleMatch(root),
        (PrefixResult::NoMatch, false) => ResolutionModel::NoMatch,
        (PrefixResult::SingleMatch, true) => ResolutionModel::AmbiguousMatch,
        (PrefixResult::SingleMatch, false) => match matched {
            Some(id) => ResolutionModel::SingleMatch(id),
            None => ResolutionModel::NoMatch,
        },
        (PrefixResult::Ambiguous, _) => ResolutionModel::AmbiguousMatch,
    }
}

/// What is known of a prefix before the server is asked.
pub fn resolve_without_asking(prefix: &str, root: &[u8]) -> (r: Option<PrefixResolution>)
    ensures
        match r {
            Some(known) => !has_to_ask(prefix@, root@) && known@ == ResolutionModel::SingleMatch(
                root@,
            ),
            None => has_to_ask(prefix@, root@),
        },
{
    let hex = to_hex(root);
    if chars_of(prefix).len() == OPERATION_ID_LENGTH * 2 && has_prefix(hex.as_str(), prefix) {
        Some(PrefixResolution::SingleMatch(copied(root)))
    } else {
        None
    }
}

/// What a prefix stands for, given the server's answer.
pub fn resolve_operation_id_prefix(
    prefix: &str,
    root: &[u8],
    answer: PrefixResult,
    matched: Option<Vec<u8>>,
) -> (r: PrefixResolution)
    ensures
        r@ == resolution(prefix@, root@, answer, bytes_view(matched)),
{
    let hex = to_hex(root);
    let at_root = has_prefix(hex.as_str(), prefix);
    match answer {
        PrefixResult::NoMatch => {
            if at_root {
                PrefixResolution::SingleMatch(copied(root))
            } else {
                PrefixResolution::NoMatch
            }
        },
        PrefixResult::SingleMatch => {
            if at_root {
                PrefixResolution::AmbiguousMatch
            } else {
                match matched {
                    Some(id) => PrefixResolution::SingleMatch(id),
                    None => PrefixResolution::NoMatch,
                }
            }
        },
        PrefixResult::Ambiguous => PrefixResolution::AmbiguousMatch,
    }
}

/// A prefix of the root's id never comes to nothing, whatever the server says, and
/// the root is what it stands for exactly where the server has no match of its own.
pub proof fn the_root_counts(prefix: Seq<char>, root: Seq<u8>, matched: Option<Seq<u8>>)
    requires
        matches_root(prefix, root),
    ensures
        forall|answer: PrefixResult|
            !(#[trigger] resolution(prefix, root, answer, matched) is NoMatch),
        resolution(prefix, root, PrefixResult::NoMatch, matched) == ResolutionModel::SingleMatch(
            root,
        ),
        resolution(prefix, root, PrefixResult::SingleMatch, matched) is AmbiguousMatch,
        resolution(prefix, root, PrefixResult::Ambiguous, matched) is AmbiguousMatch,
{
}

/// A prefix of no root stands for what the server says.
pub proof fn away_from_the_root_the_server_decides(
    prefix: Seq<char>,
    root: Seq<u8>,
    id: Seq<u8>,
)
    requires
        !matches_root(prefix, root),
    ensures
        has_to_ask(prefix, root),
        resolution(prefix, root, PrefixResult::NoMatch, None) is NoMatch,
        resolution(prefix, root, PrefixResult::SingleMatch, Some(id))
            == ResolutionModel::SingleMatch(id),
        resolution(prefix, root, PrefixResult::Ambiguous, None) is AmbiguousMatch,
{
}

// ─── Roots ────────────────────────────────────────────────────────────────────

/// The id of the root view: all zero.
pub open spec fn root_view_id() -> Seq<u8> {
    Seq::new(VIEW_ID_LENGTH as nat, |i: int| 0u8)
}

fn zero_view_id() -> (id: Vec<u8>)
    ensures
        id@ == root_view_id(),
{
    let mut id: Vec<u8> = Vec::new();
    while id.len() < VIEW_ID_LENGTH
        invariant
            id@.len() <= VIEW_ID_LENGTH,
            forall|i: int| 0 <= i < id@.len() ==> id@[i] == 0,
        decreases VIEW_ID_LENGTH - id@.len(),
    {
        id.push(0);
    }
    assert(id@ =~= root_view_id());
    id
}

/// The root operation: it has the root view, no parent, and nothing is recorded of
/// it.
pub open spec fn root_operation() -> OperationModel {
    OperationModel {
        view_id: root_view_id(),
        parents: Seq::empty(),
        metadata: MetadataModel {
            start: epoch(),
            end: epoch(),
            description: Seq::empty(),
            hostname: Seq::empty(),
            username: Seq::empty(),
            is_snapshot: false,
            tags: Map::empty(),
        },
        commit_predecessors: Some(Map::empty()),
    }
}

/// The root view: the root commit is its only head.
pub open spec fn root_view(root_commit: Seq<u8>) -> RepoViewModel {
    RepoViewModel {
        head_ids: set![root_commit],
        local_bookmarks: Map::empty(),
        local_tags: Map::empty(),
        remote_views: Map::empty(),
        git_refs: Map::empty(),
        git_head: absent(),
        wc_commit_ids: Map::empty(),
    }
}

/// The operation of that id, where the server need not be asked for it.
pub fn known_operation(id: &[u8], root: &[u8]) -> (r: Option<Operation>)
    ensures
        match r {
            Some(operation) => id@ == root@ && operation@ == root_operation(),
            None => id@ != root@,
        },
{
    if !same_bytes(id, root) {
        return None;
    }
    proof {
        reveal_strlit("");
        assert(""@ =~= Seq::<char>::empty());
    }
    let operation = Operation {
        view_id: zero_view_id(),
        parents: Vec::new(),
        metadata: OperationMetadata {
            start: Timestamp { millis_since_epoch: 0, tz_offset: 0 },
            end: Timestamp { millis_since_epoch: 0, tz_offset: 0 },
            description: "".to_owned(),
            hostname: "".to_owned(),
            username: "".to_owned(),
            is_snapshot: false,
            tags: TextMap::new(),
        },
        commit_predecessors: Some(IdMap::<IdList>::new()),
    };
    assert(operation@ =~= root_operation());
    Some(operation)
}

/// The view of that id, where the server need not be asked for it.
pub fn known_view(id: &[u8], root_commit: &[u8]) -> (r: Option<RepoView>)
    ensures
        match r {
            Some(view) => id@ == root_view_id() && view@ == root_view(root_commit@),
            None => id@ != root_view_id(),
        },
{
    let zero = zero_view_id();
    if !same_bytes(id, zero.as_slice()) {
        return None;
    }
    let mut head_ids: Vec<Vec<u8>> = Vec::new();
    head_ids.push(copied(root_commit));
    let mut terms: Vec<Option<Vec<u8>>> = Vec::new();
    terms.push(None);
    let git_head = RefTarget { terms };
    let view = RepoView {
        head_ids,
        local_bookmarks: TextMap::new(),
        local_tags: TextMap::new(),
        remote_views: TextMap::new(),
        git_refs: TextMap::new(),
        git_head,
        wc_commit_ids: TextMap::new(),
    };
    assert(view@.git_head =~= absent());
    assert(models(head_ids@) =~= seq![root_commit@]);
    assert(view@.head_ids =~= set![root_commit@]) by {
        assert forall|x: Seq<u8>| view@.head_ids.contains(x) <==> x == root_commit@ by {
            assert(models(head_ids@).to_set().contains(x) <==> models(head_ids@).contains(x));
            if x == root_commit@ {
                assert(models(head_ids@)[0] == x);
            }
        }
    }
    assert(view@ =~= root_view(root_commit@));
    Some(view)
}

/// An operation with a parent: the root, where it has none.
pub open spec fn below_root(operation: OperationModel, root: Seq<u8>) -> OperationModel {
    if operation.parents.len() == 0 {
        OperationModel { parents: seq![root], ..operation }
    } else {
        operation
    }
}

/// The operation that a server's answer holds.
pub fn operation_answer(data: &[u8], root: &[u8]) -> (r: Result<Operation, OperationError>)
    ensures
        match operation_read(data@) {
            None => r == Err::<Operation, OperationError>(OperationError::Decode),
            Some(form) => match formed_operation(form) {
                Ok(said) => (r matches Ok(operation) && operation@ == below_root(said, root@)),
                Err(said) => (r matches Err(OperationError::Convert(message)) && message@ == said),
            },
        },
{
    match read_operation(data) {
        Err(e) => Err(e),
        Ok(operation) => Ok(adopted(operation, root)),
    }
}

/// The operation below the root where it has no parent of its own.
pub fn adopted(operation: Operation, root: &[u8]) -> (r: Operation)
    ensures
        r@ == below_root(operation@, root@),
{
    let mut r = operation;
    let ghost before = r@;
    if r.parents.len() == 0 {
        r.parents.push(copied(root));
        assert(models(r.parents@) =~= seq![root@]);
        assert(r@ =~= below_root(before, root@));
    }
    r
}

/// What is sent of a new operation. Every operation a client writes has a parent.
pub fn operation_to_send(operation: &Operation) -> (data: Vec<u8>)
    requires
        operation.parents@.len() > 0,
    ensures
        operation_read(data@) == Some(operation_form(*operation)),
{
    write_operation(operation)
}

/// What a client writes of an operation, it reads back as that operation.
pub proof fn a_written_operation_reads_back(operation: Operation, root: Seq<u8>)
    requires
        operation.parents@.len() > 0,
        operation.view_id@.len() == VIEW_ID_LENGTH,
        forall|i: int|
            0 <= i < operation.parents@.len() ==> (#[trigger] operation.parents@[i])@.len()
                == OPERATION_ID_LENGTH,
    ensures
        formed_operation(operation_form(operation)) == Ok::<OperationModel, Seq<char>>(operation@),
        below_root(operation@, root) == operation@,
{
    operations_read_back(operation);
}

/// An operation keeps all it has, and gets the root for a parent exactly where it has none.
pub proof fn only_an_orphan_gets_the_root(operation: OperationModel, root: Seq<u8>)
    ensures
        ({
            let after = below_root(operation, root);
            &&& after.view_id == operation.view_id
            &&& after.metadata == operation.metadata
            &&& after.commit_predecessors == operation.commit_predecessors
            &&& operation.parents.len() > 0 ==> after.parents == operation.parents
            &&& operation.parents.len() == 0 ==> after.parents.len() == 1 && after.parents[0] == root
        }),
{
}

/// The root view shows the root commit and nothing else, and the root operation has that
/// view, under the id that is all zeros, and nothing before it.
pub proof fn the_roots_are_empty(root_commit: Seq<u8>, id: Seq<u8>, name: Seq<char>)
    ensures
        root_view_id().len() == 64,
        forall|i: int| 0 <= i < 64 ==> #[trigger] root_view_id()[i] == 0,
        root_operation().view_id == root_view_id(),
        root_operation().parents.len() == 0,
        root_operation().metadata.description.len() == 0,
        !root_operation().metadata.is_snapshot,
        root_operation().commit_predecessors matches Some(map) && !map.contains_key(id),
        root_view(root_commit).head_ids.contains(id) <==> id == root_commit,
        !root_view(root_commit).local_bookmarks.contains_key(name),
        !root_view(root_commit).local_tags.contains_key(name),
        !root_view(root_commit).remote_views.contains_key(name),
        !root_view(root_commit).git_refs.contains_key(name),
        !root_view(root_commit).wc_commit_ids.contains_key(name),
        root_view(root_commit).git_head.len() == 1 && root_view(root_commit).git_head[0] is None,
{
}

} // verus!
