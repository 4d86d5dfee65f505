//! The raw transport: where it connects to, and how its schema's words map to
//! the wire vocabulary.
use vstd::prelude::*;
use vstd::string::*;

use crate::http_client::{scheme_split, supports_capability, PrefixResult, RepoInfoResponse};
use crate::order::{copied, TextMap};
use crate::text::{
    debug_text, decimal, first_at, first_is_unique, is_blank, is_yes, lower, lowered, maybe_text,
    parse_u64, parsed_u64, push_decimal, quoted, same_text, says_yes, split_once, stands_at, trim,
    trimmed, CharClass,
};
use crate::wire::{kind_word, RepoCapability};

verus! {

pub const BENCH_DISABLE_RPC_INFLIGHT_ENV: &'static str = "TANDEM_BENCH_DISABLE_RPC_INFLIGHT";

pub const RPC_MAX_INFLIGHT_ENV: &'static str = "TANDEM_RPC_MAX_INFLIGHT";

pub const DEFAULT_RPC_MAX_INFLIGHT: usize = 32;

/// How many seconds a connection may take.
pub const CONNECT_TIMEOUT_SECS: u64 = 5;

// ─── Endpoint target ──────────────────────────────────────────────────────────

/// Where a connection goes.
#[derive(Debug, Clone)]
pub enum ConnectorTarget {
    Tcp { addr: String },
}

/// The address of an endpoint, or what is wrong with it.
pub open spec fn tcp_target(endpoint: Seq<char>) -> Result<Seq<char>, Seq<char>> {
    match scheme_split(endpoint) {
        Some((scheme, rest)) => if lowered(scheme) == "tcp"@ {
            if rest.len() == 0 {
                Err("invalid tcp endpoint: missing host:port in "@ + debug_text(endpoint))
            } else {
                Ok(rest)
            }
        } else {
            Err(
                "unsupported tandem transport scheme "@ + debug_text(scheme)
                    + "; only raw TCP host:port endpoints are currently supported"@,
            )
        },
        None => Ok(endpoint),
    }
}

/// An endpoint without a scheme is its own address; one with the scheme TCP, in whatever
/// case, stands for what follows the scheme, which has to be something. There is no other.
pub proof fn an_endpoint_is_a_tcp_address(endpoint: Seq<char>)
    ensures
        match tcp_target(endpoint) {
            Ok(addr) => match scheme_split(endpoint) {
                None => addr == endpoint,
                Some((scheme, rest)) => lowered(scheme) == "tcp"@ && rest.len() > 0 && addr == rest,
            },
            Err(_) => scheme_split(endpoint) matches Some((scheme, rest)) && (lowered(scheme)
                != "tcp"@ || rest.len() == 0),
        },
{
}

impl ConnectorTarget {
    pub fn parse(endpoint: &str) -> (r: Result<ConnectorTarget, String>)
        ensures
            match (r, tcp_target(endpoint@)) {
                (Ok(target), Ok(addr)) => target->addr@ == addr,
                (Err(message), Err(text)) => message@ == text,
                _ => false,
            },
    {
        match split_once(endpoint, "://") {
            Some((scheme, rest)) => {
                proof {
                    let i = choose|i: int| #[trigger]
                        first_at(endpoint@, "://"@, i) && scheme@ == endpoint@.take(i) && rest@
                            == endpoint@.skip(i + "://"@.len());
                    let j = choose|j: int| first_at(endpoint@, "://"@, j);
                    first_is_unique(endpoint@, "://"@, i, j);
                }
                if same_text(lower(scheme.as_str()).as_str(), "tcp") {
                    if is_blank(rest.as_str()) {
                        let mut s = "invalid tcp endpoint: missing host:port in ".to_owned();
                        s.append(quoted(endpoint).as_str());
                        return Err(s);
                    }
                    return Ok(ConnectorTarget::Tcp { addr: rest });
                }
                let mut s = "unsupported tandem transport scheme ".to_owned();
                s.append(quoted(scheme.as_str()).as_str());
                s.append("; only raw TCP host:port endpoints are currently supported");
                Err(s)
            },
            None => {
                proof {
                    if exists|i: int| first_at(endpoint@, "://"@, i) {
                        let i = choose|i: int| first_at(endpoint@, "://"@, i);
                        assert(stands_at(endpoint@, "://"@, i));
                    }
                }
                Ok(ConnectorTarget::Tcp { addr: endpoint.to_owned() })
            },
        }
    }

    pub fn display_addr(&self) -> (s: &str)
        ensures
            s@ == self->addr@,
    {
        match self {
            ConnectorTarget::Tcp { addr } => addr.as_str(),
        }
    }
}

/// The sentence for a connection that took too long.
pub fn timed_out_message(addr: &str) -> (s: String)
    ensures
        s@ == "connection timed out after "@ + decimal(CONNECT_TIMEOUT_SECS as nat) + "s to "@
            + addr@,
{
    let mut s = "connection timed out after ".to_owned();
    push_decimal(&mut s, CONNECT_TIMEOUT_SECS);
    s.append("s to ");
    s.append(addr);
    s
}

// ─── The schema's words ───────────────────────────────────────────────────────

/// The schema's kinds of objects.
#[derive(Debug, Clone, Copy, PartialEq, Eq, Structural)]
pub enum ObjectKind {
    Commit,
    Tree,
    File,
    Symlink,
    Copy,
}

/// The schema's answers to a prefix.
#[derive(Debug, Clone, Copy, PartialEq, Eq, Structural)]
pub enum PrefixResolution {
    NoMatch,
    SingleMatch,
    Ambiguous,
}

/// The schema's capabilities.
#[derive(Debug, Clone, Copy, PartialEq, Eq, Structural)]
pub enum Capability {
    WatchHeads,
    HeadsSnapshot,
    CopyTracking,
}

impl ObjectKind {
    /// The wire's name of a kind.
    pub open spec fn word(self) -> Seq<char> {
        match self {
            ObjectKind::Commit => "commit"@,
            ObjectKind::Tree => "tree"@,
            ObjectKind::File => "file"@,
            ObjectKind::Symlink => "symlink"@,
            ObjectKind::Copy => "copy"@,
        }
    }
}

/// The schema's kind for a number of the wire.
pub open spec fn schema_kind(kind: u16) -> Option<ObjectKind> {
    if kind == 0 {
        Some(ObjectKind::Commit)
    } else if kind == 1 {
        Some(ObjectKind::Tree)
    } else if kind == 2 {
        Some(ObjectKind::File)
    } else if kind == 3 {
        Some(ObjectKind::Symlink)
    } else if kind == 4 {
        Some(ObjectKind::Copy)
    } else {
        None
    }
}

pub fn capnp_kind(kind: u16) -> (r: Result<ObjectKind, String>)
    ensures
        match schema_kind(kind) {
            Some(k) => r == Ok::<ObjectKind, String>(k),
            None => r matches Err(message) && message@ == "unknown object kind: "@ + decimal(
                kind as nat,
            ),
        },
{
    if kind == 0 {
        Ok(ObjectKind::Commit)
    } else if kind == 1 {
        Ok(ObjectKind::Tree)
    } else if kind == 2 {
        Ok(ObjectKind::File)
    } else if kind == 3 {
        Ok(ObjectKind::Symlink)
    } else if kind == 4 {
        Ok(ObjectKind::Copy)
    } else {
        let mut s = "unknown object kind: ".to_owned();
        push_decimal(&mut s, kind as u64);
        Err(s)
    }
}

pub fn object_kind_str(kind: ObjectKind) -> (s: &'static str)
    ensures
        s@ == kind.word(),
{
    match kind {
        ObjectKind::Commit => "commit",
        ObjectKind::Tree => "tree",
        ObjectKind::File => "file",
        ObjectKind::Symlink => "symlink",
        ObjectKind::Copy => "copy",
    }
}

/// A kind has the same name on both transports.
pub proof fn kinds_agree(kind: u16)
    ensures
        kind_word(kind) == (match schema_kind(kind) {
            Some(k) => Some(k.word()),
            None => None,
        }),
{
}

pub fn from_capnp(capability: Capability) -> (r: RepoCapability)
    ensures
        r == (match capability {
            Capability::WatchHeads => RepoCapability::WatchHeads,
            Capability::HeadsSnapshot => RepoCapability::HeadsSnapshot,
            Capability::CopyTracking => RepoCapability::CopyTracking,
        }),
{
    match capability {
        Capability::WatchHeads => RepoCapability::WatchHeads,
        Capability::HeadsSnapshot => RepoCapability::HeadsSnapshot,
        Capability::CopyTracking => RepoCapability::CopyTracking,
    }
}

/// What an answer to a prefix means: an id comes only with a single match, and
/// only where it is not empty.
pub fn prefix_answer(resolution: PrefixResolution, id: Vec<u8>) -> (r: (
    PrefixResult,
    Option<Vec<u8>>,
))
    ensures
        r.0 == (match resolution {
            PrefixResolution::NoMatch => PrefixResult::NoMatch,
            PrefixResolution::SingleMatch => PrefixResult::SingleMatch,
            PrefixResolution::Ambiguous => PrefixResult::Ambiguous,
        }),
        match r.1 {
            Some(found) => resolution == PrefixResolution::SingleMatch && id@.len() > 0 && found@
                == id@,
            None => resolution != PrefixResolution::SingleMatch || id@.len() == 0,
        },
{
    match resolution {
        PrefixResolution::NoMatch => (PrefixResult::NoMatch, None),
        PrefixResolution::Ambiguous => (PrefixResult::Ambiguous, None),
        PrefixResolution::SingleMatch => {
            if id.len() == 0 {
                (PrefixResult::SingleMatch, None)
            } else {
                (PrefixResult::SingleMatch, Some(id))
            }
        },
    }
}

/// The map of the first `n` workspace heads, without those that have no name or
/// no id; of two for one workspace the later one counts.
pub open spec fn heads_map(pairs: Seq<(String, Vec<u8>)>, n: nat) -> Map<Seq<char>, Seq<u8>>
    decreases n,
{
    if n == 0 {
        Map::empty()
    } else {
        let before = heads_map(pairs, (n - 1) as nat);
        let (workspace, id) = (pairs[n - 1].0@, pairs[n - 1].1@);
        if workspace.len() == 0 || id.len() == 0 {
            before
        } else {
            before.insert(workspace, id)
        }
    }
}

/// A workspace is in the map exactly when a pair names it with an id, neither of them
/// empty, and its value is the id of the last such pair.
pub proof fn the_named_workspaces_are_mapped(
    pairs: Seq<(String, Vec<u8>)>,
    n: nat,
    workspace: Seq<char>,
)
    requires
        n <= pairs.len(),
    ensures
        heads_map(pairs, n).contains_key(workspace) <==> exists|i: int|
            0 <= i < n && (#[trigger] pairs[i]).0@ == workspace && workspace.len() > 0
                && pairs[i].1@.len() > 0,
        forall|i: int|
            0 <= i < n && (#[trigger] pairs[i]).0@ == workspace && workspace.len() > 0
                && pairs[i].1@.len() > 0 && (forall|j: int|
                i < j < n ==> (#[trigger] pairs[j]).0@ != workspace || pairs[j].1@.len() == 0)
                ==> heads_map(pairs, n)[workspace] == pairs[i].1@,
    decreases n,
{
    if n > 0 {
        the_named_workspaces_are_mapped(pairs, (n - 1) as nat, workspace);
        let before = heads_map(pairs, (n - 1) as nat);
        let after = heads_map(pairs, n);
        let last = pairs[n - 1];
        if last.0@ == workspace && workspace.len() > 0 && last.1@.len() > 0 {
            assert(after.contains_key(workspace));
        } else {
            assert(after.contains_key(workspace) == before.contains_key(workspace));
            assert(after[workspace] == before[workspace]);
            if before.contains_key(workspace) {
                let i = choose|i: int|
                    0 <= i < n - 1 && (#[trigger] pairs[i]).0@ == workspace && workspace.len() > 0
                        && pairs[i].1@.len() > 0;
                assert(pairs[i].0@ == workspace);
            }
        }
    }
}

pub fn workspace_heads_from_pairs(pairs: &Vec<(String, Vec<u8>)>) -> (r: TextMap<Vec<u8>>)
    ensures
        r@ == heads_map(pairs@, pairs@.len()),
        forall|workspace: Seq<char>| #[trigger]
            r@.contains_key(workspace) <==> exists|i: int|
                0 <= i < pairs@.len() && (#[trigger] pairs@[i]).0@ == workspace && workspace.len()
                    > 0 && pairs@[i].1@.len() > 0,
{
    let mut r: TextMap<Vec<u8>> = TextMap::new();
    let mut i: usize = 0;
    while i < pairs.len()
        invariant
            i <= pairs@.len(),
            r@ == heads_map(pairs@, i as nat),
        decreases pairs@.len() - i,
    {
        if !is_blank(pairs[i].0.as_str()) && pairs[i].1.len() > 0 {
            r.insert(
                pairs[i].0.as_str(),
                copied(pairs[i].1.as_slice()),
            );
        }
        i = i + 1;
    }
    proof {
        assert forall|workspace: Seq<char>| #[trigger] r@.contains_key(workspace) <==> exists|
            k: int,
        |
            0 <= k < pairs@.len() && (#[trigger] pairs@[k]).0@ == workspace && workspace.len() > 0
                && pairs@[k].1@.len() > 0 by {
            the_named_workspaces_are_mapped(pairs@, pairs@.len(), workspace);
        }
    }
    r
}

// ─── Limits ───────────────────────────────────────────────────────────────────

/// Whether a switch is on, given what its variable is set to.
pub fn env_truthy(value: Option<&str>) -> (r: bool)
    ensures
        r == (value matches Some(text) && says_yes(text@)),
{
    match value {
        Some(text) => is_yes(text),
        None => false,
    }
}

/// What a variable says of a limit, where it says anything.
pub open spec fn limit_said(value: Option<Seq<char>>) -> Option<usize> {
    match value {
        Some(text) => match parsed_u64(trimmed(text, CharClass::White)) {
            Some(n) => if n <= usize::MAX {
                Some(n as usize)
            } else {
                None
            },
            None => None,
        },
        None => None,
    }
}

/// A limit is said exactly by a number that fits, with or without white space around it.
pub proof fn a_limit_is_a_number(value: Seq<char>)
    ensures
        limit_said(None) is None,
        limit_said(Some(value)) is Some <==> (parsed_u64(
            trimmed(value, CharClass::White),
        ) matches Some(n) && n <= usize::MAX),
        limit_said(Some(value)) matches Some(said) ==> parsed_u64(trimmed(value, CharClass::White))
            == Some(said as u64),
{
}

/// How many requests may be on their way at once: at least one, and exactly one
/// where the switch takes pipelining away.
pub fn rpc_max_inflight(disable: Option<&str>, limit: Option<&str>) -> (n: usize)
    ensures
        n == (if disable matches Some(text) && says_yes(text@) {
            1
        } else {
            match limit_said(maybe_text(limit)) {
                Some(said) => if said > 1 {
                    said
                } else {
                    1
                },
                None => DEFAULT_RPC_MAX_INFLIGHT,
            }
        }),
        n >= 1,
        disable is None && limit is None ==> n == 32,
{
    if env_truthy(disable) {
        return 1;
    }
    let parsed: Option<usize> = match limit {
        Some(text) => {
            let word = trim(text, CharClass::White);
            match parse_u64(word.as_str()) {
                Some(said) => {
                    if said <= usize::MAX as u64 {
                        Some(said as usize)
                    } else {
                        None
                    }
                },
                None => None,
            }
        },
        None => None,
    };
    match parsed {
        Some(said) => if said > 1 {
            said
        } else {
            1
        },
        None => DEFAULT_RPC_MAX_INFLIGHT,
    }
}

// ─── Requests on their way ────────────────────────────────────────────────────

/// The requests of a client: those that wait, in the order in which they came, and
/// how many are on their way. A request is known by its number.
#[derive(Debug, PartialEq, Eq)]
pub struct RequestQueue {
    waiting: Vec<u64>,
    inflight: usize,
    max_inflight: usize,
}

/// A queue, as a mathematical value.
#[verifier::ext_equal]
pub struct QueueModel {
    pub waiting: Seq<u64>,
    pub inflight: nat,
    pub max_inflight: nat,
}

impl View for RequestQueue {
    type V = QueueModel;

    closed spec fn view(&self) -> QueueModel {
        QueueModel {
            waiting: self.waiting@,
            inflight: self.inflight as nat,
            max_inflight: self.max_inflight as nat,
        }
    }
}

/// No more requests are on their way than may be, and none waits that need not.
pub open spec fn is_queue(queue: QueueModel) -> bool {
    &&& 1 <= queue.max_inflight
    &&& queue.inflight <= queue.max_inflight
    &&& queue.waiting.len() > 0 ==> queue.inflight == queue.max_inflight
}

pub open spec fn empty_queue(max_inflight: nat) -> QueueModel {
    QueueModel { waiting: Seq::empty(), inflight: 0, max_inflight }
}

/// The queue once a request came in, and the request to send.
pub open spec fn queue_arrived(queue: QueueModel, request: u64) -> (QueueModel, Option<u64>) {
    if queue.inflight < queue.max_inflight {
        (QueueModel { inflight: queue.inflight + 1, ..queue }, Some(request))
    } else {
        (QueueModel { waiting: queue.waiting.push(request), ..queue }, None)
    }
}

/// The queue once a request was answered, and the request to send in its place.
pub open spec fn queue_finished(queue: QueueModel) -> (QueueModel, Option<u64>) {
    if queue.waiting.len() > 0 {
        (QueueModel { waiting: queue.waiting.skip(1), ..queue }, Some(queue.waiting[0]))
    } else {
        (QueueModel { inflight: (queue.inflight - 1) as nat, ..queue }, None)
    }
}

impl RequestQueue {
    #[verifier::type_invariant]
    spec fn valid(self) -> bool {
        is_queue(self@)
    }

    /// A queue that lets so many requests be on their way at once, but at least one.
    pub fn new(max_inflight: usize) -> (r: RequestQueue)
        ensures
            r@ == empty_queue(
                if max_inflight == 0 {
                    1
                } else {
                    max_inflight as nat
                },
            ),
    {
        let max_inflight: usize = if max_inflight == 0 {
            1
        } else {
            max_inflight
        };
        RequestQueue { waiting: Vec::new(), inflight: 0, max_inflight }
    }

    /// How many requests are on their way.
    pub fn inflight(&self) -> (n: usize)
        ensures
            n == self@.inflight,
    {
        self.inflight
    }

    /// A request came in: the one to send now, if any.
    pub fn arrived(&mut self, request: u64) -> (send: Option<u64>)
        ensures
            (final(self)@, send) == queue_arrived(old(self)@, request),
    {
        proof {
            use_type_invariant(&*self);
        }
        if self.inflight < self.max_inflight {
            self.inflight = self.inflight + 1;
            Some(request)
        } else {
            let mut waiting: Vec<u64> = Vec::new();
            std::mem::swap(&mut waiting, &mut self.waiting);
            waiting.push(request);
            self.waiting = waiting;
            None
        }
    }

    /// A request was answered: the one to send now, if any waits.
    pub fn finished(&mut self) -> (send: Option<u64>)
        requires
            old(self)@.inflight > 0,
        ensures
            (final(self)@, send) == queue_finished(old(self)@),
    {
        proof {
            use_type_invariant(&*self);
        }
        if self.waiting.len() > 0 {
            let ghost before = self.waiting@;
            let mut waiting: Vec<u64> = Vec::new();
            std::mem::swap(&mut waiting, &mut self.waiting);
            let next: u64 = waiting.remove(0);
            assert(waiting@ =~= before.skip(1));
            self.waiting = waiting;
            Some(next)
        } else {
            self.inflight = self.inflight - 1;
            None
        }
    }
}

/// What happens to a queue.
pub enum QueueEvent {
    Arrived(u64),
    Finished,
}

/// A queue after some events, and the requests that were sent, in order.
pub open spec fn queue_run(max_inflight: nat, events: Seq<QueueEvent>) -> (QueueModel, Seq<u64>)
    decreases events.len(),
{
    if events.len() == 0 {
        (empty_queue(max_inflight), Seq::empty())
    } else {
        let (queue, sent) = queue_run(max_inflight, events.drop_last());
        let (next, send) = match events.last() {
            QueueEvent::Arrived(request) => queue_arrived(queue, request),
            QueueEvent::Finished => queue_finished(queue),
        };
        (
            next,
            match send {
                Some(request) => sent.push(request),
                None => sent,
            },
        )
    }
}

/// The requests that came in, in order.
pub open spec fn arrivals(events: Seq<QueueEvent>) -> Seq<u64>
    decreases events.len(),
{
    if events.len() == 0 {
        Seq::empty()
    } else {
        match events.last() {
            QueueEvent::Arrived(request) => arrivals(events.drop_last()).push(request),
            QueueEvent::Finished => arrivals(events.drop_last()),
        }
    }
}

/// Whether only requests that are on their way are answered.
pub open spec fn answers_follow_requests(max_inflight: nat, events: Seq<QueueEvent>) -> bool
    decreases events.len(),
{
    events.len() > 0 ==> {
        &&& answers_follow_requests(max_inflight, events.drop_last())
        &&& events.last() is Finished ==> queue_run(max_inflight, events.drop_last()).0.inflight > 0
    }
}

/// How many requests were answered.
pub open spec fn answers(events: Seq<QueueEvent>) -> nat
    decreases events.len(),
{
    if events.len() == 0 {
        0
    } else if events.last() is Finished {
        answers(events.drop_last()) + 1
    } else {
        answers(events.drop_last())
    }
}

/// Requests are sent in the order in which they came, each once, none is lost, and
/// never are more on their way than may be. One waits only while as many as may be
/// are on their way, and a request is on its way until it is answered.
pub proof fn requests_are_sent_in_order(max_inflight: nat, events: Seq<QueueEvent>)
    requires
        max_inflight >= 1,
        answers_follow_requests(max_inflight, events),
    ensures
        ({
            let (queue, sent) = queue_run(max_inflight, events);
            &&& sent + queue.waiting == arrivals(events)
            &&& queue.max_inflight == max_inflight
            &&& is_queue(queue)
            &&& queue.inflight <= max_inflight
            &&& queue.waiting.len() > 0 ==> queue.inflight == max_inflight
            &&& queue.inflight + answers(events) == sent.len()
        }),
    decreases events.len(),
{
    if events.len() > 0 {
        let before = events.drop_last();
        requests_are_sent_in_order(max_inflight, before);
        let (queue, sent) = queue_run(max_inflight, before);
        let (next, all_sent) = queue_run(max_inflight, events);
        assert(all_sent + next.waiting =~= arrivals(events));
    } else {
        assert(queue_run(max_inflight, events).1 + queue_run(max_inflight, events).0.waiting
            =~= arrivals(events));
    }
}

// ─── Optional methods ─────────────────────────────────────────────────────────

/// Whether a method that only some servers have is to be called. Where the server
/// lacks it, the answer is that there is nothing.
pub fn calls_optional(info: &RepoInfoResponse, method: OptionalMethod) -> (r: bool)
    ensures
        r == info.capabilities@.contains(method.needed()),
{
    supports_capability(info, method.needs())
}

/// A method that only some servers have.
#[derive(Debug, Clone, Copy, PartialEq, Eq, Structural)]
pub enum OptionalMethod {
    GetHeadsSnapshot,
    GetRelatedCopies,
}

impl OptionalMethod {
    pub open spec fn needed(self) -> RepoCapability {
        match self {
            OptionalMethod::GetHeadsSnapshot => RepoCapability::HeadsSnapshot,
            OptionalMethod::GetRelatedCopies => RepoCapability::CopyTracking,
        }
    }

    /// The capability that a server with the method has.
    pub fn needs(self) -> (r: RepoCapability)
        ensures
            r == self.needed(),
            self is GetHeadsSnapshot <==> r is HeadsSnapshot,
            self is GetRelatedCopies <==> r is CopyTracking,
    {
        match self {
            OptionalMethod::GetHeadsSnapshot => RepoCapability::HeadsSnapshot,
            OptionalMethod::GetRelatedCopies => RepoCapability::CopyTracking,
        }
    }
}

} // verus!
