//! The server's half of the HTTP API: what a request asks for, whether it may,
//! and how an outcome is answered.
//!
//! * Objects, operations and views are content-addressed, so a `GET` of one can
//!   never go stale and is answered `Cache-Control: immutable`.
//! * Heads are the one mutable resource. `GET /api/heads` carries the CAS version
//!   as an `ETag`; `POST /api/heads` requires that version back in `If-Match` and
//!   answers `412 Precondition Failed`, with the state the caller lost the race
//!   to, when it does not match.
use vstd::prelude::*;
use vstd::string::*;

use crate::faults::bytes_view;
use crate::heads::{has_prefix, starts_with, HeadsState, UpdateResult};
use crate::hex::{
    from_hex, hex_reads_back, hex_text, hex_texts, hex_value, to_hex, to_hex_all, HexError,
};
use crate::http_client::{
    bad_head, etag_for_version, etag_version, etags_read_back, first_mismatch, first_missing,
    info_error, lemma_bad_stays, the_first_unreadable_head_is_reported, version_from_etag,
    HeaderText, RepoInfoResponse, ROOT_OPERATION_ID_LENGTH,
};
use crate::order::copied;
use crate::text::{
    all_hex_digits, chars_of, debug_text, decimal, hex_digits_only, is_blank, maybe, models,
    push_decimal, quoted, text_of, trim, trimmed, CharClass,
};
use crate::wire::{
    canonical_kind_name, decode_batch_request, kind_name, kind_word, kind_words_round_trip,
    request_read, word_kind, BatchItem, BatchOutcome, ClaimWriterBody, HeadsBody, MintTokenBody,
    OutcomeModel, PrefixBody, RepoCapability, RepoInfoBody, TokenBody, UpdateHeadsBody,
    WriterRoleBody, BACKEND_NAME, CONTENT_TYPE_OCTETS, IMMUTABLE_CACHE_CONTROL, OP_STORE_NAME,
    PROTOCOL_MAJOR, PROTOCOL_MINOR,
};
use crate::writer::{WriterConflict, WriterRole, DEFAULT_WRITER_TTL, MAX_SPAN};

verus! {

/// The largest request body, in bytes. A batch that would not fit is the
/// caller's to split.
pub const MAX_REQUEST_BODY_BYTES: usize = 67108864;

// ─── Error shape ──────────────────────────────────────────────────────────────

/// A failure, rendered the way every endpoint renders one: a status plus a JSON
/// body the client turns straight back into an error message.
#[derive(Debug, PartialEq, Eq)]
pub struct ApiError {
    pub status: u16,
    pub message: String,
}

/// A failure, as a mathematical value.
#[verifier::ext_equal]
pub struct ErrorModel {
    pub status: u16,
    pub message: Seq<char>,
}

impl View for ApiError {
    type V = ErrorModel;

    open spec fn view(&self) -> ErrorModel {
        ErrorModel { status: self.status, message: self.message@ }
    }
}

pub open spec fn error(status: u16, message: Seq<char>) -> ErrorModel {
    ErrorModel { status, message }
}

/// A failure is shown with the status and the message it has.
pub proof fn a_failure_has_its_status_and_message(e: ApiError, status: u16, message: Seq<char>)
    ensures
        error(status, message).status == status,
        error(status, message).message == message,
        e@.status == e.status,
        e@.message == e.message@,
{
}

/// Why a read failed.
#[derive(Debug, Clone, Copy, PartialEq, Eq, Structural)]
pub enum ReadFailure {
    NotFound,
    MalformedId,
    Other,
}

impl ApiError {
    pub fn new(status: u16, message: &str) -> (r: ApiError)
        ensures
            r@ == error(status, message@),
    {
        ApiError { status, message: message.to_owned() }
    }

    pub fn bad_request(message: &str) -> (r: ApiError)
        ensures
            r@ == error(400, message@),
    {
        ApiError::new(400, message)
    }

    /// A read failure is only a 404 when the object really is absent.
    ///
    /// Answering every read failure with 404 makes a disk or permission fault
    /// look exactly like a missing object, and a client that caches the
    /// conclusion remembers a fault as a fact. So the server says which one it
    /// was: a missing object is a 404, a malformed id is a 400, and anything
    /// else is a 500 the caller may retry.
    pub fn from_read(failure: ReadFailure, message: &str) -> (r: ApiError)
        ensures
            r@ == error(
                match failure {
                    ReadFailure::NotFound => 404,
                    ReadFailure::MalformedId => 400,
                    ReadFailure::Other => 500,
                },
                message@,
            ),
    {
        match failure {
            ReadFailure::NotFound => ApiError::new(404, message),
            ReadFailure::MalformedId => ApiError::new(400, message),
            ReadFailure::Other => ApiError::new(500, message),
        }
    }

    /// A publish that the token was not allowed to make is the client's answer
    /// to keep, not a fault to retry: 403, with the reason the scope check gave.
    /// Everything else on that path is still a 500.
    pub fn from_publish(denied: bool, message: &str) -> (r: ApiError)
        ensures
            r@ == error(
                if denied {
                    403
                } else {
                    500
                },
                message@,
            ),
    {
        if denied {
            ApiError::new(403, message)
        } else {
            ApiError::internal(message)
        }
    }

    pub fn from_write(message: &str) -> (r: ApiError)
        ensures
            r@ == error(400, message@),
    {
        ApiError::new(400, message)
    }

    pub fn internal(message: &str) -> (r: ApiError)
        ensures
            r@ == error(500, message@),
    {
        ApiError::new(500, message)
    }
}

// ─── Authentication ───────────────────────────────────────────────────────────

/// The token in `Authorization: Bearer …`, or the answer that refuses it.
pub open spec fn bearer_of(header: HeaderText) -> Result<Seq<char>, ErrorModel> {
    match header {
        HeaderText::Missing => Err(
            error(401, "this endpoint needs an Authorization: Bearer token"@),
        ),
        HeaderText::NotText(_) => Err(error(400, "Authorization is not text"@)),
        HeaderText::Text(raw) => {
            let token = trimmed(raw@.skip("Bearer "@.len() as int), CharClass::White);
            if starts_with(raw@, "Bearer "@) && token.len() > 0 {
                Ok(token)
            } else {
                Err(error(401, "Authorization must be a Bearer token"@))
            }
        },
    }
}

/// The token out of `Authorization: Bearer …`, or the 401 that refuses it.
pub fn bearer_from_headers(header: HeaderText) -> (r: Result<String, ApiError>)
    ensures
        match (r, bearer_of(header)) {
            (Ok(token), Ok(said)) => token@ == said,
            (Err(e), Err(said)) => e@ == said,
            _ => false,
        },
{
    match header {
        HeaderText::Missing => Err(
            ApiError::new(401, "this endpoint needs an Authorization: Bearer token"),
        ),
        HeaderText::NotText(_) => Err(ApiError::bad_request("Authorization is not text")),
        HeaderText::Text(raw) => {
            if has_prefix(raw.as_str(), "Bearer ") {
                let chars = chars_of(raw.as_str());
                let width: usize = chars_of("Bearer ").len();
                let rest = text_of(&chars, width, chars.len());
                assert(rest@ =~= raw@.skip("Bearer "@.len() as int));
                let token = trim(rest.as_str(), CharClass::White);
                if !is_blank(token.as_str()) {
                    return Ok(token);
                }
            }
            Err(ApiError::new(401, "Authorization must be a Bearer token"))
        },
    }
}

/// The statuses of what is refused: a 401 for a request without an authority, and a 400 for
/// an id that is not hex.
pub proof fn refusals_have_their_statuses(what: Seq<char>, e: HexError)
    ensures
        no_authority().status == 401,
        not_hex(what, e).status == 400,
{
}

/// What a request gets whose bearer stands for nobody.
pub fn unknown_bearer() -> (r: ApiError)
    ensures
        r@ == error(401, "the bearer token is unknown or has expired"@),
{
    ApiError::new(401, "the bearer token is unknown or has expired")
}

/// What a request is let in with: the authority that its bearer was found to stand
/// for, or the answer that refuses it.
pub open spec fn admitted<A>(header: HeaderText, found: Option<A>) -> Result<A, ErrorModel> {
    match (bearer_of(header), found) {
        (Err(said), _) => Err(said),
        (Ok(_), None) => Err(error(401, "the bearer token is unknown or has expired"@)),
        (Ok(_), Some(authority)) => Ok(authority),
    }
}

/// Let a request in, or refuse it. `found` is what the bearer in the header stands
/// for, if it stands for anybody; a header without a bearer was not looked up. No
/// handler runs but with the authority that comes out of here.
pub fn require_bearer<A>(header: HeaderText, found: Option<A>) -> (r: Result<A, ApiError>)
    ensures
        match r {
            Ok(authority) => admitted(header, found) == Ok::<A, ErrorModel>(authority),
            Err(e) => admitted(header, found) == Err::<A, ErrorModel>(e@),
        },
{
    match bearer_from_headers(header) {
        Err(e) => Err(e),
        Ok(_) => match found {
            None => Err(unknown_bearer()),
            Some(authority) => Ok(authority),
        },
    }
}

/// Every request is authenticated: a handler runs exactly where the header is
/// `Bearer` with a token and that token was found, and it runs with what was found.
/// Otherwise the answer is a 401, or a 400 for a header that is not text.
pub proof fn every_request_is_authenticated<A>(header: HeaderText, found: Option<A>)
    ensures
        admitted(header, found) is Ok <==> bearer_of(header) is Ok && found is Some,
        admitted(header, found) is Ok <==> found is Some && (header matches HeaderText::Text(raw)
            && starts_with(raw@, "Bearer "@) && trimmed(
            raw@.skip("Bearer "@.len() as int),
            CharClass::White,
        ).len() > 0),
        admitted(header, found) matches Ok(authority) ==> found == Some(authority),
        admitted(header, found) matches Err(e) ==> e.status == (if header is NotText {
            400u16
        } else {
            401u16
        }),
{
}

/// The token is what stands behind the word `Bearer` and a space, without the white space
/// around it.
pub proof fn the_token_stands_behind_the_word(token: Seq<char>, raw: String)
    requires
        raw@ == seq!['B', 'e', 'a', 'r', 'e', 'r', ' '] + token,
        token.len() > 0,
        trimmed(token, CharClass::White) == token,
    ensures
        bearer_of(HeaderText::Text(raw)) == Ok::<Seq<char>, ErrorModel>(token),
{
    reveal_strlit("Bearer ");
    let word = seq!['B', 'e', 'a', 'r', 'e', 'r', ' '];
    assert("Bearer "@ =~= word);
    assert((word + token).take(7) =~= word);
    assert((word + token).skip(7) =~= token);
}

/// What a token authorizes, as far as one request asks.
#[derive(Debug, Clone, Copy, PartialEq, Eq, Structural)]
pub struct Permits {
    /// Whether it is the admin token.
    pub admin: bool,
    /// Whether it speaks for the workspace the request names.
    pub workspace: bool,
}

/// A request whose bearer was not resolved is a wiring mistake rather than an
/// unauthenticated caller, and it is answered 401 rather than trusted.
pub open spec fn no_authority() -> ErrorModel {
    error(401, "this request carries no resolved authority"@)
}

fn unresolved() -> (r: ApiError)
    ensures
        r@ == no_authority(),
{
    ApiError::new(401, "this request carries no resolved authority")
}

fn not_for(workspace_id: &str) -> (r: ApiError)
    ensures
        r@ == error(403, "this token does not speak for workspace "@ + workspace_id@),
{
    let mut s = "this token does not speak for workspace ".to_owned();
    s.append(workspace_id);
    ApiError { status: 403, message: s }
}

// ─── Helpers ──────────────────────────────────────────────────────────────────

/// The path segment as a kind, or the 400 that refuses it.
pub fn validated_kind(kind: &str) -> (r: Result<&'static str, ApiError>)
    ensures
        match r {
            Ok(word) => word@ == kind@ && word_kind(kind@) is Some,
            Err(e) => word_kind(kind@) is None && e@ == error(400, "unknown object kind: "@ + kind@),
        },
{
    match canonical_kind_name(kind) {
        Some(word) => Ok(word),
        None => {
            let mut s = "unknown object kind: ".to_owned();
            s.append(kind);
            Err(ApiError { status: 400, message: s })
        },
    }
}

pub open spec fn not_hex(what: Seq<char>, e: HexError) -> ErrorModel {
    error(400, what + " is not hex: "@ + e.text())
}

pub fn parse_hex(hex: &str, what: &str) -> (r: Result<Vec<u8>, ApiError>)
    ensures
        match hex_value(hex@) {
            Ok(id) => r matches Ok(bytes) && bytes@ == id,
            Err(e) => r matches Err(api) && api@ == not_hex(what@, e),
        },
{
    match from_hex(hex) {
        Ok(id) => Ok(id),
        Err(e) => {
            let mut s = what.to_owned();
            s.append(" is not hex: ");
            s.append(e.message());
            Err(ApiError { status: 400, message: s })
        },
    }
}

// ─── Headers of an answer ─────────────────────────────────────────────────────

/// The headers of a content-addressed body, which never goes stale.
pub fn immutable_headers(id_hex: &str) -> (r: Vec<(&'static str, String)>)
    ensures
        r@.len() == 3,
        r@[0].0@ == "content-type"@ && r@[0].1@ == CONTENT_TYPE_OCTETS@,
        r@[1].0@ == "cache-control"@ && r@[1].1@ == IMMUTABLE_CACHE_CONTROL@,
        r@[2].0@ == "etag"@ && r@[2].1@ == "\""@ + id_hex@ + "\""@,
{
    let mut etag = "\"".to_owned();
    etag.append(id_hex);
    etag.append("\"");
    let mut r: Vec<(&'static str, String)> = Vec::new();
    r.push(("content-type", CONTENT_TYPE_OCTETS.to_owned()));
    r.push(("cache-control", IMMUTABLE_CACHE_CONTROL.to_owned()));
    r.push(("etag", etag));
    r
}

/// The headers of an answer that gives the id of what was written.
pub fn id_headers(header_name: &'static str, id: &[u8]) -> (r: Vec<(&'static str, String)>)
    ensures
        r@.len() == 2,
        r@[0].0@ == "content-type"@ && r@[0].1@ == CONTENT_TYPE_OCTETS@,
        r@[1].0@ == header_name@ && r@[1].1@ == hex_text(id@),
{
    let mut r: Vec<(&'static str, String)> = Vec::new();
    r.push(("content-type", CONTENT_TYPE_OCTETS.to_owned()));
    r.push((header_name, to_hex(id)));
    r
}

/// The headers of an answer that carries the heads. Heads move: a cache that
/// answered this from a store would hand a client a version it must then lose a
/// CAS race to discover is stale.
pub fn heads_headers(version: u64) -> (r: Vec<(&'static str, String)>)
    ensures
        r@.len() == 2,
        r@[0].0@ == "etag"@ && r@[0].1@ == "\""@ + decimal(version as nat) + "\""@,
        r@[1].0@ == "cache-control"@ && r@[1].1@ == "no-store"@,
{
    let mut r: Vec<(&'static str, String)> = Vec::new();
    r.push(("etag", etag_for_version(version)));
    r.push(("cache-control", "no-store".to_owned()));
    r
}

// ─── Repo info ────────────────────────────────────────────────────────────────

/// What the backend says of itself.
#[derive(Debug, PartialEq, Eq)]
pub struct BackendFacts {
    pub commit_id_length: u32,
    pub change_id_length: u32,
    pub root_commit_id: Vec<u8>,
    pub root_change_id: Vec<u8>,
    pub empty_tree_id: Vec<u8>,
}

/// The body of `GET /api/info`.
pub fn repo_info_body(facts: &BackendFacts, tandem_version: &str) -> (body: RepoInfoBody)
    ensures
        body.protocol_major == PROTOCOL_MAJOR,
        body.protocol_minor == PROTOCOL_MINOR,
        body.tandem_version@ == tandem_version@,
        body.backend_name@ == BACKEND_NAME@,
        body.op_store_name@ == OP_STORE_NAME@,
        body.commit_id_length == facts.commit_id_length,
        body.change_id_length == facts.change_id_length,
        body.root_commit_id@ == hex_text(facts.root_commit_id@),
        body.root_change_id@ == hex_text(facts.root_change_id@),
        body.empty_tree_id@ == hex_text(facts.empty_tree_id@),
        body.root_operation_id@ == hex_text(Seq::new(64, |i: int| 0u8)),
        models(body.capabilities@) == seq![RepoCapability::WatchHeads.word()],
{
    let mut root: Vec<u8> = Vec::new();
    while root.len() < ROOT_OPERATION_ID_LENGTH
        invariant
            root@.len() <= 64,
            forall|j: int| 0 <= j < root@.len() ==> #[trigger] root@[j] == 0u8,
        decreases 64 - root@.len(),
    {
        root.push(0);
    }
    assert(root@ =~= Seq::new(64, |i: int| 0u8));
    let mut capabilities: Vec<String> = Vec::new();
    capabilities.push(RepoCapability::WatchHeads.as_str().to_owned());
    assert(models(capabilities@) =~= seq![RepoCapability::WatchHeads.word()]);
    RepoInfoBody {
        protocol_major: PROTOCOL_MAJOR,
        protocol_minor: PROTOCOL_MINOR,
        tandem_version: tandem_version.to_owned(),
        backend_name: BACKEND_NAME.to_owned(),
        op_store_name: OP_STORE_NAME.to_owned(),
        commit_id_length: facts.commit_id_length,
        change_id_length: facts.change_id_length,
        root_commit_id: to_hex(facts.root_commit_id.as_slice()),
        root_change_id: to_hex(facts.root_change_id.as_slice()),
        empty_tree_id: to_hex(facts.empty_tree_id.as_slice()),
        root_operation_id: to_hex(root.as_slice()),
        capabilities,
    }
}

/// A client of this version takes a server of this version, whatever the lengths
/// of its ids are, as long as the root ids have them.
pub proof fn the_handshake_succeeds(
    facts: BackendFacts,
    body: RepoInfoBody,
    info: RepoInfoResponse,
)
    requires
        facts.commit_id_length > 0,
        facts.change_id_length > 0,
        facts.root_commit_id@.len() == facts.commit_id_length,
        facts.root_change_id@.len() == facts.change_id_length,
        facts.empty_tree_id@.len() == facts.commit_id_length,
        // What the server sends.
        body.protocol_major == PROTOCOL_MAJOR,
        body.protocol_minor == PROTOCOL_MINOR,
        body.backend_name@ == BACKEND_NAME@,
        body.op_store_name@ == OP_STORE_NAME@,
        body.commit_id_length == facts.commit_id_length,
        body.change_id_length == facts.change_id_length,
        body.root_commit_id@ == hex_text(facts.root_commit_id@),
        body.root_change_id@ == hex_text(facts.root_change_id@),
        body.empty_tree_id@ == hex_text(facts.empty_tree_id@),
        body.root_operation_id@ == hex_text(Seq::new(64, |i: int| 0u8)),
        models(body.capabilities@) == seq![RepoCapability::WatchHeads.word()],
        // What the client makes of it.
        info.protocol_major == body.protocol_major,
        info.protocol_minor == body.protocol_minor,
        info.backend_name@ == body.backend_name@,
        info.op_store_name@ == body.op_store_name@,
        info.commit_id_length == body.commit_id_length,
        info.change_id_length == body.change_id_length,
        hex_value(body.root_commit_id@) == Ok::<Seq<u8>, HexError>(info.root_commit_id@),
        hex_value(body.root_change_id@) == Ok::<Seq<u8>, HexError>(info.root_change_id@),
        hex_value(body.empty_tree_id@) == Ok::<Seq<u8>, HexError>(info.empty_tree_id@),
        hex_value(body.root_operation_id@) == Ok::<Seq<u8>, HexError>(info.root_operation_id@),
        forall|c: RepoCapability| #[trigger]
            info.capabilities@.contains(c) <==> models(body.capabilities@).contains(c.word()),
    ensures
        info_error(body) is None,
        first_mismatch(info, seq![RepoCapability::WatchHeads]) is None,
        first_mismatch(info, Seq::empty()) is None,
{
    hex_reads_back(facts.root_commit_id@);
    hex_reads_back(facts.root_change_id@);
    hex_reads_back(facts.empty_tree_id@);
    hex_reads_back(Seq::new(64, |i: int| 0u8));
    assert(models(body.capabilities@)[0] == RepoCapability::WatchHeads.word());
    assert(info.capabilities@.contains(RepoCapability::WatchHeads));
    reveal_with_fuel(first_missing, 2);
    let one = seq![RepoCapability::WatchHeads];
    assert(one.skip(1) =~= Seq::<RepoCapability>::empty());
}

// ─── Object batches ───────────────────────────────────────────────────────────

/// What a batch frame asks for, or the 400 that refuses it.
pub fn read_batch(body: &[u8]) -> (r: Result<Vec<BatchItem>, ApiError>)
    ensures
        match request_read(body@) {
            Ok(items) => r matches Ok(list) && models(list@) == items,
            Err(text) => r matches Err(e) && e@ == error(400, "bad batch frame: "@ + text),
        },
{
    match decode_batch_request(body) {
        Ok(items) => Ok(items),
        Err(e) => {
            let mut s = "bad batch frame: ".to_owned();
            s.append(e.message());
            Err(ApiError { status: 400, message: s })
        },
    }
}

/// The kind an item of a batch is to be written as, or its outcome where it has
/// none. One bad item fails alone.
pub fn batch_item_kind(item: &BatchItem) -> (r: Result<&'static str, BatchOutcome>)
    ensures
        match kind_word(item.kind) {
            Some(word) => r matches Ok(kind) && kind@ == word,
            None => r matches Err(outcome) && outcome@ == (OutcomeModel::Failed {
                message: "unknown object kind: "@ + decimal(item.kind as nat),
            }),
        },
{
    match kind_name(item.kind) {
        Some(kind) => Ok(kind),
        None => {
            let mut message = "unknown object kind: ".to_owned();
            push_decimal(&mut message, item.kind as u64);
            Err(BatchOutcome::Failed { message })
        },
    }
}

/// The outcome of an item that was handed to the backend.
pub fn batch_item_outcome(written: Result<(Vec<u8>, Vec<u8>), String>) -> (outcome: BatchOutcome)
    ensures
        outcome@ == (match written {
            Ok((id, normalized)) => (OutcomeModel::Written { id: id@, normalized: normalized@ }),
            Err(message) => (OutcomeModel::Failed { message: message@ }),
        }),
{
    match written {
        Ok((id, normalized)) => BatchOutcome::Written { id, normalized },
        Err(message) => BatchOutcome::Failed { message },
    }
}

/// What becomes of an item that the backend would answer like this.
pub open spec fn item_outcome(
    item: (u16, Seq<u8>),
    written: Result<(Seq<u8>, Seq<u8>), Seq<char>>,
) -> OutcomeModel {
    match kind_word(item.0) {
        None => OutcomeModel::Failed {
            message: "unknown object kind: "@ + decimal(item.0 as nat),
        },
        Some(_) => match written {
            Ok((id, normalized)) => OutcomeModel::Written { id, normalized },
            Err(message) => OutcomeModel::Failed { message },
        },
    }
}

/// An item is written exactly when it has a kind and the backend wrote it, and then its
/// outcome has the id and the bytes that the backend gave; the kinds are zero to four.
pub proof fn an_item_has_the_outcome_of_the_backend(
    item: (u16, Seq<u8>),
    written: Result<(Seq<u8>, Seq<u8>), Seq<char>>,
)
    ensures
        item_outcome(item, written) is Written <==> item.0 <= 4 && written is Ok,
        item_outcome(item, written) matches OutcomeModel::Written { id, normalized } ==> written
            == Ok::<(Seq<u8>, Seq<u8>), Seq<char>>((id, normalized)),
        item.0 <= 4 && written is Err ==> item_outcome(item, written) == (OutcomeModel::Failed {
            message: written->Err_0,
        }),
{
    kind_words_round_trip(item.0, Seq::empty());
}

/// The outcomes once every item was passed that comes next and has no kind.
pub open spec fn passed_unknown(
    items: Seq<(u16, Seq<u8>)>,
    outcomes: Seq<OutcomeModel>,
) -> Seq<OutcomeModel>
    decreases items.len() - outcomes.len(),
{
    if outcomes.len() < items.len() && kind_word(items[outcomes.len() as int].0) is None {
        passed_unknown(
            items,
            outcomes.push(
                OutcomeModel::Failed {
                    message: "unknown object kind: "@ + decimal(
                        items[outcomes.len() as int].0 as nat,
                    ),
                },
            ),
        )
    } else {
        outcomes
    }
}

/// A batch that is being written, item by item.
#[derive(Debug, PartialEq, Eq)]
pub struct BatchRun {
    items: Vec<BatchItem>,
    outcomes: Vec<BatchOutcome>,
}

impl BatchRun {
    pub closed spec fn items(self) -> Seq<(u16, Seq<u8>)> {
        models(self.items@)
    }

    /// The outcomes of the items so far, in order.
    pub closed spec fn outcomes(self) -> Seq<OutcomeModel> {
        models(self.outcomes@)
    }

    pub fn new(items: Vec<BatchItem>) -> (r: Self)
        ensures
            r.items() == models(items@),
            r.outcomes() == Seq::<OutcomeModel>::empty(),
    {
        let outcomes: Vec<BatchOutcome> = Vec::new();
        assert(models(outcomes@) =~= Seq::<OutcomeModel>::empty());
        BatchRun { items, outcomes }
    }

    /// The next item to write: its kind and its data. One that has no kind fails
    /// without being written.
    pub fn next(&mut self) -> (r: Option<(&'static str, Vec<u8>)>)
        ensures
            final(self).items() == old(self).items(),
            final(self).outcomes() == passed_unknown(old(self).items(), old(self).outcomes()),
            match r {
                Some((kind, data)) => {
                    let at = final(self).outcomes().len();
                    &&& at < final(self).items().len()
                    &&& kind_word(final(self).items()[at as int].0) == Some(kind@)
                    &&& data@ == final(self).items()[at as int].1
                },
                None => final(self).outcomes().len() >= final(self).items().len(),
            },
    {
        let ghost start = self.outcomes();
        while self.outcomes.len() < self.items.len()
            invariant
                self.items() == old(self).items(),
                passed_unknown(self.items(), self.outcomes()) == passed_unknown(
                    old(self).items(),
                    old(self).outcomes(),
                ),
            decreases self.items@.len() - self.outcomes@.len(),
        {
            let at: usize = self.outcomes.len();
            assert(self.items()[at as int] == self.items@[at as int]@);
            match batch_item_kind(&self.items[at]) {
                Ok(kind) => {
                    return Some((kind, copied(self.items[at].data.as_slice())));
                },
                Err(outcome) => {
                    let ghost before = self.outcomes();
                    self.outcomes.push(outcome);
                    assert(self.outcomes() =~= before.push(outcome@));
                },
            }
        }
        None
    }

    /// The item at hand was written, or could not be.
    pub fn took(&mut self, written: Result<(Vec<u8>, Vec<u8>), String>)
        ensures
            final(self).items() == old(self).items(),
            final(self).outcomes() == old(self).outcomes().push(
                match written {
                    Ok((id, normalized)) => (OutcomeModel::Written {
                        id: id@,
                        normalized: normalized@,
                    }),
                    Err(message) => (OutcomeModel::Failed { message: message@ }),
                },
            ),
    {
        let ghost before = self.outcomes();
        let outcome = batch_item_outcome(written);
        self.outcomes.push(outcome);
        assert(self.outcomes() =~= before.push(outcome@));
    }

    pub fn finish(self) -> (r: Vec<BatchOutcome>)
        ensures
            models(r@) == self.outcomes(),
    {
        self.outcomes
    }
}

/// Whether the outcomes so far are those of their items.
pub open spec fn accounted(
    items: Seq<(u16, Seq<u8>)>,
    written: Seq<Result<(Seq<u8>, Seq<u8>), Seq<char>>>,
    outcomes: Seq<OutcomeModel>,
) -> bool {
    &&& outcomes.len() <= items.len() == written.len()
    &&& forall|i: int|
        0 <= i < outcomes.len() ==> #[trigger] outcomes[i] == item_outcome(items[i], written[i])
}

/// Every item of a batch gets an outcome, in order, which depends on that item
/// alone: whatever the backend answers to the others, and whether they have a kind.
pub proof fn a_bad_item_fails_alone(
    items: Seq<(u16, Seq<u8>)>,
    written: Seq<Result<(Seq<u8>, Seq<u8>), Seq<char>>>,
    outcomes: Seq<OutcomeModel>,
)
    requires
        accounted(items, written, outcomes),
    ensures
        ({
            let passed = passed_unknown(items, outcomes);
            let at = passed.len() as int;
            &&& accounted(items, written, passed)
            &&& outcomes.len() <= passed.len()
            &&& at < items.len() ==> {
                &&& kind_word(items[at].0) is Some
                &&& accounted(items, written, passed.push(item_outcome(items[at], written[at])))
            }
        }),
    decreases items.len() - outcomes.len(),
{
    if outcomes.len() < items.len() && kind_word(items[outcomes.len() as int].0) is None {
        let at = outcomes.len() as int;
        let more = outcomes.push(item_outcome(items[at], written[at]));
        assert(accounted(items, written, more));
        a_bad_item_fails_alone(items, written, more);
    }
}

// ─── Heads ────────────────────────────────────────────────────────────────────

/// The CAS version a client is publishing against, taken from `If-Match`.
///
/// The header is required: a publish without one is a client that thinks it can
/// overwrite whatever is there, which is the race the CAS exists to stop.
pub open spec fn expected_version_of(header: HeaderText) -> Result<u64, ErrorModel> {
    match header {
        HeaderText::Missing => Err(
            error(428, "POST /api/heads needs an If-Match with the version it read"@),
        ),
        HeaderText::NotText(_) => Err(error(400, "If-Match is not text"@)),
        HeaderText::Text(raw) => match etag_version(raw@) {
            Some(version) => Ok(version),
            None => Err(
                error(400, "If-Match "@ + debug_text(raw@) + " is not a head version"@),
            ),
        },
    }
}

pub fn expected_version_from_if_match(header: HeaderText) -> (r: Result<u64, ApiError>)
    ensures
        match (r, expected_version_of(header)) {
            (Ok(version), Ok(said)) => version == said,
            (Err(e), Err(said)) => e@ == said,
            _ => false,
        },
{
    match header {
        HeaderText::Missing => Err(
            ApiError::new(428, "POST /api/heads needs an If-Match with the version it read"),
        ),
        HeaderText::NotText(_) => Err(ApiError::bad_request("If-Match is not text")),
        HeaderText::Text(raw) => match version_from_etag(raw.as_str()) {
            Some(version) => Ok(version),
            None => {
                let mut s = "If-Match ".to_owned();
                s.append(quoted(raw.as_str()).as_str());
                s.append(" is not a head version");
                Err(ApiError { status: 400, message: s })
            },
        },
    }
}

/// A publish that a request asks for.
#[derive(Debug, PartialEq, Eq)]
pub struct UpdatePlan {
    pub expected_version: u64,
    pub old_ids: Vec<Vec<u8>>,
    pub new_id: Vec<u8>,
    /// The workspace the publish attributes itself to, if it names one.
    pub workspace_id: Option<String>,
}

/// What is wrong with a request to move the heads, if anything, in the order in
/// which it is looked for.
pub open spec fn update_refused(
    if_match: HeaderText,
    permits: Option<Permits>,
    request: UpdateHeadsBody,
) -> Option<ErrorModel> {
    if let Err(e) = expected_version_of(if_match) {
        Some(e)
    } else if permits is None {
        Some(no_authority())
    } else if request.workspace_id@.len() > 0 && !permits->0.workspace {
        Some(error(403, "this token does not speak for workspace "@ + request.workspace_id@))
    } else if let Some(e) = bad_head(models(request.old_ids@), request.old_ids@.len()) {
        Some(not_hex("old operation id"@, e))
    } else if let Err(e) = hex_value(request.new_id@) {
        Some(not_hex("new operation id"@, e))
    } else {
        None
    }
}

/// A publish is let through exactly when it names a version, comes with a token, names no
/// workspace or one that the token speaks for, and all its ids are hex. A workspace that
/// the token does not speak for is a 403, whatever else is wrong with the ids.
pub proof fn a_publish_is_let_through_exactly_when_it_is_whole(
    if_match: HeaderText,
    permits: Option<Permits>,
    request: UpdateHeadsBody,
)
    ensures
        update_refused(if_match, permits, request) is None <==> {
            &&& expected_version_of(if_match) is Ok
            &&& permits matches Some(permits) && (request.workspace_id@.len() == 0
                || permits.workspace)
            &&& forall|i: int|
                0 <= i < request.old_ids@.len() ==> hex_value((#[trigger] request.old_ids@[i])@)
                    is Ok
            &&& hex_value(request.new_id@) is Ok
        },
        expected_version_of(if_match) is Ok && permits == Some(
            Permits { admin: permits->0.admin, workspace: false },
        ) && request.workspace_id@.len() > 0 ==> (update_refused(
            if_match,
            permits,
            request,
        ) matches Some(e) && e.status == 403),
        if_match is Missing ==> (update_refused(if_match, permits, request) matches Some(e)
            && e.status == 428),
        expected_version_of(if_match) is Ok && permits is None ==> (update_refused(
            if_match,
            permits,
            request,
        ) matches Some(e) && e.status == 401),
{
    let old_ids = models(request.old_ids@);
    the_first_unreadable_head_is_reported(old_ids, old_ids.len());
    assert forall|i: int| 0 <= i < old_ids.len() implies hex_value(#[trigger] old_ids[i])
        == hex_value(request.old_ids@[i]@) by {}
    if bad_head(old_ids, old_ids.len()) is None {
        assert forall|i: int| 0 <= i < request.old_ids@.len() implies hex_value(
            (#[trigger] request.old_ids@[i])@,
        ) is Ok by {
            assert(hex_value(old_ids[i]) is Ok);
        }
    }
}

/// Whether some ids are what some texts spell.
pub open spec fn spelled(texts: Seq<Seq<char>>, ids: Seq<Seq<u8>>) -> bool {
    &&& ids.len() == texts.len()
    &&& forall|i: int|
        0 <= i < ids.len() ==> hex_value(texts[i]) == Ok::<Seq<u8>, HexError>(#[trigger] ids[i])
}

fn parse_old_ids(texts: &Vec<String>) -> (r: Result<Vec<Vec<u8>>, ApiError>)
    ensures
        match bad_head(models(texts@), texts@.len()) {
            Some(e) => r matches Err(api) && api@ == not_hex("old operation id"@, e),
            None => r matches Ok(ids) && spelled(models(texts@), models(ids@)),
        },
{
    let ghost all = models(texts@);
    let mut ids: Vec<Vec<u8>> = Vec::new();
    let mut i: usize = 0;
    while i < texts.len()
        invariant
            i <= texts@.len(),
            all == models(texts@),
            bad_head(all, i as nat) is None,
            ids@.len() == i,
            forall|j: int|
                0 <= j < i ==> hex_value(all[j]) == Ok::<Seq<u8>, HexError>(
                    (#[trigger] ids@[j])@,
                ),
        decreases texts@.len() - i,
    {
        assert(all[i as int] == texts@[i as int]@);
        match parse_hex(texts[i].as_str(), "old operation id") {
            Ok(id) => ids.push(id),
            Err(e) => {
                proof {
                    lemma_bad_stays(all, (i + 1) as nat, texts@.len());
                }
                return Err(e);
            },
        }
        i = i + 1;
    }
    proof {
        assert forall|j: int| 0 <= j < models(ids@).len() implies hex_value(all[j]) == Ok::<
            Seq<u8>,
            HexError,
        >(#[trigger] models(ids@)[j]) by {
            assert(models(ids@)[j] == ids@[j]@);
        }
    }
    Ok(ids)
}

/// Read a request to move the heads.
///
/// The workspace a publish attributes itself to has to be the one the token
/// speaks for. A publish that names no workspace attributes nothing, which any
/// token may do: the view-diff check is what actually decides what it is allowed
/// to change.
pub fn plan_update_heads(
    if_match: HeaderText,
    permits: Option<Permits>,
    request: UpdateHeadsBody,
) -> (r: Result<UpdatePlan, ApiError>)
    ensures
        match update_refused(if_match, permits, request) {
            Some(refusal) => r matches Err(e) && e@ == refusal,
            None => r matches Ok(plan) && expected_version_of(if_match) == Ok::<u64, ErrorModel>(
                plan.expected_version,
            ) && spelled(models(request.old_ids@), models(plan.old_ids@)) && hex_value(
                request.new_id@,
            ) == Ok::<Seq<u8>, HexError>(plan.new_id@) && maybe(plan.workspace_id) == (
            if request.workspace_id@.len() == 0 {
                None
            } else {
                Some(request.workspace_id@)
            }),
        },
{
    let expected_version: u64 = match expected_version_from_if_match(if_match) {
        Ok(version) => version,
        Err(e) => return Err(e),
    };
    let permits = match permits {
        Some(permits) => permits,
        None => return Err(unresolved()),
    };
    let named = !is_blank(request.workspace_id.as_str());
    if named && !permits.workspace {
        return Err(not_for(request.workspace_id.as_str()));
    }
    let old_ids = match parse_old_ids(&request.old_ids) {
        Ok(ids) => ids,
        Err(e) => return Err(e),
    };
    let new_id = match parse_hex(request.new_id.as_str(), "new operation id") {
        Ok(id) => id,
        Err(e) => return Err(e),
    };
    let workspace_id = if named {
        Some(request.workspace_id)
    } else {
        None
    };
    Ok(UpdatePlan { expected_version, old_ids, new_id, workspace_id })
}

/// The answer to a request to move the heads: its status and its body.
pub fn update_heads_reply(result: UpdateResult) -> (r: (u16, HeadsBody))
    ensures
        r.0 == (if result.ok {
            200u16
        } else {
            412
        }),
        r.1.version == result.version,
        models(r.1.heads@) == hex_texts(models(result.heads@)),
        r.1.workspace_heads@ == result.workspace_heads@,
{
    let status: u16 = if result.ok {
        200
    } else {
        412
    };
    (
        status,
        HeadsBody {
            version: result.version,
            heads: to_hex_all(&result.heads),
            workspace_heads: result.workspace_heads,
        },
    )
}

/// The body of `GET /api/heads`.
pub fn heads_body(state: HeadsState) -> (body: HeadsBody)
    ensures
        body.version == state.version,
        body.heads@ == state.heads@,
        body.workspace_heads@ == state.workspace_heads@,
{
    HeadsBody {
        version: state.version,
        heads: state.heads,
        workspace_heads: state.workspace_heads,
    }
}

/// What a client asks the server to publish is what the server reads: the ids,
/// the workspace and the version come through as they were sent, and a token
/// that speaks for the workspace is not refused.
pub proof fn a_publish_request_comes_through(
    old_ids: Seq<Seq<u8>>,
    new_id: Seq<u8>,
    version: u64,
    if_match: HeaderText,
    permits: Permits,
    request: UpdateHeadsBody,
    ids: Seq<Seq<u8>>,
)
    requires
        if_match matches HeaderText::Text(raw) && raw@ == "\""@ + decimal(version as nat) + "\""@,
        models(request.old_ids@) == hex_texts(old_ids),
        request.new_id@ == hex_text(new_id),
        request.workspace_id@.len() == 0 || permits.workspace,
    ensures
        expected_version_of(if_match) == Ok::<u64, ErrorModel>(version),
        update_refused(if_match, Some(permits), request) is None,
        hex_value(request.new_id@) == Ok::<Seq<u8>, HexError>(new_id),
        spelled(models(request.old_ids@), ids) ==> ids == old_ids,
{
    etags_read_back(version);
    hex_reads_back(new_id);
    lemma_hex_texts_good(old_ids, old_ids.len());
    if spelled(models(request.old_ids@), ids) {
        assert forall|i: int| 0 <= i < ids.len() implies ids[i] == old_ids[i] by {
            hex_reads_back(old_ids[i]);
            assert(hex_texts(old_ids)[i] == hex_text(old_ids[i]));
        }
        assert(ids =~= old_ids);
    }
}

proof fn lemma_hex_texts_good(ids: Seq<Seq<u8>>, n: nat)
    requires
        n <= ids.len(),
    ensures
        bad_head(hex_texts(ids), n) is None,
    decreases n,
{
    if n > 0 {
        lemma_hex_texts_good(ids, (n - 1) as nat);
        hex_reads_back(ids[n - 1]);
    }
}

/// And the answer comes through as well: the heads a client reads out of it are
/// the heads that the server served.
pub proof fn a_publish_answer_comes_through(heads: Seq<Seq<u8>>, read: Seq<Seq<u8>>)
    requires
        spelled(hex_texts(heads), read),
    ensures
        bad_head(hex_texts(heads), heads.len()) is None,
        read == heads,
{
    lemma_hex_texts_good(heads, heads.len());
    assert forall|i: int| 0 <= i < read.len() implies read[i] == heads[i] by {
        hex_reads_back(heads[i]);
        assert(hex_texts(heads)[i] == hex_text(heads[i]));
    }
    assert(read =~= heads);
}

// ─── Operation prefixes ───────────────────────────────────────────────────────

/// The prefix that a request asks to resolve, or the 400 that refuses it.
pub fn plan_resolve_prefix(prefix: Option<String>) -> (r: Result<String, ApiError>)
    ensures
        match prefix {
            None => r matches Err(e) && e@ == error(
                400,
                "GET /api/ops needs a ?prefix= to resolve"@,
            ),
            Some(text) => if hex_digits_only(text@) {
                r matches Ok(p) && p@ == text@
            } else {
                r matches Err(e) && e@ == error(400, "prefix must be hex"@)
            },
        },
{
    match prefix {
        None => Err(ApiError::bad_request("GET /api/ops needs a ?prefix= to resolve")),
        Some(prefix) => {
            if !all_hex_digits(prefix.as_str()) {
                return Err(ApiError::bad_request("prefix must be hex"));
            }
            Ok(prefix)
        },
    }
}

/// The body that answers it.
pub fn prefix_body(resolution: String, matched: Option<Vec<u8>>) -> (body: PrefixBody)
    ensures
        body.resolution@ == resolution@,
        maybe(body.id) == (match bytes_view(matched) {
            Some(id) => Some(hex_text(id)),
            None => None,
        }),
{
    let id = match matched {
        Some(id) => Some(to_hex(id.as_slice())),
        None => None,
    };
    PrefixBody { resolution, id }
}

// ─── Tokens and the writer role ───────────────────────────────────────────────

/// What `POST /api/tokens` asks for: the workspace the token is for, and how
/// many seconds it is to last, where that is said. Only the admin token may ask.
pub fn plan_mint_token(permits: Option<Permits>, request: MintTokenBody) -> (r: Result<
    (String, Option<u64>),
    ApiError,
>)
    ensures
        match permits {
            None => r matches Err(e) && e@ == no_authority(),
            Some(permits) => if !permits.admin {
                r matches Err(e) && e@ == error(403, "only the admin token may mint tokens"@)
            } else if trimmed(request.workspace_id@, CharClass::White).len() == 0 {
                r matches Err(e) && e@ == error(
                    400,
                    "POST /api/tokens needs the workspaceId the token is for"@,
                )
            } else {
                r matches Ok((workspace, ttl)) && workspace@ == trimmed(
                    request.workspace_id@,
                    CharClass::White,
                ) && ttl == request.ttl_seconds
            },
        },
{
    let permits = match permits {
        Some(permits) => permits,
        None => return Err(unresolved()),
    };
    if !permits.admin {
        return Err(ApiError::new(403, "only the admin token may mint tokens"));
    }
    let workspace_id = trim(request.workspace_id.as_str(), CharClass::White);
    if is_blank(workspace_id.as_str()) {
        return Err(
            ApiError::bad_request("POST /api/tokens needs the workspaceId the token is for"),
        );
    }
    Ok((workspace_id, request.ttl_seconds))
}

/// The body that hands a minted token over. The time it lasts is given in
/// nanoseconds and sent in whole seconds.
pub fn token_body(token: String, workspace_id: String, ttl: u128) -> (body: TokenBody)
    requires
        ttl <= MAX_SPAN,
    ensures
        body.token@ == token@,
        body.workspace_id@ == workspace_id@,
        body.ttl_seconds == ttl / 1_000_000_000,
{
    TokenBody { token, workspace_id, ttl_seconds: whole_seconds(ttl) }
}

fn whole_seconds(span: u128) -> (n: u64)
    requires
        span <= MAX_SPAN,
    ensures
        n == span / 1_000_000_000,
{
    let seconds: u128 = span / 1_000_000_000;
    assert(seconds <= 18_446_744_073_709_551_615);
    seconds as u64
}

/// What a writer-role claim asks for: who is asking, and for how long, in
/// nanoseconds.
pub fn plan_claim_writer(
    permits: Option<Permits>,
    workspace_id: &str,
    request: ClaimWriterBody,
) -> (r: Result<(String, u128), ApiError>)
    ensures
        match permits {
            None => r matches Err(e) && e@ == no_authority(),
            Some(permits) => if !permits.workspace {
                r matches Err(e) && e@ == error(
                    403,
                    "this token does not speak for workspace "@ + workspace_id@,
                )
            } else if trimmed(request.holder@, CharClass::White).len() == 0 {
                r matches Err(e) && e@ == error(
                    400,
                    "a writer-role claim needs a holder to name who is asking"@,
                )
            } else {
                r matches Ok((holder, ttl)) && holder@ == trimmed(
                    request.holder@,
                    CharClass::White,
                ) && ttl == (match request.ttl_seconds {
                    Some(seconds) => seconds * 1_000_000_000,
                    None => DEFAULT_WRITER_TTL as int,
                })
            },
        },
        r matches Ok((_, ttl)) ==> request.ttl_seconds is None ==> ttl == 30_000_000_000,
{
    let permits = match permits {
        Some(permits) => permits,
        None => return Err(unresolved()),
    };
    if !permits.workspace {
        return Err(not_for(workspace_id));
    }
    let holder = trim(request.holder.as_str(), CharClass::White);
    if is_blank(holder.as_str()) {
        return Err(
            ApiError::bad_request("a writer-role claim needs a holder to name who is asking"),
        );
    }
    let ttl: u128 = match request.ttl_seconds {
        Some(seconds) => seconds as u128 * 1_000_000_000,
        None => DEFAULT_WRITER_TTL,
    };
    Ok((holder, ttl))
}

/// The answer to a writer-role claim. A claim by the holder that already has it
/// is a renewal and always answers 200. A claim by anybody else while the current
/// one still stands is a 409, carrying who holds it and for how much longer.
pub fn claim_writer_reply(claimed: Result<WriterRole, WriterConflict>) -> (r: Result<
    WriterRoleBody,
    ApiError,
>)
    requires
        claimed matches Ok(role) ==> role.expires_in <= MAX_SPAN,
    ensures
        match claimed {
            Ok(role) => r matches Ok(body) && body.workspace_id@ == role.workspace_id@
                && body.holder@ == role.holder@ && body.expires_in_seconds == role.expires_in
                / 1_000_000_000,
            Err(conflict) => r matches Err(e) && e@ == error(409, conflict.text()),
        },
{
    match claimed {
        Ok(role) => Ok(
            WriterRoleBody {
                workspace_id: role.workspace_id,
                holder: role.holder,
                expires_in_seconds: whole_seconds(role.expires_in),
            },
        ),
        Err(conflict) => Err(ApiError { status: 409, message: conflict.message() }),
    }
}

} // verus!
