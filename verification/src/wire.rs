//! The HTTP wire format.
//!
//! Three shapes cross the wire. Object, operation and view payloads ride as they
//! are. Control-plane structs are JSON with hex-encoded ids; here they are plain
//! values. The object batch is a length-prefixed binary frame, because it carries
//! many opaque blobs.
//!
//! A frame is modelled by the records it holds, and the encoders and decoders
//! are stated against one grammar: `decode(encode(x)) == x`, and a request that
//! the decoder accepts is exactly what the encoder writes for it. Every length
//! is held against the bytes that are really there before anything is copied.
use vstd::prelude::*;
use vstd::string::*;
use vstd::utf8::*;

use crate::order::{copied, TextMap};
use crate::text::{decimal, maybe_text, models, push_decimal, same_text};

verus! {

// ─── Object kinds ─────────────────────────────────────────────────────────────

pub const KIND_COMMIT: u16 = 0;

pub const KIND_TREE: u16 = 1;

pub const KIND_FILE: u16 = 2;

pub const KIND_SYMLINK: u16 = 3;

pub const KIND_COPY: u16 = 4;

/// The word for an object kind.
pub open spec fn kind_word(kind: u16) -> Option<Seq<char>> {
    if kind == KIND_COMMIT {
        Some("commit"@)
    } else if kind == KIND_TREE {
        Some("tree"@)
    } else if kind == KIND_FILE {
        Some("file"@)
    } else if kind == KIND_SYMLINK {
        Some("symlink"@)
    } else if kind == KIND_COPY {
        Some("copy"@)
    } else {
        None
    }
}

/// The kind that a word names.
pub open spec fn word_kind(word: Seq<char>) -> Option<u16> {
    if word == "commit"@ {
        Some(KIND_COMMIT)
    } else if word == "tree"@ {
        Some(KIND_TREE)
    } else if word == "file"@ {
        Some(KIND_FILE)
    } else if word == "symlink"@ {
        Some(KIND_SYMLINK)
    } else if word == "copy"@ {
        Some(KIND_COPY)
    } else {
        None
    }
}

/// The path segment that names an object kind in `/api/objects/{kind}/{id}`.
pub fn kind_name(kind: u16) -> (r: Option<&'static str>)
    ensures
        maybe_text(r) == kind_word(kind),
{
    if kind == KIND_COMMIT {
        Some("commit")
    } else if kind == KIND_TREE {
        Some("tree")
    } else if kind == KIND_FILE {
        Some("file")
    } else if kind == KIND_SYMLINK {
        Some("symlink")
    } else if kind == KIND_COPY {
        Some("copy")
    } else {
        None
    }
}

/// The kind that a path segment names.
pub fn kind_from_name(name: &str) -> (r: Option<u16>)
    ensures
        r == word_kind(name@),
{
    if same_text(name, "commit") {
        Some(KIND_COMMIT)
    } else if same_text(name, "tree") {
        Some(KIND_TREE)
    } else if same_text(name, "file") {
        Some(KIND_FILE)
    } else if same_text(name, "symlink") {
        Some(KIND_SYMLINK)
    } else if same_text(name, "copy") {
        Some(KIND_COPY)
    } else {
        None
    }
}

/// The same segment back, once it has been proven to name a kind.
pub fn canonical_kind_name(name: &str) -> (r: Option<&'static str>)
    ensures
        maybe_text(r) == (if word_kind(name@) is Some {
            Some(name@)
        } else {
            None
        }),
{
    match kind_from_name(name) {
        Some(kind) => {
            proof {
                kind_words_round_trip(kind, name@);
            }
            kind_name(kind)
        },
        None => None,
    }
}

/// A kind has one word and a word names one kind: naming a kind and reading the
/// word gives the kind, and the other way about.
pub proof fn kind_words_round_trip(kind: u16, word: Seq<char>)
    ensures
        kind_word(kind) is Some ==> word_kind(kind_word(kind)->0) == Some(kind),
        word_kind(word) is Some ==> kind_word(word_kind(word)->0) == Some(word),
        kind_word(kind) is Some <==> kind < 5,
{
    reveal_strlit("commit");
    reveal_strlit("tree");
    reveal_strlit("file");
    reveal_strlit("symlink");
    reveal_strlit("copy");
    assert("commit"@.len() == 6 && "symlink"@.len() == 7);
    assert("tree"@.len() == 4 && "file"@.len() == 4 && "copy"@.len() == 4);
    assert("tree"@[0] == 't' && "file"@[0] == 'f' && "copy"@[0] == 'c');
}

/// Which word names which kind, for every kind and every word.
pub proof fn the_words_of_the_kinds(kind: u16, word: Seq<char>)
    ensures
        kind_word(kind) == Some(word) <==> (kind == 0 && word == "commit"@) || (kind == 1 && word
            == "tree"@) || (kind == 2 && word == "file"@) || (kind == 3 && word == "symlink"@) || (
        kind == 4 && word == "copy"@),
        word_kind(word) == Some(kind) <==> kind_word(kind) == Some(word),
{
    kind_words_round_trip(kind, word);
}

// ─── The compatibility handshake ──────────────────────────────────────────────

pub const PROTOCOL_MAJOR: u16 = 0;

pub const PROTOCOL_MINOR: u16 = 1;

pub const BACKEND_NAME: &'static str = "tandem";

pub const OP_STORE_NAME: &'static str = "tandem_op_store";

/// An optional feature a server advertises in `/api/info`.
#[derive(Debug, Clone, Copy, PartialEq, Eq, PartialOrd, Ord, Structural)]
pub enum RepoCapability {
    WatchHeads,
    HeadsSnapshot,
    CopyTracking,
}

impl RepoCapability {
    pub open spec fn word(self) -> Seq<char> {
        match self {
            RepoCapability::WatchHeads => "watchHeads"@,
            RepoCapability::HeadsSnapshot => "headsSnapshot"@,
            RepoCapability::CopyTracking => "copyTracking"@,
        }
    }

    pub open spec fn named(word: Seq<char>) -> Option<RepoCapability> {
        if word == "watchHeads"@ {
            Some(RepoCapability::WatchHeads)
        } else if word == "headsSnapshot"@ {
            Some(RepoCapability::HeadsSnapshot)
        } else if word == "copyTracking"@ {
            Some(RepoCapability::CopyTracking)
        } else {
            None
        }
    }

    pub fn as_str(self) -> (s: &'static str)
        ensures
            s@ == self.word(),
    {
        match self {
            RepoCapability::WatchHeads => "watchHeads",
            RepoCapability::HeadsSnapshot => "headsSnapshot",
            RepoCapability::CopyTracking => "copyTracking",
        }
    }

    pub fn from_name(name: &str) -> (r: Option<RepoCapability>)
        ensures
            r == RepoCapability::named(name@),
    {
        if same_text(name, "watchHeads") {
            Some(RepoCapability::WatchHeads)
        } else if same_text(name, "headsSnapshot") {
            Some(RepoCapability::HeadsSnapshot)
        } else if same_text(name, "copyTracking") {
            Some(RepoCapability::CopyTracking)
        } else {
            None
        }
    }
}

/// A capability's name reads back as the capability, and nothing else does.
pub proof fn capability_names_read_back(capability: RepoCapability, word: Seq<char>)
    ensures
        RepoCapability::named(capability.word()) == Some(capability),
        RepoCapability::named(word) == Some(capability) ==> word == capability.word(),
{
    reveal_strlit("watchHeads");
    reveal_strlit("headsSnapshot");
    reveal_strlit("copyTracking");
    assert("watchHeads"@.len() == 10 && "headsSnapshot"@.len() == 13 && "copyTracking"@.len() == 12);
}

/// Which name stands for which capability, for every name.
pub proof fn the_names_of_the_capabilities(word: Seq<char>)
    ensures
        RepoCapability::named(word) == Some(RepoCapability::WatchHeads) <==> word == "watchHeads"@,
        RepoCapability::named(word) == Some(RepoCapability::HeadsSnapshot) <==> word
            == "headsSnapshot"@,
        RepoCapability::named(word) == Some(RepoCapability::CopyTracking) <==> word
            == "copyTracking"@,
{
    capability_names_read_back(RepoCapability::WatchHeads, word);
    capability_names_read_back(RepoCapability::HeadsSnapshot, word);
    capability_names_read_back(RepoCapability::CopyTracking, word);
}

// ─── Headers and media types ──────────────────────────────────────────────────

pub const CONTENT_TYPE_OCTETS: &'static str = "application/octet-stream";

pub const CONTENT_TYPE_BATCH: &'static str = "application/vnd.tandem.batch";

/// Content-addressed responses never change, so they are cacheable forever.
pub const IMMUTABLE_CACHE_CONTROL: &'static str = "public, max-age=31536000, immutable";

/// The id a write produced. A write answers with the normalized bytes in the
/// body, so the id it hashed to travels in a header next to them.
pub const HEADER_OBJECT_ID: &'static str = "tandem-object-id";

pub const HEADER_OPERATION_ID: &'static str = "tandem-operation-id";

pub const HEADER_VIEW_ID: &'static str = "tandem-view-id";

// ─── Control-plane structs ────────────────────────────────────────────────────

#[derive(Debug, Clone, PartialEq, Eq)]
pub struct RepoInfoBody {
    pub protocol_major: u16,
    pub protocol_minor: u16,
    pub tandem_version: String,
    pub backend_name: String,
    pub op_store_name: String,
    pub commit_id_length: u32,
    pub change_id_length: u32,
    /// Hex-encoded.
    pub root_commit_id: String,
    pub root_change_id: String,
    pub empty_tree_id: String,
    pub root_operation_id: String,
    pub capabilities: Vec<String>,
}

#[derive(Debug, Clone, PartialEq, Eq)]
pub struct HeadsBody {
    pub version: u64,
    /// Hex-encoded operation ids.
    pub heads: Vec<String>,
    /// Workspace name to hex-encoded operation id.
    pub workspace_heads: TextMap<String>,
}

#[derive(Debug, Clone, PartialEq, Eq)]
pub struct UpdateHeadsBody {
    /// Hex-encoded operation ids this update replaces.
    pub old_ids: Vec<String>,
    /// Hex-encoded operation id this update publishes.
    pub new_id: String,
    /// The workspace the publishing client speaks for, if it named one.
    pub workspace_id: String,
}

#[derive(Debug, Clone, PartialEq, Eq)]
pub struct PrefixBody {
    /// `noMatch`, `singleMatch` or `ambiguous`.
    pub resolution: String,
    /// Hex-encoded, present only for `singleMatch`.
    pub id: Option<String>,
}

#[derive(Debug, Clone, PartialEq, Eq)]
pub struct ErrorBody {
    pub error: String,
}

/// One wake-up on `/api/events`.
///
/// The version is a hint about how far the server has moved, not the head data:
/// a watcher reads `/api/heads` to learn the head set. Wake-ups may coalesce, so
/// a watcher must be able to skip versions it never saw.
#[derive(Debug, Clone, PartialEq, Eq)]
pub struct HeadsEventBody {
    pub version: u64,
}

/// A request for a workspace-scoped token.
#[derive(Debug, Clone, PartialEq, Eq)]
pub struct MintTokenBody {
    pub workspace_id: String,
    pub ttl_seconds: Option<u64>,
}

#[derive(Debug, Clone, PartialEq, Eq)]
pub struct TokenBody {
    pub token: String,
    pub workspace_id: String,
    pub ttl_seconds: u64,
}

/// A claim on the writer role of a workspace.
#[derive(Debug, Clone, PartialEq, Eq)]
pub struct ClaimWriterBody {
    pub holder: String,
    pub ttl_seconds: Option<u64>,
}

#[derive(Debug, Clone, PartialEq, Eq)]
pub struct WriterRoleBody {
    pub workspace_id: String,
    pub holder: String,
    pub expires_in_seconds: u64,
}

/// One object of a prepared publish.
#[derive(Debug, Clone, PartialEq, Eq)]
pub struct PreparedObject {
    pub kind: u16,
    pub id: Vec<u8>,
    pub data: Vec<u8>,
}

/// Everything one publish needs, prepared before it is sent.
#[derive(Debug, Clone, PartialEq, Eq)]
pub struct PreparedPublish {
    pub objects: Vec<PreparedObject>,
    pub view: Vec<u8>,
    pub operation: Vec<u8>,
    pub heads: UpdateHeadsBody,
}

// ─── The object batch frame ───────────────────────────────────────────────────

/// `TBQ1`.
pub open spec fn request_magic() -> Seq<u8> {
    seq![84u8, 66u8, 81u8, 49u8]
}

/// `TBS1`.
pub open spec fn response_magic() -> Seq<u8> {
    seq![84u8, 66u8, 83u8, 49u8]
}

/// A cap on how many records one frame may claim, checked before any per-record
/// allocation, so that a count field cannot make the decoder reserve memory for
/// records the frame is far too short to contain.
pub const MAX_RECORDS: usize = 1048576;

#[derive(Debug, Clone, PartialEq, Eq)]
pub struct BatchItem {
    pub kind: u16,
    pub data: Vec<u8>,
}

impl View for BatchItem {
    type V = (u16, Seq<u8>);

    open spec fn view(&self) -> (u16, Seq<u8>) {
        (self.kind, self.data@)
    }
}

/// What writing one batch item produced. A failure is per-item: one bad blob
/// does not fail the blobs next to it in the same frame.
#[derive(Debug, Clone, PartialEq, Eq)]
pub enum BatchOutcome {
    Written { id: Vec<u8>, normalized: Vec<u8> },
    Failed { message: String },
}

/// An outcome, as a mathematical value.
pub enum OutcomeModel {
    Written { id: Seq<u8>, normalized: Seq<u8> },
    Failed { message: Seq<char> },
}

impl View for BatchOutcome {
    type V = OutcomeModel;

    open spec fn view(&self) -> OutcomeModel {
        match self {
            BatchOutcome::Written { id, normalized } => OutcomeModel::Written {
                id: id@,
                normalized: normalized@,
            },
            BatchOutcome::Failed { message } => OutcomeModel::Failed { message: message@ },
        }
    }
}

#[derive(Debug, Clone, PartialEq, Eq)]
pub struct WireError(pub String);

impl WireError {
    /// The sentence that names the error.
    pub fn message(&self) -> (s: &str)
        ensures
            s@ == self.0@,
    {
        self.0.as_str()
    }
}

fn err(message: &str) -> (e: WireError)
    ensures
        e.0@ == message@,
{
    WireError(message.to_owned())
}

// ─── Numbers ──────────────────────────────────────────────────────────────────

/// The low 32 bits of `n`, least significant byte first.
pub open spec fn le32(n: nat) -> Seq<u8> {
    seq![
        (n % 256) as u8,
        (n / 256 % 256) as u8,
        (n / 256 / 256 % 256) as u8,
        (n / 256 / 256 / 256 % 256) as u8,
    ]
}

pub open spec fn le32_value(s: Seq<u8>) -> nat {
    (s[0] as nat + 256 * (s[1] as nat + 256 * (s[2] as nat + 256 * (s[3] as nat)))) as nat
}

pub open spec fn le16(n: u16) -> Seq<u8> {
    seq![(n % 256) as u8, (n / 256) as u8]
}

pub open spec fn le16_value(s: Seq<u8>) -> u16 {
    (s[0] as nat + 256 * (s[1] as nat)) as u16
}

proof fn lemma_low_byte(x: nat, y: nat)
    requires
        x < 256,
    ensures
        (x + 256 * y) % 256 == x,
        (x + 256 * y) / 256 == y,
{
}

/// A 32-bit number reads back as it was written.
pub proof fn le32_reads_back(n: nat, s: Seq<u8>)
    ensures
        n <= u32::MAX ==> le32_value(le32(n)) == n,
        s.len() == 4 ==> le32(le32_value(s)) == s && le32_value(s) <= u32::MAX,
{
    if s.len() == 4 {
        let d = s[3] as nat;
        let c = s[2] as nat + 256 * d;
        let b = s[1] as nat + 256 * c;
        lemma_low_byte(s[0] as nat, b);
        lemma_low_byte(s[1] as nat, c);
        lemma_low_byte(s[2] as nat, d);
        lemma_low_byte(s[3] as nat, 0);
        assert(le32(le32_value(s)) =~= s);
    }
    if n <= u32::MAX {
        let b = n / 256;
        let c = b / 256;
        let d = c / 256;
        assert(d < 256);
        assert(n == n % 256 + 256 * b);
        assert(b == b % 256 + 256 * c);
        assert(c == c % 256 + 256 * d);
    }
}

pub proof fn le16_reads_back(n: u16, s: Seq<u8>)
    ensures
        le16_value(le16(n)) == n,
        s.len() == 2 ==> le16(le16_value(s)) == s,
{
    if s.len() == 2 {
        assert(le16(le16_value(s)) =~= s);
    }
}

fn push_le32(out: &mut Vec<u8>, n: usize)
    ensures
        final(out)@ == old(out)@ + le32(n as nat),
{
    out.push((n % 256) as u8);
    out.push((n / 256 % 256) as u8);
    out.push((n / 256 / 256 % 256) as u8);
    out.push((n / 256 / 256 / 256 % 256) as u8);
    assert(out@ =~= old(out)@ + le32(n as nat));
}

// ─── The grammar, as it is written ────────────────────────────────────────────

/// A length-prefixed byte string.
pub open spec fn blob_bytes(b: Seq<u8>) -> Seq<u8> {
    le32(b.len()) + b
}

pub open spec fn item_bytes(item: (u16, Seq<u8>)) -> Seq<u8> {
    le16(item.0) + blob_bytes(item.1)
}

/// A written record carries its id and its normalized bytes; a failed record
/// carries an empty id and the message in the second blob.
pub open spec fn outcome_bytes(outcome: OutcomeModel) -> Seq<u8> {
    match outcome {
        OutcomeModel::Written { id, normalized } => seq![0u8] + blob_bytes(id) + blob_bytes(
            normalized,
        ),
        OutcomeModel::Failed { message } => seq![1u8] + blob_bytes(Seq::empty()) + blob_bytes(
            encode_utf8(message),
        ),
    }
}

pub open spec fn items_bytes(items: Seq<(u16, Seq<u8>)>) -> Seq<u8>
    decreases items.len(),
{
    if items.len() == 0 {
        Seq::empty()
    } else {
        items_bytes(items.drop_last()) + item_bytes(items.last())
    }
}

pub open spec fn outcomes_bytes(outcomes: Seq<OutcomeModel>) -> Seq<u8>
    decreases outcomes.len(),
{
    if outcomes.len() == 0 {
        Seq::empty()
    } else {
        outcomes_bytes(outcomes.drop_last()) + outcome_bytes(outcomes.last())
    }
}

/// `TBQ1 | count:u32 | { kind:u16, len:u32, data }*`
pub open spec fn request_frame(items: Seq<(u16, Seq<u8>)>) -> Seq<u8> {
    request_magic() + le32(items.len()) + items_bytes(items)
}

/// `TBS1 | count:u32 | { status:u8, blob, blob }*`
pub open spec fn response_frame(outcomes: Seq<OutcomeModel>) -> Seq<u8> {
    response_magic() + le32(outcomes.len()) + outcomes_bytes(outcomes)
}

fn push_blob(out: &mut Vec<u8>, bytes: &[u8])
    ensures
        final(out)@ == old(out)@ + blob_bytes(bytes@),
{
    push_le32(out, bytes.len());
    out.extend_from_slice(bytes);
    assert(out@ =~= old(out)@ + blob_bytes(bytes@));
}

/// Write a batch request frame.
pub fn encode_batch_request(items: &[BatchItem]) -> (out: Vec<u8>)
    ensures
        out@ == request_frame(models(items@)),
{
    let mut out: Vec<u8> = Vec::new();
    out.push(84);
    out.push(66);
    out.push(81);
    out.push(49);
    push_le32(&mut out, items.len());
    let ghost all = models(items@);
    assert(out@ =~= request_magic() + le32(all.len()));
    let mut i: usize = 0;
    assert(all.take(0) =~= Seq::<(u16, Seq<u8>)>::empty());
    assert(out@ =~= request_magic() + le32(all.len()) + items_bytes(all.take(0)));
    while i < items.len()
        invariant
            i <= items@.len(),
            all == models(items@),
            out@ == request_magic() + le32(all.len()) + items_bytes(all.take(i as int)),
        decreases items@.len() - i,
    {
        let ghost before = out@;
        let kind: u16 = items[i].kind;
        out.push((kind % 256) as u8);
        out.push((kind / 256) as u8);
        assert(out@ =~= before + le16(kind));
        push_blob(&mut out, items[i].data.as_slice());
        proof {
            let longer = all.take(i + 1);
            assert(longer.drop_last() =~= all.take(i as int));
            assert(longer.last() == items@[i as int]@);
            assert(out@ =~= before + item_bytes(items@[i as int]@));
            assert(out@ =~= request_magic() + le32(all.len()) + items_bytes(longer));
        }
        i = i + 1;
    }
    assert(all.take(i as int) =~= all);
    out
}

/// Write a batch response frame.
pub fn encode_batch_response(outcomes: &[BatchOutcome]) -> (out: Vec<u8>)
    ensures
        out@ == response_frame(models(outcomes@)),
{
    let mut out: Vec<u8> = Vec::new();
    out.push(84);
    out.push(66);
    out.push(83);
    out.push(49);
    push_le32(&mut out, outcomes.len());
    let ghost all = models(outcomes@);
    assert(out@ =~= response_magic() + le32(all.len()));
    let mut i: usize = 0;
    assert(all.take(0) =~= Seq::<OutcomeModel>::empty());
    assert(out@ =~= response_magic() + le32(all.len()) + outcomes_bytes(all.take(0)));
    while i < outcomes.len()
        invariant
            i <= outcomes@.len(),
            all == models(outcomes@),
            out@ == response_magic() + le32(all.len()) + outcomes_bytes(all.take(i as int)),
        decreases outcomes@.len() - i,
    {
        let ghost before = out@;
        match &outcomes[i] {
            BatchOutcome::Written { id, normalized } => {
                out.push(0);
                push_blob(&mut out, id.as_slice());
                push_blob(&mut out, normalized.as_slice());
                assert(out@ =~= before + outcome_bytes(outcomes@[i as int]@));
            },
            BatchOutcome::Failed { message } => {
                out.push(1);
                let nothing: Vec<u8> = Vec::new();
                push_blob(&mut out, nothing.as_slice());
                push_blob(&mut out, message.as_str().as_bytes());
                assert(out@ =~= before + outcome_bytes(outcomes@[i as int]@));
            },
        }
        proof {
            let longer = all.take(i + 1);
            assert(longer.drop_last() =~= all.take(i as int));
            assert(longer.last() == outcomes@[i as int]@);
            assert(out@ =~= response_magic() + le32(all.len()) + outcomes_bytes(longer));
        }
        i = i + 1;
    }
    assert(all.take(i as int) =~= all);
    out
}

/// Numbers are written with their least significant byte first.
pub proof fn low_bytes_come_first(n: nat, k: u16)
    ensures
        le32(n).len() == 4,
        n <= u32::MAX ==> n == le32(n)[0] + 0x100 * le32(n)[1] + 0x1_0000 * le32(n)[2] + 0x100_0000
            * le32(n)[3],
        le16(k).len() == 2,
        k == le16(k)[0] + 0x100 * le16(k)[1],
{
    le32_reads_back(n, le32(n));
    le16_reads_back(k, le16(k));
}

/// An item is its kind in two bytes, the length of its data in four, and its data.
pub proof fn an_item_is_kind_length_and_data(item: (u16, Seq<u8>))
    requires
        item.1.len() <= u32::MAX,
    ensures
        ({
            let s = item_bytes(item);
            &&& s.len() == 6 + item.1.len()
            &&& s[0] + 0x100 * s[1] == item.0
            &&& s[2] + 0x100 * s[3] + 0x1_0000 * s[4] + 0x100_0000 * s[5] == item.1.len()
            &&& s.skip(6) == item.1
        }),
{
    low_bytes_come_first(item.1.len(), item.0);
    assert(item_bytes(item).skip(6) =~= item.1);
}

/// An outcome is a status and two byte strings with their lengths: zero, the id and the
/// normalized bytes of what was written, or one, nothing, and the message of what failed.
pub proof fn an_outcome_is_status_and_two_strings(outcome: OutcomeModel)
    ensures
        match outcome {
            OutcomeModel::Written { id, normalized } => {
                let s = outcome_bytes(outcome);
                let n = id.len() as int;
                &&& s.len() == 9 + id.len() + normalized.len()
                &&& s[0] == 0
                &&& s.subrange(1, 5) == le32(id.len())
                &&& s.subrange(5, 5 + n) == id
                &&& s.subrange(5 + n, 9 + n) == le32(normalized.len())
                &&& s.skip(9 + n) == normalized
            },
            OutcomeModel::Failed { message } => {
                let s = outcome_bytes(outcome);
                &&& s.len() == 9 + encode_utf8(message).len()
                &&& s[0] == 1
                &&& s.subrange(1, 5) == le32(0)
                &&& s.subrange(5, 9) == le32(encode_utf8(message).len())
                &&& s.skip(9) == encode_utf8(message)
            },
        },
{
    let s = outcome_bytes(outcome);
    match outcome {
        OutcomeModel::Written { id, normalized } => {
            let n = id.len() as int;
            assert(s.subrange(1, 5) =~= le32(id.len()));
            assert(s.subrange(5, 5 + n) =~= id);
            assert(s.subrange(5 + n, 9 + n) =~= le32(normalized.len()));
            assert(s.skip(9 + n) =~= normalized);
        },
        OutcomeModel::Failed { message } => {
            assert(s.subrange(1, 5) =~= le32(0));
            assert(s.subrange(5, 9) =~= le32(encode_utf8(message).len()));
            assert(s.skip(9) =~= encode_utf8(message));
        },
    }
}

/// A frame is four letters, how many records there are, and the records one behind the
/// other in their order: those of two lists are those of the first and then those of the
/// second.
pub proof fn a_frame_is_letters_count_and_records(
    items: Seq<(u16, Seq<u8>)>,
    more: Seq<(u16, Seq<u8>)>,
    outcomes: Seq<OutcomeModel>,
    others: Seq<OutcomeModel>,
)
    ensures
        request_frame(items).take(4) == seq!['T' as u8, 'B' as u8, 'Q' as u8, '1' as u8],
        request_frame(items).subrange(4, 8) == le32(items.len()),
        request_frame(items).skip(8) == items_bytes(items),
        items_bytes(items + more) == items_bytes(items) + items_bytes(more),
        items.len() == 1 ==> items_bytes(items) == item_bytes(items[0]),
        response_frame(outcomes).take(4) == seq!['T' as u8, 'B' as u8, 'S' as u8, '1' as u8],
        response_frame(outcomes).subrange(4, 8) == le32(outcomes.len()),
        response_frame(outcomes).skip(8) == outcomes_bytes(outcomes),
        outcomes_bytes(outcomes + others) == outcomes_bytes(outcomes) + outcomes_bytes(others),
        outcomes.len() == 1 ==> outcomes_bytes(outcomes) == outcome_bytes(outcomes[0]),
{
    assert(request_frame(items).take(4) =~= seq!['T' as u8, 'B' as u8, 'Q' as u8, '1' as u8]);
    assert(request_frame(items).subrange(4, 8) =~= le32(items.len()));
    assert(request_frame(items).skip(8) =~= items_bytes(items));
    assert(response_frame(outcomes).take(4) =~= seq!['T' as u8, 'B' as u8, 'S' as u8, '1' as u8]);
    assert(response_frame(outcomes).subrange(4, 8) =~= le32(outcomes.len()));
    assert(response_frame(outcomes).skip(8) =~= outcomes_bytes(outcomes));
    lemma_items_behind(items, more);
    lemma_outcomes_behind(outcomes, others);
    if items.len() == 1 {
        assert(items_bytes(items.drop_last()) =~= Seq::<u8>::empty());
        assert(items_bytes(items) =~= item_bytes(items[0]));
    }
    if outcomes.len() == 1 {
        assert(outcomes_bytes(outcomes.drop_last()) =~= Seq::<u8>::empty());
        assert(outcomes_bytes(outcomes) =~= outcome_bytes(outcomes[0]));
    }
}

proof fn lemma_items_behind(items: Seq<(u16, Seq<u8>)>, more: Seq<(u16, Seq<u8>)>)
    ensures
        items_bytes(items + more) == items_bytes(items) + items_bytes(more),
    decreases more.len(),
{
    if more.len() == 0 {
        assert(items + more =~= items);
        assert(items_bytes(items) + items_bytes(more) =~= items_bytes(items));
    } else {
        lemma_items_behind(items, more.drop_last());
        assert((items + more).drop_last() =~= items + more.drop_last());
        assert(items_bytes(items + more) =~= items_bytes(items) + items_bytes(more));
    }
}

proof fn lemma_outcomes_behind(outcomes: Seq<OutcomeModel>, others: Seq<OutcomeModel>)
    ensures
        outcomes_bytes(outcomes + others) == outcomes_bytes(outcomes) + outcomes_bytes(others),
    decreases others.len(),
{
    if others.len() == 0 {
        assert(outcomes + others =~= outcomes);
        assert(outcomes_bytes(outcomes) + outcomes_bytes(others) =~= outcomes_bytes(outcomes));
    } else {
        lemma_outcomes_behind(outcomes, others.drop_last());
        assert((outcomes + others).drop_last() =~= outcomes + others.drop_last());
        assert(outcomes_bytes(outcomes + others) =~= outcomes_bytes(outcomes) + outcomes_bytes(
            others,
        ));
    }
}

// ─── The grammar, as it is read ───────────────────────────────────────────────

pub open spec fn truncated_text(wanted: nat, left: nat) -> Seq<char> {
    "truncated frame: wanted "@ + decimal(wanted) + " bytes, "@ + decimal(left) + " left"@
}

/// The next `len` bytes from `pos`, and the position behind them.
pub open spec fn take_at(s: Seq<u8>, pos: int, len: nat) -> Result<(Seq<u8>, int), Seq<char>> {
    if len > s.len() - pos {
        Err(truncated_text(len, (s.len() - pos) as nat))
    } else {
        Ok((s.subrange(pos, pos + len), pos + len))
    }
}

pub open spec fn u8_at(s: Seq<u8>, pos: int) -> Result<(u8, int), Seq<char>> {
    match take_at(s, pos, 1) {
        Ok((raw, p)) => Ok((raw[0], p)),
        Err(e) => Err(e),
    }
}

pub open spec fn u16_at(s: Seq<u8>, pos: int) -> Result<(u16, int), Seq<char>> {
    match take_at(s, pos, 2) {
        Ok((raw, p)) => Ok((le16_value(raw), p)),
        Err(e) => Err(e),
    }
}

pub open spec fn u32_at(s: Seq<u8>, pos: int) -> Result<(nat, int), Seq<char>> {
    match take_at(s, pos, 4) {
        Ok((raw, p)) => Ok((le32_value(raw), p)),
        Err(e) => Err(e),
    }
}

pub open spec fn blob_at(s: Seq<u8>, pos: int) -> Result<(Seq<u8>, int), Seq<char>> {
    match u32_at(s, pos) {
        Ok((len, p)) => take_at(s, p, len),
        Err(e) => Err(e),
    }
}

/// The record count: no more than the cap, and no more than the rest of the
/// frame could hold at `min` bytes a record.
pub open spec fn count_at(s: Seq<u8>, pos: int, min: nat) -> Result<(nat, int), Seq<char>> {
    match u32_at(s, pos) {
        Ok((count, p)) => if count > MAX_RECORDS {
            Err("frame claims "@ + decimal(count) + " records; too many"@)
        } else if count * min > s.len() - p {
            Err(
                "frame claims "@ + decimal(count) + " records but holds only "@ + decimal(
                    (s.len() - p) as nat,
                ) + " bytes"@,
            )
        } else {
            Ok((count, p))
        },
        Err(e) => Err(e),
    }
}

pub open spec fn item_at(s: Seq<u8>, pos: int) -> Result<((u16, Seq<u8>), int), Seq<char>> {
    match u16_at(s, pos) {
        Ok((kind, p)) => match blob_at(s, p) {
            Ok((data, q)) => Ok(((kind, data), q)),
            Err(e) => Err(e),
        },
        Err(e) => Err(e),
    }
}

pub open spec fn outcome_at(s: Seq<u8>, pos: int) -> Result<(OutcomeModel, int), Seq<char>> {
    match u8_at(s, pos) {
        Ok((status, p)) => match blob_at(s, p) {
            Ok((id, q)) => match blob_at(s, q) {
                Ok((payload, end)) => if status == 0 {
                    Ok((OutcomeModel::Written { id, normalized: payload }, end))
                } else if status == 1 {
                    if valid_utf8(payload) {
                        Ok((OutcomeModel::Failed { message: decode_utf8(payload) }, end))
                    } else {
                        Err("batch failure message is not valid UTF-8"@)
                    }
                } else {
                    Err("unknown batch record status "@ + decimal(status as nat))
                },
                Err(e) => Err(e),
            },
            Err(e) => Err(e),
        },
        Err(e) => Err(e),
    }
}

/// `n` records, one behind the other.
pub open spec fn items_at(s: Seq<u8>, pos: int, n: nat) -> Result<
    (Seq<(u16, Seq<u8>)>, int),
    Seq<char>,
>
    decreases n,
{
    if n == 0 {
        Ok((Seq::empty(), pos))
    } else {
        match items_at(s, pos, (n - 1) as nat) {
            Ok((items, p)) => match item_at(s, p) {
                Ok((item, q)) => Ok((items.push(item), q)),
                Err(e) => Err(e),
            },
            Err(e) => Err(e),
        }
    }
}

pub open spec fn outcomes_at(s: Seq<u8>, pos: int, n: nat) -> Result<
    (Seq<OutcomeModel>, int),
    Seq<char>,
>
    decreases n,
{
    if n == 0 {
        Ok((Seq::empty(), pos))
    } else {
        match outcomes_at(s, pos, (n - 1) as nat) {
            Ok((outcomes, p)) => match outcome_at(s, p) {
                Ok((outcome, q)) => Ok((outcomes.push(outcome), q)),
                Err(e) => Err(e),
            },
            Err(e) => Err(e),
        }
    }
}

/// Nothing may follow the last record.
pub open spec fn finish_at(s: Seq<u8>, pos: int) -> Result<(), Seq<char>> {
    if s.len() - pos != 0 {
        Err(decimal((s.len() - pos) as nat) + " trailing bytes in frame"@)
    } else {
        Ok(())
    }
}

/// What a batch request frame holds, or why it is none.
pub open spec fn request_read(s: Seq<u8>) -> Result<Seq<(u16, Seq<u8>)>, Seq<char>> {
    match take_at(s, 0, 4) {
        Ok((magic, p)) => if magic != request_magic() {
            Err("not a tandem batch request frame"@)
        } else {
            match count_at(s, p, 6) {
                Ok((count, q)) => match items_at(s, q, count) {
                    Ok((items, end)) => match finish_at(s, end) {
                        Ok(()) => Ok(items),
                        Err(e) => Err(e),
                    },
                    Err(e) => Err(e),
                },
                Err(e) => Err(e),
            }
        },
        Err(e) => Err(e),
    }
}

/// What a batch response frame holds, or why it is none.
pub open spec fn response_read(s: Seq<u8>) -> Result<Seq<OutcomeModel>, Seq<char>> {
    match take_at(s, 0, 4) {
        Ok((magic, p)) => if magic != response_magic() {
            Err("not a tandem batch response frame"@)
        } else {
            match count_at(s, p, 9) {
                Ok((count, q)) => match outcomes_at(s, q, count) {
                    Ok((outcomes, end)) => match finish_at(s, end) {
                        Ok(()) => Ok(outcomes),
                        Err(e) => Err(e),
                    },
                    Err(e) => Err(e),
                },
                Err(e) => Err(e),
            }
        },
        Err(e) => Err(e),
    }
}

/// A cursor that will not hand out more bytes than it actually holds.
///
/// Every length in a frame is read through `take`, which checks the length
/// against the bytes still in front of it before it copies anything.
struct Reader<'a> {
    bytes: &'a [u8],
    pos: usize,
}

impl<'a> Reader<'a> {
    spec fn wf(self) -> bool {
        self.pos <= self.bytes@.len()
    }

    /// `after` stands where a read of `at` leaves it.
    spec fn moved<T>(before: Self, after: Self, read: Result<(T, int), Seq<char>>) -> bool {
        &&& after.wf()
        &&& after.bytes == before.bytes
        &&& match read {
            Ok((_, p)) => after.pos == p,
            Err(_) => true,
        }
    }

    fn new(bytes: &'a [u8]) -> (r: Self)
        ensures
            r.wf(),
            r.bytes == bytes,
            r.pos == 0,
    {
        Reader { bytes, pos: 0 }
    }

    fn remaining(&self) -> (n: usize)
        requires
            self.wf(),
        ensures
            n == self.bytes@.len() - self.pos,
    {
        self.bytes.len() - self.pos
    }

    fn take(&mut self, len: usize) -> (r: Result<&'a [u8], WireError>)
        requires
            old(self).wf(),
        ensures
            Self::moved(*old(self), *final(self), take_at(old(self).bytes@, old(self).pos as int, len as nat)),
            match (r, take_at(old(self).bytes@, old(self).pos as int, len as nat)) {
                (Ok(v), Ok((raw, _))) => v@ == raw,
                (Err(e), Err(t)) => e.0@ == t,
                _ => false,
            },
    {
        if len > self.remaining() {
            let mut message = "truncated frame: wanted ".to_owned();
            push_decimal(&mut message, len as u64);
            message.append(" bytes, ");
            push_decimal(&mut message, self.remaining() as u64);
            message.append(" left");
            return Err(WireError(message));
        }
        let all: &'a [u8] = self.bytes;
        let total: usize = all.len();
        assert(self.pos + len <= total);
        let slice: &'a [u8] = vstd::slice::slice_subrange(all, self.pos, self.pos + len);
        self.pos = self.pos + len;
        Ok(slice)
    }

    fn u8(&mut self) -> (r: Result<u8, WireError>)
        requires
            old(self).wf(),
        ensures
            Self::moved(*old(self), *final(self), u8_at(old(self).bytes@, old(self).pos as int)),
            match (r, u8_at(old(self).bytes@, old(self).pos as int)) {
                (Ok(v), Ok((n, _))) => v == n,
                (Err(e), Err(t)) => e.0@ == t,
                _ => false,
            },
    {
        match self.take(1) {
            Ok(raw) => Ok(raw[0]),
            Err(e) => Err(e),
        }
    }

    fn u16(&mut self) -> (r: Result<u16, WireError>)
        requires
            old(self).wf(),
        ensures
            Self::moved(*old(self), *final(self), u16_at(old(self).bytes@, old(self).pos as int)),
            match (r, u16_at(old(self).bytes@, old(self).pos as int)) {
                (Ok(v), Ok((n, _))) => v == n,
                (Err(e), Err(t)) => e.0@ == t,
                _ => false,
            },
    {
        match self.take(2) {
            Ok(raw) => Ok(raw[0] as u16 + 256 * (raw[1] as u16)),
            Err(e) => Err(e),
        }
    }

    fn u32(&mut self) -> (r: Result<usize, WireError>)
        requires
            old(self).wf(),
        ensures
            Self::moved(*old(self), *final(self), u32_at(old(self).bytes@, old(self).pos as int)),
            match (r, u32_at(old(self).bytes@, old(self).pos as int)) {
                (Ok(v), Ok((n, _))) => v == n,
                (Err(e), Err(t)) => e.0@ == t,
                _ => false,
            },
    {
        match self.take(4) {
            Ok(raw) => Ok(
                raw[0] as usize + 256 * (raw[1] as usize + 256 * (raw[2] as usize + 256 * (
                raw[3] as usize))),
            ),
            Err(e) => Err(e),
        }
    }

    /// A length-prefixed byte string.
    fn blob(&mut self) -> (r: Result<Vec<u8>, WireError>)
        requires
            old(self).wf(),
        ensures
            Self::moved(*old(self), *final(self), blob_at(old(self).bytes@, old(self).pos as int)),
            match (r, blob_at(old(self).bytes@, old(self).pos as int)) {
                (Ok(v), Ok((b, _))) => v@ == b,
                (Err(e), Err(t)) => e.0@ == t,
                _ => false,
            },
    {
        let len: usize = match self.u32() {
            Ok(len) => len,
            Err(e) => return Err(e),
        };
        match self.take(len) {
            Ok(raw) => Ok(copied(raw)),
            Err(e) => Err(e),
        }
    }

    /// The record count, checked against what the rest of the frame could
    /// possibly hold before anyone reserves memory for it.
    fn record_count(&mut self, min_record_bytes: usize) -> (r: Result<usize, WireError>)
        requires
            old(self).wf(),
            min_record_bytes <= 16,
        ensures
            Self::moved(
                *old(self),
                *final(self),
                count_at(old(self).bytes@, old(self).pos as int, min_record_bytes as nat),
            ),
            match (r, count_at(old(self).bytes@, old(self).pos as int, min_record_bytes as nat)) {
                (Ok(v), Ok((n, _))) => v == n && n <= MAX_RECORDS,
                (Err(e), Err(t)) => e.0@ == t,
                _ => false,
            },
    {
        let count: usize = match self.u32() {
            Ok(count) => count,
            Err(e) => return Err(e),
        };
        if count > MAX_RECORDS {
            let mut message = "frame claims ".to_owned();
            push_decimal(&mut message, count as u64);
            message.append(" records; too many");
            return Err(WireError(message));
        }
        assert(count * min_record_bytes <= 1048576 * 16) by (nonlinear_arith)
            requires
                count <= 1048576,
                min_record_bytes <= 16,
        ;
        if count * min_record_bytes > self.remaining() {
            let mut message = "frame claims ".to_owned();
            push_decimal(&mut message, count as u64);
            message.append(" records but holds only ");
            push_decimal(&mut message, self.remaining() as u64);
            message.append(" bytes");
            return Err(WireError(message));
        }
        Ok(count)
    }

    fn finish(self) -> (r: Result<(), WireError>)
        requires
            self.wf(),
        ensures
            match (r, finish_at(self.bytes@, self.pos as int)) {
                (Ok(()), Ok(())) => true,
                (Err(e), Err(t)) => e.0@ == t,
                _ => false,
            },
    {
        if self.remaining() != 0 {
            let mut message = String::new();
            push_decimal(&mut message, self.remaining() as u64);
            message.append(" trailing bytes in frame");
            proof {
                assert(message@ =~= decimal((self.bytes@.len() - self.pos) as nat)
                    + " trailing bytes in frame"@);
            }
            return Err(WireError(message));
        }
        Ok(())
    }
}

/// `String::from_utf8`: the text that the bytes encode, or nothing where they
/// are not UTF-8.
#[verifier::external_body]
pub(crate) fn text_from_utf8(bytes: Vec<u8>) -> (r: Option<String>)
    ensures
        match r {
            Some(s) => valid_utf8(bytes@) && s@ == decode_utf8(bytes@),
            None => !valid_utf8(bytes@),
        },
{
    String::from_utf8(bytes).ok()
}

proof fn lemma_items_stay_wrong(s: Seq<u8>, pos: int, n: nat, total: nat)
    requires
        n <= total,
        items_at(s, pos, n) is Err,
    ensures
        items_at(s, pos, total) == items_at(s, pos, n),
    decreases total,
{
    if n < total {
        lemma_items_stay_wrong(s, pos, n, (total - 1) as nat);
    }
}

proof fn lemma_outcomes_stay_wrong(s: Seq<u8>, pos: int, n: nat, total: nat)
    requires
        n <= total,
        outcomes_at(s, pos, n) is Err,
    ensures
        outcomes_at(s, pos, total) == outcomes_at(s, pos, n),
    decreases total,
{
    if n < total {
        lemma_outcomes_stay_wrong(s, pos, n, (total - 1) as nat);
    }
}

/// Read a batch request frame.
pub fn decode_batch_request(bytes: &[u8]) -> (r: Result<Vec<BatchItem>, WireError>)
    ensures
        match (r, request_read(bytes@)) {
            (Ok(items), Ok(read)) => models(items@) == read,
            (Err(e), Err(t)) => e.0@ == t,
            _ => false,
        },
{
    let mut reader = Reader::new(bytes);
    match reader.take(4) {
        Ok(magic) => {
            if magic[0] != 84 || magic[1] != 66 || magic[2] != 81 || magic[3] != 49 {
                assert(magic@ != request_magic());
                return Err(err("not a tandem batch request frame"));
            }
            assert(magic@ =~= request_magic());
        },
        Err(e) => return Err(e),
    }
    let count: usize = match reader.record_count(6) {
        Ok(count) => count,
        Err(e) => return Err(e),
    };
    let ghost start = reader.pos as int;
    let mut items: Vec<BatchItem> = Vec::with_capacity(count);
    let mut i: usize = 0;
    assert(models(items@) =~= Seq::<(u16, Seq<u8>)>::empty());
    while i < count
        invariant
            i <= count,
            reader.wf(),
            reader.bytes == bytes,
            items_at(bytes@, start, i as nat) == Ok::<(Seq<(u16, Seq<u8>)>, int), Seq<char>>(
                (models(items@), reader.pos as int),
            ),
            take_at(bytes@, 0, 4) == Ok::<(Seq<u8>, int), Seq<char>>((request_magic(), 4int)),
            count_at(bytes@, 4, 6) == Ok::<(nat, int), Seq<char>>((count as nat, start)),
        decreases count - i,
    {
        let ghost done = models(items@);
        let ghost here = reader.pos as int;
        let kind: u16 = match reader.u16() {
            Ok(kind) => kind,
            Err(e) => {
                proof {
                    lemma_items_stay_wrong(bytes@, start, (i + 1) as nat, count as nat);
                }
                return Err(e);
            },
        };
        let data = match reader.blob() {
            Ok(data) => data,
            Err(e) => {
                proof {
                    lemma_items_stay_wrong(bytes@, start, (i + 1) as nat, count as nat);
                }
                return Err(e);
            },
        };
        let ghost item = (kind, data@);
        items.push(BatchItem { kind, data });
        assert(models(items@) =~= done.push(item));
        i = i + 1;
    }
    match reader.finish() {
        Ok(()) => Ok(items),
        Err(e) => Err(e),
    }
}

/// Read a batch response frame.
pub fn decode_batch_response(bytes: &[u8]) -> (r: Result<Vec<BatchOutcome>, WireError>)
    ensures
        match (r, response_read(bytes@)) {
            (Ok(outcomes), Ok(read)) => models(outcomes@) == read,
            (Err(e), Err(t)) => e.0@ == t,
            _ => false,
        },
{
    let mut reader = Reader::new(bytes);
    match reader.take(4) {
        Ok(magic) => {
            if magic[0] != 84 || magic[1] != 66 || magic[2] != 83 || magic[3] != 49 {
                assert(magic@ != response_magic());
                return Err(err("not a tandem batch response frame"));
            }
            assert(magic@ =~= response_magic());
        },
        Err(e) => return Err(e),
    }
    let count: usize = match reader.record_count(9) {
        Ok(count) => count,
        Err(e) => return Err(e),
    };
    let ghost start = reader.pos as int;
    let mut outcomes: Vec<BatchOutcome> = Vec::with_capacity(count);
    let mut i: usize = 0;
    assert(models(outcomes@) =~= Seq::<OutcomeModel>::empty());
    while i < count
        invariant
            i <= count,
            reader.wf(),
            reader.bytes == bytes,
            outcomes_at(bytes@, start, i as nat) == Ok::<(Seq<OutcomeModel>, int), Seq<char>>(
                (models(outcomes@), reader.pos as int),
            ),
            take_at(bytes@, 0, 4) == Ok::<(Seq<u8>, int), Seq<char>>((response_magic(), 4int)),
            count_at(bytes@, 4, 9) == Ok::<(nat, int), Seq<char>>((count as nat, start)),
        decreases count - i,
    {
        let ghost done = models(outcomes@);
        let outcome = match read_outcome(&mut reader) {
            Ok(outcome) => outcome,
            Err(e) => {
                proof {
                    lemma_outcomes_stay_wrong(bytes@, start, (i + 1) as nat, count as nat);
                }
                return Err(e);
            },
        };
        let ghost model = outcome@;
        outcomes.push(outcome);
        assert(models(outcomes@) =~= done.push(model));
        i = i + 1;
    }
    match reader.finish() {
        Ok(()) => Ok(outcomes),
        Err(e) => Err(e),
    }
}

fn read_outcome<'a>(reader: &mut Reader<'a>) -> (r: Result<BatchOutcome, WireError>)
    requires
        old(reader).wf(),
    ensures
        Reader::moved(*old(reader), *final(reader), outcome_at(old(reader).bytes@, old(reader).pos as int)),
        match (r, outcome_at(old(reader).bytes@, old(reader).pos as int)) {
            (Ok(o), Ok((m, _))) => o@ == m,
            (Err(e), Err(t)) => e.0@ == t,
            _ => false,
        },
{
    let status: u8 = match reader.u8() {
        Ok(status) => status,
        Err(e) => return Err(e),
    };
    let id = match reader.blob() {
        Ok(id) => id,
        Err(e) => return Err(e),
    };
    let payload = match reader.blob() {
        Ok(payload) => payload,
        Err(e) => return Err(e),
    };
    if status == 0 {
        Ok(BatchOutcome::Written { id, normalized: payload })
    } else if status == 1 {
        match text_from_utf8(payload) {
            Some(message) => Ok(BatchOutcome::Failed { message }),
            None => Err(err("batch failure message is not valid UTF-8")),
        }
    } else {
        let mut message = "unknown batch record status ".to_owned();
        push_decimal(&mut message, status as u64);
        Err(WireError(message))
    }
}

// ─── What the frames promise ──────────────────────────────────────────────────

/// Every blob is short enough for its 32-bit length.
pub open spec fn items_fit(items: Seq<(u16, Seq<u8>)>) -> bool {
    &&& items.len() <= MAX_RECORDS
    &&& forall|i: int| 0 <= i < items.len() ==> (#[trigger] items[i]).1.len() <= u32::MAX
}

pub open spec fn outcome_fits(outcome: OutcomeModel) -> bool {
    match outcome {
        OutcomeModel::Written { id, normalized } => id.len() <= u32::MAX && normalized.len()
            <= u32::MAX,
        OutcomeModel::Failed { message } => encode_utf8(message).len() <= u32::MAX,
    }
}

pub open spec fn outcomes_fit(outcomes: Seq<OutcomeModel>) -> bool {
    &&& outcomes.len() <= MAX_RECORDS
    &&& forall|i: int| 0 <= i < outcomes.len() ==> outcome_fits(#[trigger] outcomes[i])
}

proof fn lemma_take_at(pre: Seq<u8>, mid: Seq<u8>, rest: Seq<u8>)
    ensures
        take_at(pre + mid + rest, pre.len() as int, mid.len()) == Ok::<(Seq<u8>, int), Seq<char>>(
            (mid, (pre.len() + mid.len()) as int),
        ),
{
    let s = pre + mid + rest;
    assert(s.subrange(pre.len() as int, (pre.len() + mid.len()) as int) =~= mid);
}

proof fn lemma_u32_at(pre: Seq<u8>, n: nat, rest: Seq<u8>)
    requires
        n <= u32::MAX,
    ensures
        u32_at(pre + le32(n) + rest, pre.len() as int) == Ok::<(nat, int), Seq<char>>(
            (n, (pre.len() + 4) as int),
        ),
{
    lemma_take_at(pre, le32(n), rest);
    le32_reads_back(n, Seq::empty());
}

proof fn lemma_blob_at(pre: Seq<u8>, b: Seq<u8>, rest: Seq<u8>)
    requires
        b.len() <= u32::MAX,
    ensures
        blob_at(pre + blob_bytes(b) + rest, pre.len() as int) == Ok::<(Seq<u8>, int), Seq<char>>(
            (b, (pre.len() + blob_bytes(b).len()) as int),
        ),
{
    let s = pre + blob_bytes(b) + rest;
    assert(s =~= pre + le32(b.len()) + (b + rest));
    lemma_u32_at(pre, b.len(), b + rest);
    assert(s =~= (pre + le32(b.len())) + b + rest);
    lemma_take_at(pre + le32(b.len()), b, rest);
}

proof fn lemma_item_at(pre: Seq<u8>, item: (u16, Seq<u8>), rest: Seq<u8>)
    requires
        item.1.len() <= u32::MAX,
    ensures
        item_at(pre + item_bytes(item) + rest, pre.len() as int) == Ok::<
            ((u16, Seq<u8>), int),
            Seq<char>,
        >((item, (pre.len() + item_bytes(item).len()) as int)),
{
    let s = pre + item_bytes(item) + rest;
    assert(s =~= pre + le16(item.0) + (blob_bytes(item.1) + rest));
    lemma_take_at(pre, le16(item.0), blob_bytes(item.1) + rest);
    le16_reads_back(item.0, Seq::empty());
    assert(s =~= (pre + le16(item.0)) + blob_bytes(item.1) + rest);
    lemma_blob_at(pre + le16(item.0), item.1, rest);
}

proof fn lemma_regroup(pre: Seq<u8>, x: Seq<u8>, y: Seq<u8>, rest: Seq<u8>)
    ensures
        pre + (x + y) + rest == pre + x + (y + rest),
        pre + (x + y) + rest == (pre + x) + y + rest,
        (pre + x).len() == pre.len() + x.len(),
        (x + y).len() == x.len() + y.len(),
{
    assert(pre + (x + y) + rest =~= pre + x + (y + rest));
    assert(pre + (x + y) + rest =~= (pre + x) + y + rest);
}

proof fn lemma_record_at(pre: Seq<u8>, status: u8, a: Seq<u8>, b: Seq<u8>, rest: Seq<u8>)
    requires
        a.len() <= u32::MAX,
        b.len() <= u32::MAX,
    ensures
        ({
            let s = pre + (seq![status] + blob_bytes(a) + blob_bytes(b)) + rest;
            let p = pre.len() as int;
            let q = p + 1;
            let m = q + blob_bytes(a).len();
            &&& u8_at(s, p) == Ok::<(u8, int), Seq<char>>((status, q))
            &&& blob_at(s, q) == Ok::<(Seq<u8>, int), Seq<char>>((a, m))
            &&& blob_at(s, m) == Ok::<(Seq<u8>, int), Seq<char>>((b, m + blob_bytes(b).len()))
        }),
{
    let one = seq![status];
    let x = blob_bytes(a);
    let y = blob_bytes(b);
    let s = pre + (one + x + y) + rest;
    assert(s =~= pre + one + (x + y + rest));
    lemma_take_at(pre, one, x + y + rest);
    assert(s =~= (pre + one) + x + (y + rest));
    lemma_blob_at(pre + one, a, y + rest);
    assert(s =~= (pre + one + x) + y + rest);
    lemma_blob_at(pre + one + x, b, rest);
}

proof fn lemma_outcome_at(pre: Seq<u8>, outcome: OutcomeModel, rest: Seq<u8>)
    requires
        outcome_fits(outcome),
    ensures
        outcome_at(pre + outcome_bytes(outcome) + rest, pre.len() as int) == Ok::<
            (OutcomeModel, int),
            Seq<char>,
        >((outcome, (pre.len() + outcome_bytes(outcome).len()) as int)),
        outcome_bytes(outcome).len() >= 9,
{
    match outcome {
        OutcomeModel::Written { id, normalized } => {
            lemma_record_at(pre, 0, id, normalized, rest);
        },
        OutcomeModel::Failed { message } => {
            encode_utf8_valid_utf8(message);
            encode_utf8_decode_utf8(message);
            lemma_record_at(pre, 1, Seq::empty(), encode_utf8(message), rest);
        },
    }
}

proof fn lemma_items_at(pre: Seq<u8>, items: Seq<(u16, Seq<u8>)>, rest: Seq<u8>)
    requires
        forall|i: int| 0 <= i < items.len() ==> (#[trigger] items[i]).1.len() <= u32::MAX,
    ensures
        items_at(pre + items_bytes(items) + rest, pre.len() as int, items.len()) == Ok::<
            (Seq<(u16, Seq<u8>)>, int),
            Seq<char>,
        >((items, (pre.len() + items_bytes(items).len()) as int)),
        items_bytes(items).len() >= 6 * items.len(),
    decreases items.len(),
{
    if items.len() == 0 {
        assert(items =~= Seq::empty());
    } else {
        let front = items.drop_last();
        let last = items.last();
        assert forall|i: int| 0 <= i < front.len() implies (#[trigger] front[i]).1.len()
            <= u32::MAX by {
            assert(front[i] == items[i]);
        }
        lemma_items_at(pre, front, item_bytes(last) + rest);
        lemma_regroup(pre, items_bytes(front), item_bytes(last), rest);
        lemma_item_at(pre + items_bytes(front), last, rest);
        assert(front.push(last) =~= items);
    }
}

#[verifier::spinoff_prover]
#[verifier::rlimit(40)]
proof fn lemma_outcomes_at(pre: Seq<u8>, outcomes: Seq<OutcomeModel>, rest: Seq<u8>)
    requires
        forall|i: int| 0 <= i < outcomes.len() ==> outcome_fits(#[trigger] outcomes[i]),
    ensures
        outcomes_at(pre + outcomes_bytes(outcomes) + rest, pre.len() as int, outcomes.len())
            == Ok::<(Seq<OutcomeModel>, int), Seq<char>>(
            (outcomes, (pre.len() + outcomes_bytes(outcomes).len()) as int),
        ),
        outcomes_bytes(outcomes).len() >= 9 * outcomes.len(),
    decreases outcomes.len(),
{
    if outcomes.len() == 0 {
        assert(outcomes =~= Seq::empty());
    } else {
        let front = outcomes.drop_last();
        let last = outcomes.last();
        assert forall|i: int| 0 <= i < front.len() implies outcome_fits(#[trigger] front[i]) by {
            assert(front[i] == outcomes[i]);
        }
        lemma_outcomes_at(pre, front, outcome_bytes(last) + rest);
        lemma_regroup(pre, outcomes_bytes(front), outcome_bytes(last), rest);
        lemma_outcome_at(pre + outcomes_bytes(front), last, rest);
        assert(front.push(last) =~= outcomes);
    }
}

/// Reading a request frame gives back the items it was written from.
pub proof fn request_frames_read_back(items: Seq<(u16, Seq<u8>)>)
    requires
        items_fit(items),
    ensures
        request_read(request_frame(items)) == Ok::<Seq<(u16, Seq<u8>)>, Seq<char>>(items),
{
    let s = request_frame(items);
    let body = items_bytes(items);
    assert(s =~= Seq::<u8>::empty() + request_magic() + (le32(items.len()) + body));
    lemma_take_at(Seq::empty(), request_magic(), le32(items.len()) + body);
    lemma_u32_at(request_magic(), items.len(), body);
    let pre = request_magic() + le32(items.len());
    assert(s =~= pre + body + Seq::<u8>::empty());
    lemma_items_at(pre, items, Seq::empty());
}

/// Reading a response frame gives back the outcomes it was written from.
pub proof fn response_frames_read_back(outcomes: Seq<OutcomeModel>)
    requires
        outcomes_fit(outcomes),
    ensures
        response_read(response_frame(outcomes)) == Ok::<Seq<OutcomeModel>, Seq<char>>(outcomes),
{
    let s = response_frame(outcomes);
    let body = outcomes_bytes(outcomes);
    assert(s =~= Seq::<u8>::empty() + response_magic() + (le32(outcomes.len()) + body));
    lemma_take_at(Seq::empty(), response_magic(), le32(outcomes.len()) + body);
    lemma_u32_at(response_magic(), outcomes.len(), body);
    let pre = response_magic() + le32(outcomes.len());
    assert(s =~= pre + body + Seq::<u8>::empty());
    lemma_outcomes_at(pre, outcomes, Seq::empty());
}

proof fn lemma_blob_read(s: Seq<u8>, pos: int)
    requires
        0 <= pos <= s.len(),
        blob_at(s, pos) is Ok,
    ensures
        ({
            let (b, end) = blob_at(s, pos)->Ok_0;
            pos <= end <= s.len() && s.subrange(pos, end) == blob_bytes(b) && b.len() <= u32::MAX
        }),
{
    let raw = s.subrange(pos, pos + 4);
    let (b, end) = blob_at(s, pos)->Ok_0;
    le32_reads_back(0, raw);
    assert(s.subrange(pos, end) =~= raw + b);
}

proof fn lemma_items_read(s: Seq<u8>, pos: int, n: nat)
    requires
        0 <= pos <= s.len(),
        items_at(s, pos, n) is Ok,
    ensures
        ({
            let (items, end) = items_at(s, pos, n)->Ok_0;
            &&& pos <= end <= s.len()
            &&& items.len() == n
            &&& s.subrange(pos, end) == items_bytes(items)
            &&& forall|i: int| 0 <= i < items.len() ==> (#[trigger] items[i]).1.len() <= u32::MAX
        }),
    decreases n,
{
    if n > 0 {
        lemma_items_read(s, pos, (n - 1) as nat);
        let (front, p) = items_at(s, pos, (n - 1) as nat)->Ok_0;
        let (items, end) = items_at(s, pos, n)->Ok_0;
        let raw = s.subrange(p, p + 2);
        le16_reads_back(0, raw);
        lemma_blob_read(s, p + 2);
        assert(items.drop_last() =~= front);
        assert(s.subrange(p, end) =~= raw + s.subrange(p + 2, end));
        assert(s.subrange(pos, end) =~= s.subrange(pos, p) + s.subrange(p, end));
    } else {
        assert(s.subrange(pos, pos) =~= Seq::empty());
    }
}

/// A request frame that is accepted is exactly the frame that would be written
/// for what was read from it: no two frames hold the same items, and none holds
/// a byte that the items do not account for.
pub proof fn request_frames_are_canonical(s: Seq<u8>)
    requires
        request_read(s) is Ok,
    ensures
        s == request_frame(request_read(s)->Ok_0),
        items_fit(request_read(s)->Ok_0),
        request_read(s)->Ok_0.len() <= 0x10_0000,
{
    let items = request_read(s)->Ok_0;
    let raw = s.subrange(4, 8);
    le32_reads_back(0, raw);
    let n = le32_value(raw);
    lemma_items_read(s, 8, n);
    assert(s =~= s.subrange(0, 4) + raw + s.subrange(8, s.len() as int));
}

proof fn lemma_outcomes_read(s: Seq<u8>, pos: int, n: nat)
    requires
        0 <= pos <= s.len(),
        outcomes_at(s, pos, n) is Ok,
    ensures
        ({
            let (outcomes, end) = outcomes_at(s, pos, n)->Ok_0;
            &&& pos + 9 * n <= end <= s.len()
            &&& outcomes.len() == n
            &&& (forall|i: int| 0 <= i < n ==> #[trigger] outcomes[i] is Written) ==> s.subrange(
                pos,
                end,
            ) == outcomes_bytes(outcomes)
        }),
    decreases n,
{
    if n > 0 {
        lemma_outcomes_read(s, pos, (n - 1) as nat);
        let (front, p) = outcomes_at(s, pos, (n - 1) as nat)->Ok_0;
        let (outcomes, end) = outcomes_at(s, pos, n)->Ok_0;
        let (id, q) = blob_at(s, p + 1)->Ok_0;
        lemma_blob_read(s, p + 1);
        lemma_blob_read(s, q);
        assert(outcomes.drop_last() =~= front);
        if forall|i: int| 0 <= i < n ==> #[trigger] outcomes[i] is Written {
            assert(outcomes[n - 1] is Written);
            assert forall|i: int| 0 <= i < n - 1 implies #[trigger] front[i] is Written by {
                assert(outcomes[i] is Written);
            }
            assert(s.subrange(p, p + 1) =~= seq![0u8]);
            assert(s.subrange(p, end) =~= seq![0u8] + s.subrange(p + 1, q) + s.subrange(q, end));
            assert(s.subrange(pos, end) =~= s.subrange(pos, p) + s.subrange(p, end));
        }
    } else {
        assert(s.subrange(pos, pos) =~= Seq::empty());
    }
}

/// A response frame that is accepted starts with its letters and has as many outcomes as it
/// says, no more than the cap. Where every item was written it is exactly the frame that
/// would be written for what was read from it.
pub proof fn response_frames_hold_what_they_say(s: Seq<u8>)
    requires
        response_read(s) is Ok,
    ensures
        ({
            let outcomes = response_read(s)->Ok_0;
            &&& s.len() >= 8 + 9 * outcomes.len()
            &&& s.take(4) == seq!['T' as u8, 'B' as u8, 'S' as u8, '1' as u8]
            &&& s.subrange(4, 8) == le32(outcomes.len())
            &&& outcomes.len() <= 0x10_0000
            &&& (forall|i: int| 0 <= i < outcomes.len() ==> #[trigger] outcomes[i] is Written) ==> s
                == response_frame(outcomes)
        }),
{
    let outcomes = response_read(s)->Ok_0;
    let raw = s.subrange(4, 8);
    le32_reads_back(0, raw);
    let n = le32_value(raw);
    lemma_outcomes_read(s, 8, n);
    assert(s.take(4) =~= s.subrange(0, 4));
    assert(s.take(4) =~= seq!['T' as u8, 'B' as u8, 'S' as u8, '1' as u8]);
    assert(s =~= s.subrange(0, 4) + raw + s.subrange(8, s.len() as int));
}

/// The first byte of a record says whether its item was written, by a zero, or failed, by a
/// one; any other is refused.
pub proof fn a_record_says_whether_it_was_written(s: Seq<u8>, pos: int)
    requires
        0 <= pos < s.len(),
    ensures
        outcome_at(s, pos) matches Ok((outcome, _)) ==> (outcome is Written <==> s[pos] == 0) && (
        outcome is Failed <==> s[pos] == 1),
{
}

} // verus!
