//! The client's half of the HTTP API: where to talk to, what to send, and what
//! an answer means.
//!
//! Nothing here sends anything. A request is built from plain values, and an
//! answer comes in as its status and its body.
use vstd::prelude::*;
use vstd::string::*;
use vstd::utf8::*;

use crate::bucket::test_env_u64;
use crate::document::{read_struct, struct_read};
use crate::faults::bytes_view;
use crate::hex::{from_hex, hex_text, hex_texts, hex_value, to_hex, to_hex_all, HexError};
use crate::json::{read_text, text_in};
use crate::order::{
    entries_map, keys_increase, lemma_entries_map, lemma_pushed, text_order_is_total, TextMap,
};
use crate::text::{
    all_hex_digits, back_trimmed, debug_text, decimal, decimal_is_digits, decimal_reads_back,
    first_at, first_is_unique, front_trimmed, hex_digits_only, is_blank, is_digit, lower, lowered,
    models, parse_u64, parsed_u64, push_decimal, quoted, same_text, split_once, stands_at, trim,
    trim_back, trimmed, trimmed_keeps, CharClass,
};
use crate::wire::{
    capability_names_read_back, kind_name, kind_word, HeadsBody, PrefixBody, RepoCapability,
    RepoInfoBody, UpdateHeadsBody, WriterRoleBody, BACKEND_NAME, OP_STORE_NAME, PROTOCOL_MAJOR,
    PROTOCOL_MINOR,
};

verus! {

pub const ROOT_OPERATION_ID_LENGTH: usize = 64;

pub const BENCH_INJECT_RTT_MS_ENV: &'static str = "TANDEM_BENCH_INJECT_RTT_MS";

// ─── Endpoint target ──────────────────────────────────────────────────────────

/// Where a client talks to. `--server` takes a bare `host:port`, which means
/// `http://host:port`; an explicit `http://` or `https://` URL works too.
#[derive(Debug, Clone)]
pub struct ConnectorTarget {
    base_url: String,
    display: String,
}

/// The scheme of an endpoint and what follows it, where it has one.
pub open spec fn scheme_split(endpoint: Seq<char>) -> Option<(Seq<char>, Seq<char>)> {
    if exists|i: int| first_at(endpoint, "://"@, i) {
        let i = choose|i: int| first_at(endpoint, "://"@, i);
        Some((endpoint.take(i), endpoint.skip(i + "://"@.len())))
    } else {
        None
    }
}

/// An endpoint without the slashes at its end.
pub open spec fn unslashed(endpoint: Seq<char>) -> Seq<char> {
    back_trimmed(endpoint, CharClass::Only('/'))
}

/// The base URL and the address to show, or what is wrong with an endpoint.
pub open spec fn target_of(endpoint: Seq<char>) -> Result<(Seq<char>, Seq<char>), Seq<char>> {
    match scheme_split(endpoint) {
        Some((scheme, rest)) => if lowered(scheme) == "http"@ || lowered(scheme) == "https"@ {
            if rest.len() == 0 {
                Err("invalid endpoint: missing host:port in "@ + debug_text(endpoint))
            } else {
                Ok((unslashed(endpoint), unslashed(rest)))
            }
        } else {
            Err(
                "unsupported tandem transport scheme "@ + debug_text(scheme)
                    + "; tandem speaks HTTP, so use host:port or an http:// URL"@,
            )
        },
        None => if endpoint.len() == 0 {
            Err("invalid endpoint: missing host:port"@)
        } else {
            Ok(("http://"@ + unslashed(endpoint), endpoint))
        },
    }
}

impl ConnectorTarget {
    pub closed spec fn base(self) -> Seq<char> {
        self.base_url@
    }

    pub closed spec fn shown(self) -> Seq<char> {
        self.display@
    }

    pub fn parse(endpoint: &str) -> (r: Result<ConnectorTarget, String>)
        ensures
            match (r, target_of(endpoint@)) {
                (Ok(target), Ok((base, shown))) => target.base() == base && target.shown() == shown,
                (Err(message), Err(text)) => message@ == text,
                _ => false,
            },
    {
        match split_once(endpoint, "://") {
            Some((scheme, rest)) => {
                proof {
                    let i = choose|i: int| #[trigger]
                        first_at(endpoint@, "://"@, i) && scheme@ == endpoint@.take(i) && rest@
                            == endpoint@.skip(i + "://"@.len());
                    let j = choose|j: int| first_at(endpoint@, "://"@, j);
                    first_is_unique(endpoint@, "://"@, i, j);
                }
                let word = lower(scheme.as_str());
                if same_text(word.as_str(), "http") || same_text(word.as_str(), "https") {
                    if is_blank(rest.as_str()) {
                        let mut s = "invalid endpoint: missing host:port in ".to_owned();
                        s.append(quoted(endpoint).as_str());
                        return Err(s);
                    }
                    return Ok(
                        ConnectorTarget {
                            base_url: trim_back(endpoint, CharClass::Only('/')),
                            display: trim_back(rest.as_str(), CharClass::Only('/')),
                        },
                    );
                }
                let mut s = "unsupported tandem transport scheme ".to_owned();
                s.append(quoted(scheme.as_str()).as_str());
                s.append("; tandem speaks HTTP, so use host:port or an http:// URL");
                Err(s)
            },
            None => {
                proof {
                    if exists|i: int| first_at(endpoint@, "://"@, i) {
                        let i = choose|i: int| first_at(endpoint@, "://"@, i);
                        assert(stands_at(endpoint@, "://"@, i));
                    }
                }
                if is_blank(endpoint) {
                    return Err("invalid endpoint: missing host:port".to_owned());
                }
                let mut base_url = "http://".to_owned();
                base_url.append(trim_back(endpoint, CharClass::Only('/')).as_str());
                Ok(ConnectorTarget { base_url, display: endpoint.to_owned() })
            },
        }
    }

    pub fn base_url(&self) -> (s: &str)
        ensures
            s@ == self.base(),
    {
        self.base_url.as_str()
    }

    pub fn display_addr(&self) -> (s: &str)
        ensures
            s@ == self.shown(),
    {
        self.display.as_str()
    }

    /// The URL of a path of the API.
    pub fn url(&self, path: &str) -> (s: String)
        ensures
            s@ == self.base() + path@,
    {
        let mut s = self.base_url.clone();
        s.append(path);
        s
    }
}

/// A base URL does not end in a slash, so a path goes right behind it.
pub proof fn base_urls_end_without_a_slash(endpoint: Seq<char>)
    requires
        target_of(endpoint) is Ok,
        target_of(endpoint)->Ok_0.0.len() > 0,
        unslashed(endpoint).len() > 0,
    ensures
        target_of(endpoint)->Ok_0.0.last() != '/',
{
    lemma_unslashed(endpoint);
}

proof fn lemma_unslashed(s: Seq<char>)
    ensures
        unslashed(s).len() > 0 ==> unslashed(s).last() != '/',
    decreases s.len(),
{
    if s.len() > 0 && s.last() == '/' {
        lemma_unslashed(s.drop_last());
    }
}

/// An endpoint without a scheme is an address that is spoken to by HTTP: the URL is
/// `http://` and the endpoint without the slashes at its end, and the endpoint is shown as
/// it is. One with the scheme HTTP or HTTPS, in whatever case, is the URL without those
/// slashes, and is shown without its scheme. There is no other.
pub proof fn an_endpoint_is_an_address_or_a_url(endpoint: Seq<char>)
    ensures
        match target_of(endpoint) {
            Ok((base, shown)) => match scheme_split(endpoint) {
                None => endpoint.len() > 0 && base == "http://"@ + unslashed(endpoint) && shown
                    == endpoint,
                Some((scheme, rest)) => (lowered(scheme) == "http"@ || lowered(scheme) == "https"@)
                    && rest.len() > 0 && base == unslashed(endpoint) && shown == unslashed(rest)
                    && endpoint == scheme + "://"@ + rest,
            },
            Err(_) => match scheme_split(endpoint) {
                None => endpoint.len() == 0,
                Some((scheme, rest)) => rest.len() == 0 || !(lowered(scheme) == "http"@ || lowered(
                    scheme,
                ) == "https"@),
            },
        },
{
    if scheme_split(endpoint) is Some {
        let i = choose|i: int| first_at(endpoint, "://"@, i);
        assert(stands_at(endpoint, "://"@, i));
        assert(endpoint =~= endpoint.take(i) + "://"@ + endpoint.skip(i + "://"@.len()));
    }
}

// ─── Entity tags ──────────────────────────────────────────────────────────────

/// The version that an entity tag names.
pub open spec fn etag_version(etag: Seq<char>) -> Option<u64> {
    parsed_u64(trimmed(trimmed(etag, CharClass::White), CharClass::Only('"')))
}

/// The heads ETag is the CAS version, quoted the way an entity tag must be.
pub fn etag_for_version(version: u64) -> (etag: String)
    ensures
        etag@ == "\""@ + decimal(version as nat) + "\""@,
{
    let mut etag = "\"".to_owned();
    push_decimal(&mut etag, version);
    etag.append("\"");
    etag
}

pub fn version_from_etag(etag: &str) -> (r: Option<u64>)
    ensures
        r == etag_version(etag@),
{
    let bare = trim(etag, CharClass::White);
    let digits = trim(bare.as_str(), CharClass::Only('"'));
    parse_u64(digits.as_str())
}

/// A version's entity tag reads back as the version.
pub proof fn etags_read_back(version: u64)
    ensures
        etag_version("\""@ + decimal(version as nat) + "\""@) == Some(version),
{
    let digits = decimal(version as nat);
    let etag = "\""@ + digits + "\""@;
    reveal_strlit("\"");
    assert("\""@.len() == 1 && "\""@[0] == '"');
    decimal_is_digits(version as nat);
    decimal_reads_back(version);
    assert(is_digit(digits[0]) && is_digit(digits.last()));
    assert(etag[0] == '"' && etag.last() == '"');
    trimmed_keeps(etag, CharClass::White);
    let q = CharClass::Only('"');
    assert(etag.skip(1) =~= digits + "\""@);
    assert((digits + "\""@)[0] == digits[0]);
    assert(front_trimmed(digits + "\""@, q) == digits + "\""@);
    assert(front_trimmed(etag, q) == digits + "\""@);
    assert((digits + "\""@).last() == '"');
    assert((digits + "\""@).drop_last() =~= digits);
    assert(back_trimmed(digits, q) == digits);
}

// ─── Repo info ────────────────────────────────────────────────────────────────

/// What a server says of its repo.
#[derive(Debug, Clone, Default)]
pub struct RepoInfoResponse {
    pub protocol_major: u16,
    pub protocol_minor: u16,
    pub backend_name: String,
    pub op_store_name: String,
    pub commit_id_length: usize,
    pub change_id_length: usize,
    pub root_commit_id: Vec<u8>,
    pub root_change_id: Vec<u8>,
    pub empty_tree_id: Vec<u8>,
    pub root_operation_id: Vec<u8>,
    /// Each capability once.
    pub capabilities: Vec<RepoCapability>,
}

fn holds_capability(list: &Vec<RepoCapability>, capability: RepoCapability) -> (r: bool)
    ensures
        r == list@.contains(capability),
{
    let mut i: usize = 0;
    while i < list.len()
        invariant
            i <= list@.len(),
            forall|j: int| 0 <= j < i ==> #[trigger] list@[j] != capability,
        decreases list@.len() - i,
    {
        if list[i] == capability {
            return true;
        }
        i = i + 1;
    }
    false
}

/// The capabilities that some names stand for; a name that stands for none is
/// passed over.
fn capabilities_named(names: &Vec<String>) -> (r: Vec<RepoCapability>)
    ensures
        r@.no_duplicates(),
        forall|c: RepoCapability| #[trigger] r@.contains(c) <==> models(names@).contains(c.word()),
{
    let mut r: Vec<RepoCapability> = Vec::new();
    let mut i: usize = 0;
    while i < names.len()
        invariant
            i <= names@.len(),
            r@.no_duplicates(),
            forall|c: RepoCapability| #[trigger]
                r@.contains(c) <==> models(names@).take(i as int).contains(c.word()),
        decreases names@.len() - i,
    {
        let ghost had = r@;
        let ghost word = names@[i as int]@;
        let ghost seen = models(names@).take(i as int);
        match RepoCapability::from_name(names[i].as_str()) {
            Some(capability) => {
                proof {
                    capability_names_read_back(capability, word);
                }
                if !holds_capability(&r, capability) {
                    r.push(capability);
                    proof {
                        lemma_pushed(had, capability);
                    }
                }
            },
            None => {},
        }
        proof {
            assert(models(names@).take(i + 1) =~= seen.push(word));
            lemma_pushed(seen, word);
            assert forall|c: RepoCapability| #[trigger] r@.contains(c) <==> models(names@).take(
                i + 1,
            ).contains(c.word()) by {
                capability_names_read_back(c, word);
                assert(had.contains(c) <==> seen.contains(c.word()));
                assert(models(names@).take(i + 1).contains(c.word()) <==> seen.contains(c.word())
                    || c.word() == word);
            }
        }
        i = i + 1;
    }
    assert(models(names@).take(i as int) =~= models(names@));
    r
}

/// What is wrong with the ids of a repo info body.
pub open spec fn info_error(body: RepoInfoBody) -> Option<Seq<char>> {
    if let Err(e) = hex_value(body.root_commit_id@) {
        Some("root commit id: "@ + e.text())
    } else if let Err(e) = hex_value(body.root_change_id@) {
        Some("root change id: "@ + e.text())
    } else if let Err(e) = hex_value(body.empty_tree_id@) {
        Some("empty tree id: "@ + e.text())
    } else if let Err(e) = hex_value(body.root_operation_id@) {
        Some("root operation id: "@ + e.text())
    } else {
        None
    }
}

fn read_id(hex: &str, what: &str) -> (r: Result<Vec<u8>, String>)
    ensures
        match r {
            Ok(id) => hex_value(hex@) == Ok::<Seq<u8>, HexError>(id@),
            Err(message) => hex_value(hex@) matches Err(e) && message@ == what@ + ": "@ + e.text(),
        },
{
    match from_hex(hex) {
        Ok(id) => Ok(id),
        Err(e) => {
            let mut s = what.to_owned();
            s.append(": ");
            s.append(e.message());
            Err(s)
        },
    }
}

/// Read the body of `GET /api/info`.
pub fn repo_info_from_body(body: RepoInfoBody) -> (r: Result<RepoInfoResponse, String>)
    ensures
        match r {
            Ok(info) => {
                &&& info_error(body) is None
                &&& info.protocol_major == body.protocol_major
                &&& info.protocol_minor == body.protocol_minor
                &&& info.backend_name@ == body.backend_name@
                &&& info.op_store_name@ == body.op_store_name@
                &&& info.commit_id_length == body.commit_id_length
                &&& info.change_id_length == body.change_id_length
                &&& hex_value(body.root_commit_id@) == Ok::<Seq<u8>, HexError>(info.root_commit_id@)
                &&& hex_value(body.root_change_id@) == Ok::<Seq<u8>, HexError>(info.root_change_id@)
                &&& hex_value(body.empty_tree_id@) == Ok::<Seq<u8>, HexError>(info.empty_tree_id@)
                &&& hex_value(body.root_operation_id@) == Ok::<Seq<u8>, HexError>(
                    info.root_operation_id@,
                )
                &&& info.capabilities@.no_duplicates()
                &&& forall|c: RepoCapability| #[trigger]
                    info.capabilities@.contains(c) <==> models(body.capabilities@).contains(
                        c.word(),
                    )
            },
            Err(message) => info_error(body) == Some(message@),
        },
{
    proof {
        reveal_strlit(": ");
        reveal_strlit("root commit id: ");
        reveal_strlit("root commit id");
        reveal_strlit("root change id: ");
        reveal_strlit("root change id");
        reveal_strlit("empty tree id: ");
        reveal_strlit("empty tree id");
        reveal_strlit("root operation id: ");
        reveal_strlit("root operation id");
        assert("root commit id"@ + ": "@ =~= "root commit id: "@);
        assert("root change id"@ + ": "@ =~= "root change id: "@);
        assert("empty tree id"@ + ": "@ =~= "empty tree id: "@);
        assert("root operation id"@ + ": "@ =~= "root operation id: "@);
    }
    let capabilities = capabilities_named(&body.capabilities);
    let root_commit_id = match read_id(body.root_commit_id.as_str(), "root commit id") {
        Ok(id) => id,
        Err(message) => return Err(message),
    };
    let root_change_id = match read_id(body.root_change_id.as_str(), "root change id") {
        Ok(id) => id,
        Err(message) => return Err(message),
    };
    let empty_tree_id = match read_id(body.empty_tree_id.as_str(), "empty tree id") {
        Ok(id) => id,
        Err(message) => return Err(message),
    };
    let root_operation_id = match read_id(body.root_operation_id.as_str(), "root operation id") {
        Ok(id) => id,
        Err(message) => return Err(message),
    };
    Ok(
        RepoInfoResponse {
            protocol_major: body.protocol_major,
            protocol_minor: body.protocol_minor,
            backend_name: body.backend_name,
            op_store_name: body.op_store_name,
            commit_id_length: body.commit_id_length as usize,
            change_id_length: body.change_id_length as usize,
            root_commit_id,
            root_change_id,
            empty_tree_id,
            root_operation_id,
            capabilities,
        },
    )
}

/// How a server differs from what this client speaks.
#[derive(Debug, Clone, Copy, PartialEq, Eq, Structural)]
pub enum RepoMismatch {
    ProtocolMajor,
    ProtocolMinor,
    BackendName,
    OpStoreName,
    NoCommitIdLength,
    NoChangeIdLength,
    RootCommitId,
    RootChangeId,
    EmptyTreeId,
    RootOperationId,
    MissingCapability(RepoCapability),
}

/// The first of the required capabilities that a server does not have.
pub open spec fn first_missing(required: Seq<RepoCapability>, had: Seq<RepoCapability>) -> Option<
    RepoCapability,
>
    decreases required.len(),
{
    if required.len() == 0 {
        None
    } else if !had.contains(required[0]) {
        Some(required[0])
    } else {
        first_missing(required.skip(1), had)
    }
}

/// Nothing is missing exactly when the server has every capability that is required; else
/// the first one that it has not is named.
pub proof fn the_first_missing_capability_is_named(
    required: Seq<RepoCapability>,
    had: Seq<RepoCapability>,
)
    ensures
        match first_missing(required, had) {
            None => forall|i: int| 0 <= i < required.len() ==> had.contains(#[trigger] required[i]),
            Some(capability) => exists|i: int|
                {
                    &&& 0 <= i < required.len() && #[trigger] required[i] == capability
                    &&& !had.contains(capability)
                    &&& forall|j: int| 0 <= j < i ==> had.contains(#[trigger] required[j])
                },
        },
    decreases required.len(),
{
    if required.len() > 0 {
        let rest = required.skip(1);
        the_first_missing_capability_is_named(rest, had);
        if had.contains(required[0]) {
            match first_missing(rest, had) {
                None => {
                    assert forall|i: int| 0 <= i < required.len() implies had.contains(
                        #[trigger] required[i],
                    ) by {
                        if i > 0 {
                            assert(required[i] == rest[i - 1]);
                        }
                    }
                },
                Some(capability) => {
                    let i = choose|i: int|
                        {
                            &&& 0 <= i < rest.len() && #[trigger] rest[i] == capability
                            &&& !had.contains(capability)
                            &&& forall|j: int| 0 <= j < i ==> had.contains(#[trigger] rest[j])
                        };
                    assert(required[i + 1] == capability);
                    assert forall|j: int| 0 <= j < i + 1 implies had.contains(
                        #[trigger] required[j],
                    ) by {
                        if j > 0 {
                            assert(required[j] == rest[j - 1]);
                        }
                    }
                },
            }
        } else {
            assert(required[0] == first_missing(required, had)->0);
        }
    }
}

/// The first thing in which a server differs.
pub open spec fn first_mismatch(info: RepoInfoResponse, required: Seq<RepoCapability>) -> Option<
    RepoMismatch,
> {
    if info.protocol_major != PROTOCOL_MAJOR {
        Some(RepoMismatch::ProtocolMajor)
    } else if info.protocol_minor != PROTOCOL_MINOR {
        Some(RepoMismatch::ProtocolMinor)
    } else if info.backend_name@ != BACKEND_NAME@ {
        Some(RepoMismatch::BackendName)
    } else if info.op_store_name@ != OP_STORE_NAME@ {
        Some(RepoMismatch::OpStoreName)
    } else if info.commit_id_length == 0 {
        Some(RepoMismatch::NoCommitIdLength)
    } else if info.change_id_length == 0 {
        Some(RepoMismatch::NoChangeIdLength)
    } else if info.root_commit_id@.len() != info.commit_id_length {
        Some(RepoMismatch::RootCommitId)
    } else if info.root_change_id@.len() != info.change_id_length {
        Some(RepoMismatch::RootChangeId)
    } else if info.empty_tree_id@.len() != info.commit_id_length {
        Some(RepoMismatch::EmptyTreeId)
    } else if info.root_operation_id@.len() != ROOT_OPERATION_ID_LENGTH {
        Some(RepoMismatch::RootOperationId)
    } else {
        match first_missing(required, info.capabilities@) {
            Some(capability) => Some(RepoMismatch::MissingCapability(capability)),
            None => None,
        }
    }
}

/// A server passes exactly when it speaks this protocol, is of this backend and operation
/// store, gives ids of the lengths it says, and has every capability that is required.
pub proof fn a_server_passes_exactly_when_it_fits(
    info: RepoInfoResponse,
    required: Seq<RepoCapability>,
)
    ensures
        first_mismatch(info, required) is None <==> {
            &&& info.protocol_major == 0
            &&& info.protocol_minor == 1
            &&& info.backend_name@ == "tandem"@
            &&& info.op_store_name@ == "tandem_op_store"@
            &&& info.commit_id_length > 0
            &&& info.change_id_length > 0
            &&& info.root_commit_id@.len() == info.commit_id_length
            &&& info.root_change_id@.len() == info.change_id_length
            &&& info.empty_tree_id@.len() == info.commit_id_length
            &&& info.root_operation_id@.len() == 64
            &&& forall|i: int|
                0 <= i < required.len() ==> info.capabilities@.contains(#[trigger] required[i])
        },
        first_mismatch(info, required) matches Some(RepoMismatch::MissingCapability(capability))
            ==> required.contains(capability) && !info.capabilities@.contains(capability),
{
    the_first_missing_capability_is_named(required, info.capabilities@);
}

/// Check that a server is one this client can talk to.
pub fn validate_repo_info(
    info: &RepoInfoResponse,
    required_capabilities: &[RepoCapability],
) -> (r: Result<(), RepoMismatch>)
    ensures
        r == (match first_mismatch(*info, required_capabilities@) {
            Some(mismatch) => Err::<(), RepoMismatch>(mismatch),
            None => Ok(()),
        }),
{
    if info.protocol_major != PROTOCOL_MAJOR {
        return Err(RepoMismatch::ProtocolMajor);
    }
    if info.protocol_minor != PROTOCOL_MINOR {
        return Err(RepoMismatch::ProtocolMinor);
    }
    if !same_text(info.backend_name.as_str(), BACKEND_NAME) {
        return Err(RepoMismatch::BackendName);
    }
    if !same_text(info.op_store_name.as_str(), OP_STORE_NAME) {
        return Err(RepoMismatch::OpStoreName);
    }
    if info.commit_id_length == 0 {
        return Err(RepoMismatch::NoCommitIdLength);
    }
    if info.change_id_length == 0 {
        return Err(RepoMismatch::NoChangeIdLength);
    }
    if info.root_commit_id.len() != info.commit_id_length {
        return Err(RepoMismatch::RootCommitId);
    }
    if info.root_change_id.len() != info.change_id_length {
        return Err(RepoMismatch::RootChangeId);
    }
    if info.empty_tree_id.len() != info.commit_id_length {
        return Err(RepoMismatch::EmptyTreeId);
    }
    if info.root_operation_id.len() != ROOT_OPERATION_ID_LENGTH {
        return Err(RepoMismatch::RootOperationId);
    }
    let mut i: usize = 0;
    assert(required_capabilities@.skip(0) =~= required_capabilities@);
    while i < required_capabilities.len()
        invariant
            i <= required_capabilities@.len(),
            first_missing(required_capabilities@, info.capabilities@) == first_missing(
                required_capabilities@.skip(i as int),
                info.capabilities@,
            ),
            first_mismatch(*info, required_capabilities@) == (match first_missing(
                required_capabilities@,
                info.capabilities@,
            ) {
                Some(capability) => Some(RepoMismatch::MissingCapability(capability)),
                None => None,
            }),
        decreases required_capabilities@.len() - i,
    {
        let ghost rest = required_capabilities@.skip(i as int);
        assert(rest[0] == required_capabilities@[i as int]);
        assert(rest.skip(1) =~= required_capabilities@.skip(i + 1));
        if !holds_capability(&info.capabilities, required_capabilities[i]) {
            return Err(RepoMismatch::MissingCapability(required_capabilities[i]));
        }
        i = i + 1;
    }
    Ok(())
}

impl RepoMismatch {
    pub open spec fn text(self, info: RepoInfoResponse) -> Seq<char> {
        "repo compatibility mismatch: "@ + match self {
            RepoMismatch::ProtocolMajor => "protocol_major expected "@ + decimal(
                PROTOCOL_MAJOR as nat,
            ) + " but server advertised "@ + decimal(info.protocol_major as nat),
            RepoMismatch::ProtocolMinor => "protocol_minor expected "@ + decimal(
                PROTOCOL_MINOR as nat,
            ) + " but server advertised "@ + decimal(info.protocol_minor as nat),
            RepoMismatch::BackendName => "backend_name expected "@ + debug_text(BACKEND_NAME@)
                + " but server advertised "@ + debug_text(info.backend_name@),
            RepoMismatch::OpStoreName => "op_store_name expected "@ + debug_text(OP_STORE_NAME@)
                + " but server advertised "@ + debug_text(info.op_store_name@),
            RepoMismatch::NoCommitIdLength => "commit_id_length must be > 0"@,
            RepoMismatch::NoChangeIdLength => "change_id_length must be > 0"@,
            RepoMismatch::RootCommitId => "root_commit_id length "@ + decimal(
                info.root_commit_id@.len(),
            ) + " does not match commit_id_length "@ + decimal(info.commit_id_length as nat),
            RepoMismatch::RootChangeId => "root_change_id length "@ + decimal(
                info.root_change_id@.len(),
            ) + " does not match change_id_length "@ + decimal(info.change_id_length as nat),
            RepoMismatch::EmptyTreeId => "empty_tree_id length "@ + decimal(
                info.empty_tree_id@.len(),
            ) + " does not match commit_id_length "@ + decimal(info.commit_id_length as nat),
            RepoMismatch::RootOperationId => "root_operation_id length "@ + decimal(
                info.root_operation_id@.len(),
            ) + " does not match expected "@ + decimal(ROOT_OPERATION_ID_LENGTH as nat),
            RepoMismatch::MissingCapability(capability) => "missing required capability "@
                + capability.word(),
        }
    }

    /// The sentence that names the difference.
    pub fn message(&self, info: &RepoInfoResponse) -> (s: String)
        ensures
            s@ == self.text(*info),
    {
        let part: String = match self {
            RepoMismatch::ProtocolMajor => numbers(
                "protocol_major expected ",
                PROTOCOL_MAJOR as u64,
                " but server advertised ",
                info.protocol_major as u64,
            ),
            RepoMismatch::ProtocolMinor => numbers(
                "protocol_minor expected ",
                PROTOCOL_MINOR as u64,
                " but server advertised ",
                info.protocol_minor as u64,
            ),
            RepoMismatch::BackendName => names(
                "backend_name expected ",
                BACKEND_NAME,
                info.backend_name.as_str(),
            ),
            RepoMismatch::OpStoreName => names(
                "op_store_name expected ",
                OP_STORE_NAME,
                info.op_store_name.as_str(),
            ),
            RepoMismatch::NoCommitIdLength => "commit_id_length must be > 0".to_owned(),
            RepoMismatch::NoChangeIdLength => "change_id_length must be > 0".to_owned(),
            RepoMismatch::RootCommitId => numbers(
                "root_commit_id length ",
                info.root_commit_id.len() as u64,
                " does not match commit_id_length ",
                info.commit_id_length as u64,
            ),
            RepoMismatch::RootChangeId => numbers(
                "root_change_id length ",
                info.root_change_id.len() as u64,
                " does not match change_id_length ",
                info.change_id_length as u64,
            ),
            RepoMismatch::EmptyTreeId => numbers(
                "empty_tree_id length ",
                info.empty_tree_id.len() as u64,
                " does not match commit_id_length ",
                info.commit_id_length as u64,
            ),
            RepoMismatch::RootOperationId => numbers(
                "root_operation_id length ",
                info.root_operation_id.len() as u64,
                " does not match expected ",
                ROOT_OPERATION_ID_LENGTH as u64,
            ),
            RepoMismatch::MissingCapability(capability) => {
                let mut s = "missing required capability ".to_owned();
                s.append(capability.as_str());
                s
            },
        };
        let mut s = "repo compatibility mismatch: ".to_owned();
        s.append(part.as_str());
        s
    }
}

fn numbers(what: &str, a: u64, between: &str, b: u64) -> (s: String)
    ensures
        s@ == what@ + decimal(a as nat) + between@ + decimal(b as nat),
{
    let mut s = what.to_owned();
    push_decimal(&mut s, a);
    s.append(between);
    push_decimal(&mut s, b);
    s
}

fn names(what: &str, expected: &str, advertised: &str) -> (s: String)
    ensures
        s@ == what@ + debug_text(expected@) + " but server advertised "@ + debug_text(advertised@),
{
    let mut s = what.to_owned();
    s.append(quoted(expected).as_str());
    s.append(" but server advertised ");
    s.append(quoted(advertised).as_str());
    s
}

/// Whether a server has a capability, without failing the connection over it.
pub fn supports_capability(info: &RepoInfoResponse, capability: RepoCapability) -> (r: bool)
    ensures
        r == info.capabilities@.contains(capability),
{
    holds_capability(&info.capabilities, capability)
}

/// A server that passes the check has every capability that was asked for, and
/// ids of the lengths it says.
pub proof fn a_valid_server_has_what_was_asked_for(
    info: RepoInfoResponse,
    required: Seq<RepoCapability>,
    capability: RepoCapability,
)
    requires
        first_mismatch(info, required) is None,
        required.contains(capability),
    ensures
        info.capabilities@.contains(capability),
        info.root_commit_id@.len() == info.commit_id_length,
        info.root_change_id@.len() == info.change_id_length,
        info.empty_tree_id@.len() == info.commit_id_length,
        info.root_operation_id@.len() == ROOT_OPERATION_ID_LENGTH,
{
    lemma_none_missing(required, info.capabilities@, capability);
}

proof fn lemma_none_missing(
    required: Seq<RepoCapability>,
    had: Seq<RepoCapability>,
    capability: RepoCapability,
)
    requires
        first_missing(required, had) is None,
        required.contains(capability),
    ensures
        had.contains(capability),
    decreases required.len(),
{
    let i = choose|i: int| 0 <= i < required.len() && required[i] == capability;
    if i > 0 {
        assert(required.skip(1)[i - 1] == capability);
        lemma_none_missing(required.skip(1), had, capability);
    }
}

// ─── Heads ────────────────────────────────────────────────────────────────────

/// The answer to an update of the heads.
#[derive(Debug, Clone)]
pub struct UpdateHeadsResult {
    pub ok: bool,
    pub heads: Vec<Vec<u8>>,
    pub version: u64,
}

/// The heads of the server, and the operation each workspace points at.
#[derive(Debug, Clone)]
pub struct HeadsState {
    pub heads: Vec<Vec<u8>>,
    pub version: u64,
    pub workspace_heads: TextMap<Vec<u8>>,
}

#[derive(Debug, Clone)]
pub struct HeadsSnapshot {
    pub heads: Vec<Vec<u8>>,
    pub version: u64,
}

/// The first of the first `n` texts that is not hex, by what is wrong with it.
pub open spec fn bad_head(heads: Seq<Seq<char>>, n: nat) -> Option<HexError>
    decreases n,
{
    if n == 0 {
        None
    } else {
        match bad_head(heads, (n - 1) as nat) {
            Some(e) => Some(e),
            None => match hex_value(heads[n - 1]) {
                Ok(_) => None,
                Err(e) => Some(e),
            },
        }
    }
}

/// The map of the first `n` workspace heads, without those that have no name or
/// no head; what is wrong with the first of the others that is not hex.
pub open spec fn workspaces_read(items: Seq<(String, String)>, n: nat) -> Result<
    Map<Seq<char>, Seq<u8>>,
    HexError,
>
    decreases n,
{
    if n == 0 {
        Ok(Map::empty())
    } else {
        match workspaces_read(items, (n - 1) as nat) {
            Err(e) => Err(e),
            Ok(map) => {
                let (workspace, hex) = (items[n - 1].0@, items[n - 1].1@);
                if workspace.len() == 0 || hex.len() == 0 {
                    Ok(map)
                } else {
                    match hex_value(hex) {
                        Ok(id) => Ok(map.insert(workspace, id)),
                        Err(e) => Err(e),
                    }
                }
            },
        }
    }
}

pub(crate) proof fn lemma_bad_stays(heads: Seq<Seq<char>>, n: nat, total: nat)
    requires
        n <= total,
        bad_head(heads, n) is Some,
    ensures
        bad_head(heads, total) == bad_head(heads, n),
    decreases total,
{
    if n < total {
        lemma_bad_stays(heads, n, (total - 1) as nat);
    }
}

proof fn lemma_workspaces_err(items: Seq<(String, String)>, n: nat, total: nat)
    requires
        n <= total,
        workspaces_read(items, n) is Err,
    ensures
        workspaces_read(items, total) == workspaces_read(items, n),
    decreases total,
{
    if n < total {
        lemma_workspaces_err(items, n, (total - 1) as nat);
    }
}

/// Whether an entry has a name and a head.
pub open spec fn names_a_head(item: (String, String)) -> bool {
    item.0@.len() > 0 && item.1@.len() > 0
}

proof fn lemma_workspaces_read(items: Seq<(String, String)>, n: nat)
    requires
        keys_increase(items),
        n <= items.len(),
    ensures
        match workspaces_read(items, n) {
            Ok(map) => {
                &&& forall|i: int|
                    0 <= i < n && names_a_head(#[trigger] items[i]) ==> map.contains_key(items[i].0@)
                        && hex_value(items[i].1@) == Ok::<Seq<u8>, HexError>(map[items[i].0@])
                &&& forall|w: Seq<char>| #[trigger]
                    map.contains_key(w) ==> exists|i: int|
                        0 <= i < n && #[trigger] items[i].0@ == w && names_a_head(items[i])
            },
            Err(e) => exists|i: int|
                {
                    &&& 0 <= i < n && names_a_head(#[trigger] items[i])
                    &&& hex_value(items[i].1@) == Err::<Seq<u8>, HexError>(e)
                    &&& forall|j: int|
                        0 <= j < i && names_a_head(#[trigger] items[j]) ==> hex_value(items[j].1@) is Ok
                },
        },
    decreases n,
{
    if n > 0 {
        lemma_workspaces_read(items, (n - 1) as nat);
        match (workspaces_read(items, (n - 1) as nat), workspaces_read(items, n)) {
            (Ok(before), Ok(map)) => {
                assert forall|i: int| 0 <= i < n && names_a_head(#[trigger] items[i]) implies map.contains_key(
                    items[i].0@,
                ) && hex_value(items[i].1@) == Ok::<Seq<u8>, HexError>(map[items[i].0@]) by {
                    if i < n - 1 {
                        text_order_is_total(items[i].0@, items[n - 1].0@, items[n - 1].0@);
                    }
                }
                assert forall|w: Seq<char>| #[trigger] map.contains_key(w) implies exists|i: int|
                    0 <= i < n && #[trigger] items[i].0@ == w && names_a_head(items[i]) by {
                    if before.contains_key(w) {
                        let i = choose|i: int|
                            0 <= i < n - 1 && #[trigger] items[i].0@ == w && names_a_head(items[i]);
                        assert(items[i].0@ == w);
                    } else {
                        assert(items[n - 1].0@ == w);
                    }
                }
            },
            (Ok(_), Err(_)) => {
                assert(names_a_head(items[n - 1]));
            },
            (Err(_), _) => {
                let i = choose|i: int|
                    {
                        &&& 0 <= i < n - 1 && names_a_head(#[trigger] items[i])
                        &&& hex_value(items[i].1@) == Err::<Seq<u8>, HexError>(
                            workspaces_read(items, (n - 1) as nat)->Err_0,
                        )
                        &&& forall|j: int|
                            0 <= j < i && names_a_head(#[trigger] items[j]) ==> hex_value(
                                items[j].1@,
                            ) is Ok
                    };
                assert(names_a_head(items[i]));
            },
        }
    }
}

/// A workspace is in the map that was read exactly when the entries name it, with a
/// name and a head that are not empty, and its value is the bytes of that head.
pub proof fn the_named_workspaces_are_read(
    items: Seq<(String, String)>,
    map: Map<Seq<char>, Seq<u8>>,
)
    requires
        keys_increase(items),
        workspaces_read(items, items.len()) == Ok::<Map<Seq<char>, Seq<u8>>, HexError>(map),
    ensures
        forall|w: Seq<char>|
            {
                &&& #[trigger] map.contains_key(w) <==> entries_map(items).contains_key(w) && w.len()
                    > 0 && entries_map(items)[w].len() > 0
                &&& map.contains_key(w) ==> hex_value(entries_map(items)[w]) == Ok::<
                    Seq<u8>,
                    HexError,
                >(map[w])
            },
{
    lemma_workspaces_read(items, items.len());
    lemma_entries_map(items);
    assert forall|w: Seq<char>|
        {
            &&& #[trigger] map.contains_key(w) <==> entries_map(items).contains_key(w) && w.len() > 0
                && entries_map(items)[w].len() > 0
            &&& map.contains_key(w) ==> hex_value(entries_map(items)[w]) == Ok::<Seq<u8>, HexError>(
                map[w],
            )
        } by {
        if map.contains_key(w) {
            let i = choose|i: int|
                0 <= i < items.len() && #[trigger] items[i].0@ == w && names_a_head(items[i]);
            assert(entries_map(items).contains_key(items[i].0@));
        }
        if entries_map(items).contains_key(w) && w.len() > 0 && entries_map(items)[w].len() > 0 {
            let i = choose|i: int| 0 <= i < items.len() && #[trigger] items[i].0@ == w;
            assert(names_a_head(items[i]));
        }
    }
}

/// A body's workspace map is unreadable exactly when an entry that has a name and a
/// head is not hex, and the first such entry is the one that is reported.
pub proof fn the_first_unreadable_workspace_is_reported(items: Seq<(String, String)>)
    requires
        keys_increase(items),
    ensures
        workspaces_read(items, items.len()) is Ok <==> forall|i: int|
            0 <= i < items.len() && names_a_head(#[trigger] items[i]) ==> hex_value(items[i].1@) is Ok,
        workspaces_read(items, items.len()) matches Err(e) ==> exists|i: int|
            {
                &&& 0 <= i < items.len() && names_a_head(#[trigger] items[i])
                &&& hex_value(items[i].1@) == Err::<Seq<u8>, HexError>(e)
                &&& forall|j: int|
                    0 <= j < i && names_a_head(#[trigger] items[j]) ==> hex_value(items[j].1@) is Ok
            },
{
    lemma_workspaces_read(items, items.len());
}

/// No head is reported exactly when every one is hex; else the first that is not is
/// the one that is reported.
pub proof fn the_first_unreadable_head_is_reported(heads: Seq<Seq<char>>, n: nat)
    requires
        n <= heads.len(),
    ensures
        match bad_head(heads, n) {
            None => forall|i: int| 0 <= i < n ==> hex_value(#[trigger] heads[i]) is Ok,
            Some(e) => exists|i: int|
                {
                    &&& 0 <= i < n && hex_value(#[trigger] heads[i]) == Err::<Seq<u8>, HexError>(e)
                    &&& forall|j: int| 0 <= j < i ==> hex_value(#[trigger] heads[j]) is Ok
                },
        },
    decreases n,
{
    if n > 0 {
        the_first_unreadable_head_is_reported(heads, (n - 1) as nat);
        match bad_head(heads, (n - 1) as nat) {
            Some(e) => {
                let i = choose|i: int|
                    {
                        &&& 0 <= i < n - 1 && hex_value(#[trigger] heads[i]) == Err::<
                            Seq<u8>,
                            HexError,
                        >(e)
                        &&& forall|j: int| 0 <= j < i ==> hex_value(#[trigger] heads[j]) is Ok
                    };
                assert(hex_value(heads[i]) == Err::<Seq<u8>, HexError>(e));
            },
            None => {
                if bad_head(heads, n) is Some {
                    assert(hex_value(heads[n - 1]) is Err);
                }
            },
        }
    }
}

/// Read the body of `GET /api/heads`.
pub fn heads_state_from_body(body: HeadsBody) -> (r: Result<HeadsState, String>)
    ensures
        ({
            let heads = models(body.heads@);
            let items = body.workspace_heads.items();
            match bad_head(heads, heads.len()) {
                Some(e) => r matches Err(message) && message@ == "head id"@ + ": "@ + e.text(),
                None => match workspaces_read(items, items.len()) {
                    Err(e) => r matches Err(message) && message@ == "workspace head id"@ + ": "@
                        + e.text(),
                    Ok(map) => r matches Ok(state) && state.version == body.version
                        && state.workspace_heads@ == map && state.heads@.len() == heads.len()
                        && forall|i: int|
                        0 <= i < heads.len() ==> hex_value(heads[i]) == Ok::<Seq<u8>, HexError>(
                            (#[trigger] state.heads@[i])@,
                        ),
                },
            }
        }),
        match r {
            Ok(state) => forall|w: Seq<char>|
                {
                    &&& #[trigger] state.workspace_heads@.contains_key(w)
                        <==> body.workspace_heads@.contains_key(w) && w.len() > 0
                        && body.workspace_heads@[w].len() > 0
                    &&& state.workspace_heads@.contains_key(w) ==> hex_value(
                        body.workspace_heads@[w],
                    ) == Ok::<Seq<u8>, HexError>(state.workspace_heads@[w])
                },
            Err(_) => true,
        },
{
    let ghost texts = models(body.heads@);
    let ghost items = body.workspace_heads.items();
    let mut heads: Vec<Vec<u8>> = Vec::new();
    let mut i: usize = 0;
    while i < body.heads.len()
        invariant
            i <= body.heads@.len(),
            texts == models(body.heads@),
            items == body.workspace_heads.items(),
            bad_head(texts, i as nat) is None,
            heads@.len() == i,
            forall|j: int|
                0 <= j < i ==> hex_value(texts[j]) == Ok::<Seq<u8>, HexError>(
                    (#[trigger] heads@[j])@,
                ),
        decreases body.heads@.len() - i,
    {
        assert(texts[i as int] == body.heads@[i as int]@);
        match read_id(body.heads[i].as_str(), "head id") {
            Ok(id) => heads.push(id),
            Err(message) => {
                proof {
                    lemma_bad_stays(texts, (i + 1) as nat, texts.len());
                }
                return Err(message);
            },
        }
        i = i + 1;
    }
    let mut workspace_heads: TextMap<Vec<u8>> = TextMap::new();
    let entries = body.workspace_heads.entries();
    let mut k: usize = 0;
    while k < entries.len()
        invariant
            k <= entries@.len(),
            entries@ == items,
            keys_increase(items),
            texts == models(body.heads@),
            items == body.workspace_heads.items(),
            bad_head(texts, texts.len()) is None,
            workspaces_read(items, k as nat) == Ok::<Map<Seq<char>, Seq<u8>>, HexError>(
                workspace_heads@,
            ),
        decreases entries@.len() - k,
    {
        let workspace = entries[k].0.as_str();
        let hex = entries[k].1.as_str();
        if !is_blank(workspace) && !is_blank(hex) {
            match read_id(hex, "workspace head id") {
                Ok(id) => {
                    workspace_heads.insert(workspace, id);
                },
                Err(message) => {
                    proof {
                        lemma_workspaces_err(items, (k + 1) as nat, items.len());
                    }
                    return Err(message);
                },
            }
        }
        k = k + 1;
    }
    proof {
        the_named_workspaces_are_read(items, workspace_heads@);
    }
    Ok(HeadsState { heads, version: body.version, workspace_heads })
}

/// The body of `POST /api/heads`.
pub fn update_heads_body(old_ids: &[Vec<u8>], new_id: &[u8], workspace_id: &str) -> (body:
    UpdateHeadsBody)
    ensures
        models(body.old_ids@) == hex_texts(models(old_ids@)),
        body.new_id@ == hex_text(new_id@),
        body.workspace_id@ == workspace_id@,
{
    let ids = to_hex_all(old_ids);
    UpdateHeadsBody { old_ids: ids, new_id: to_hex(new_id), workspace_id: workspace_id.to_owned() }
}

// ─── Answers ──────────────────────────────────────────────────────────────────

/// Whether a status says that a request was served.
pub open spec fn is_success(status: u16) -> bool {
    200 <= status < 300
}

/// What a failed answer says: the error it names, or else the body as it is.
pub open spec fn detail_of(body: Seq<char>) -> Seq<char> {
    match struct_read(encode_utf8(body), seq!["error"@]) {
        Some(found) => match text_held(found[0]) {
            Some(error) => error,
            None => body,
        },
        None => body,
    }
}

/// The string that a field holds; it has to be there.
pub open spec fn text_held(bytes: Option<Seq<u8>>) -> Option<Seq<char>> {
    match bytes {
        Some(bytes) => text_in(bytes),
        None => None,
    }
}

/// A request was served exactly where the status is one of the two hundreds. What a failed
/// answer says is the text its body has under `error`, and the whole body where it has none.
pub proof fn a_failed_answer_says_its_error(status: u16, body: Seq<char>)
    ensures
        is_success(status) <==> status / 100 == 2,
        match struct_read(encode_utf8(body), seq!["error"@]) {
            Some(found) => match found[0] {
                Some(bytes) => match text_in(bytes) {
                    Some(error) => detail_of(body) == error,
                    None => detail_of(body) == body,
                },
                None => detail_of(body) == body,
            },
            None => detail_of(body) == body,
        },
{
}

/// The error that the body of a failed answer describes.
pub fn error_detail(body: &str) -> (s: String)
    ensures
        s@ == detail_of(body@),
{
    let mut names: Vec<String> = Vec::new();
    names.push("error".to_owned());
    assert(models(names@) =~= seq!["error"@]);
    match read_struct(body.as_bytes(), &names) {
        Some(found) => match &found[0] {
            Some(bytes) => match read_text(bytes.as_slice()) {
                Ok(error) => error,
                Err(_) => body.to_owned(),
            },
            None => body.to_owned(),
        },
        None => body.to_owned(),
    }
}

/// The sentence for an answer that was not a success.
pub open spec fn failure_text(what: Seq<char>, status: u16, detail: Seq<char>) -> Seq<char> {
    what + " failed: HTTP "@ + decimal(status as nat) + " — "@ + detail
}

fn failure(what: &str, status: u16, detail: &str) -> (s: String)
    ensures
        s@ == failure_text(what@, status, detail@),
{
    let mut s = what.to_owned();
    s.append(" failed: HTTP ");
    push_decimal(&mut s, status as u64);
    s.append(" — ");
    s.append(detail);
    s
}

/// Turn an answer that was not a success into the error the server described.
pub fn check(status: u16, body: &str, what: &str) -> (r: Result<(), String>)
    ensures
        match r {
            Ok(()) => is_success(status),
            Err(message) => !is_success(status) && message@ == failure_text(
                what@,
                status,
                detail_of(body@),
            ),
        },
{
    if 200 <= status && status < 300 {
        return Ok(());
    }
    let detail = error_detail(body);
    Err(failure(what, status, detail.as_str()))
}

/// What an answer to an update of the heads means: whether the heads moved. A
/// version mismatch is a 412 carrying the state the client lost the race to,
/// which is exactly what its retry loop needs to see: a conflict, not a failure.
pub fn update_answer(status: u16, body: &str) -> (r: Result<bool, String>)
    ensures
        match r {
            Ok(moved) => (moved <==> is_success(status)) && (!moved <==> status == 412),
            Err(message) => !is_success(status) && status != 412 && message@ == failure_text(
                "update op heads"@,
                status,
                detail_of(body@),
            ),
        },
{
    if status == 412 {
        return Ok(false);
    }
    match check(status, body, "update op heads") {
        Ok(()) => Ok(true),
        Err(message) => Err(message),
    }
}

/// The result of an update, from whether the heads moved and the state that the
/// answer carried.
pub fn update_result(moved: bool, state: HeadsState) -> (r: UpdateHeadsResult)
    ensures
        r.ok == moved,
        r.heads@ == state.heads@,
        r.version == state.version,
{
    UpdateHeadsResult { ok: moved, heads: state.heads, version: state.version }
}

/// What an answer to a request for a workspace token means: whether there is one
/// to read. A refusal is what a workspace token gets, as only the admin token
/// mints; the caller reads it as holding the workspace token already.
pub fn mint_answer(status: u16, body: &str) -> (r: Result<bool, String>)
    ensures
        match r {
            Ok(minted) => (minted <==> is_success(status)) && (!minted <==> status == 403),
            Err(message) => !is_success(status) && status != 403 && message@ == failure_text(
                "mint token"@,
                status,
                detail_of(body@),
            ),
        },
{
    if status == 403 {
        return Ok(false);
    }
    match check(status, body, "mint token") {
        Ok(()) => Ok(true),
        Err(message) => Err(message),
    }
}

/// What the server answered a writer-role claim with.
#[derive(Debug, Clone, PartialEq, Eq)]
pub enum WriterClaim {
    /// The role is this holder's for so many seconds, after which somebody else
    /// may take it. A holder that means to keep it asks again before then.
    Held { holder: String, expires_in: u64 },
    /// Somebody else holds it. `detail` is the server's sentence about who, and
    /// for how much longer.
    Refused { detail: String },
}

/// What an answer to a writer-role claim means. `role` is its body, where that
/// could be read as one. A refusal is an answer rather than an error: a daemon
/// that lost the race has to keep running and keep asking.
pub fn claim_answer(status: u16, body: &str, role: Option<WriterRoleBody>) -> (r: Result<
    WriterClaim,
    String,
>)
    ensures
        if status == 409 {
            r matches Ok(WriterClaim::Refused { detail }) && detail@ == detail_of(body@)
        } else if !is_success(status) {
            r matches Err(message) && message@ == failure_text(
                "claim writer role"@,
                status,
                detail_of(body@),
            )
        } else {
            match role {
                Some(role) => r matches Ok(WriterClaim::Held { holder, expires_in }) && holder@
                    == role.holder@ && expires_in == role.expires_in_seconds,
                None => r matches Err(message) && message@ == "decode writer role"@,
            }
        },
{
    if status == 409 {
        return Ok(WriterClaim::Refused { detail: error_detail(body) });
    }
    match check(status, body, "claim writer role") {
        Ok(()) => {},
        Err(message) => return Err(message),
    }
    match role {
        Some(role) => Ok(
            WriterClaim::Held { holder: role.holder, expires_in: role.expires_in_seconds },
        ),
        None => Err("decode writer role".to_owned()),
    }
}

// ─── Objects ──────────────────────────────────────────────────────────────────

/// The path of an object, under the name of its kind; the kind itself where it
/// has no name.
pub fn object_path(kind: u16, id: &[u8]) -> (r: Result<String, String>)
    ensures
        match kind_word(kind) {
            Some(word) => r matches Ok(path) && path@ == "/api/objects/"@ + word + "/"@ + hex_text(
                id@,
            ),
            None => r matches Err(message) && message@ == "unknown object kind: "@ + decimal(
                kind as nat,
            ),
        },
{
    match kind_name(kind) {
        Some(word) => {
            let mut path = "/api/objects/".to_owned();
            path.append(word);
            path.append("/");
            path.append(to_hex(id).as_str());
            Ok(path)
        },
        None => {
            let mut s = "unknown object kind: ".to_owned();
            push_decimal(&mut s, kind as u64);
            Err(s)
        },
    }
}

pub fn operation_path(id: &[u8]) -> (path: String)
    ensures
        path@ == "/api/ops/"@ + hex_text(id@),
{
    let mut path = "/api/ops/".to_owned();
    path.append(to_hex(id).as_str());
    path
}

pub fn view_path(id: &[u8]) -> (path: String)
    ensures
        path@ == "/api/views/"@ + hex_text(id@),
{
    let mut path = "/api/views/".to_owned();
    path.append(to_hex(id).as_str());
    path
}

/// What an answer carried under a header.
#[derive(Debug, PartialEq, Eq)]
pub enum HeaderText {
    Missing,
    /// It was not text, for this reason.
    NotText(String),
    Text(String),
}

/// The id that the server put in a header.
pub fn header_id(value: HeaderText, header: &str) -> (r: Result<Vec<u8>, String>)
    ensures
        match value {
            HeaderText::Missing => r matches Err(message) && message@
                == "server response is missing the "@ + header@ + " header"@,
            HeaderText::NotText(why) => r matches Err(message) && message@ == header@
                + " header is not text: "@ + why@,
            HeaderText::Text(text) => match hex_value(text@) {
                Ok(id) => r matches Ok(bytes) && bytes@ == id,
                Err(e) => r matches Err(message) && message@ == header@ + " header is not hex"@
                    + ": "@ + e.text(),
            },
        },
{
    match value {
        HeaderText::Missing => {
            let mut s = "server response is missing the ".to_owned();
            s.append(header);
            s.append(" header");
            Err(s)
        },
        HeaderText::NotText(why) => {
            let mut s = header.to_owned();
            s.append(" header is not text: ");
            s.append(why.as_str());
            Err(s)
        },
        HeaderText::Text(text) => {
            let mut what = header.to_owned();
            what.append(" header is not hex");
            read_id(text.as_str(), what.as_str())
        },
    }
}

/// How many requests have left a client, and how its reads go. The cache answers
/// first, and only a body the server actually returned is put in it: a client
/// that remembered a 404 or a failed read would turn a fault into a fact.
#[derive(Debug, PartialEq, Eq)]
pub struct ClientReads {
    pub requests_sent: u64,
}

/// How a read starts.
#[derive(Debug, PartialEq, Eq)]
pub enum ReadStart {
    /// The cache had it.
    Served(Vec<u8>),
    /// Ask the server.
    Ask,
}

impl ClientReads {
    /// Start a read, given what the cache holds.
    pub fn start(&mut self, cached: Option<Vec<u8>>) -> (r: ReadStart)
        ensures
            match r {
                ReadStart::Served(data) => bytes_view(cached) == Some(data@)
                    && final(self).requests_sent == old(self).requests_sent,
                ReadStart::Ask => cached is None && final(self).requests_sent == old(
                    self,
                ).requests_sent.wrapping_add(1),
            },
    {
        match cached {
            Some(data) => ReadStart::Served(data),
            None => {
                self.requests_sent = self.requests_sent.wrapping_add(1);
                ReadStart::Ask
            },
        }
    }

    /// Finish a read: what to put in the cache, and what to hand on.
    pub fn finish(status: u16, text: &str, data: Vec<u8>, what: &str) -> (r: (
        bool,
        Result<Vec<u8>, String>,
    ))
        ensures
            r.0 == is_success(status),
            match r.1 {
                Ok(bytes) => is_success(status) && bytes@ == data@,
                Err(message) => !is_success(status) && message@ == failure_text(
                    what@,
                    status,
                    detail_of(text@),
                ),
            },
    {
        match check(status, text, what) {
            Ok(()) => (true, Ok(data)),
            Err(message) => (false, Err(message)),
        }
    }
}

// ─── Operation prefixes ───────────────────────────────────────────────────────

#[derive(Debug, Clone, Copy, PartialEq, Eq, Structural)]
pub enum PrefixResult {
    NoMatch,
    SingleMatch,
    Ambiguous,
}

/// The path that resolves a prefix, which has to be hex.
pub fn prefix_path(hex_prefix: &str) -> (r: Result<String, String>)
    ensures
        match r {
            Ok(path) => hex_digits_only(hex_prefix@) && path@ == "/api/ops?prefix="@ + hex_prefix@,
            Err(message) => !hex_digits_only(hex_prefix@) && message@ == "operation id prefix "@
                + debug_text(hex_prefix@) + " is not hex"@,
        },
{
    if !all_hex_digits(hex_prefix) {
        let mut s = "operation id prefix ".to_owned();
        s.append(quoted(hex_prefix).as_str());
        s.append(" is not hex");
        return Err(s);
    }
    let mut path = "/api/ops?prefix=".to_owned();
    path.append(hex_prefix);
    Ok(path)
}

/// What a word says of a prefix. One that is not known says that nothing matches.
pub open spec fn prefix_word(word: Seq<char>) -> PrefixResult {
    if word == "singleMatch"@ {
        PrefixResult::SingleMatch
    } else if word == "ambiguous"@ {
        PrefixResult::Ambiguous
    } else {
        PrefixResult::NoMatch
    }
}

/// The id that a body gives, where it says that it found one.
pub open spec fn prefix_id(body: PrefixBody) -> Option<Result<Seq<u8>, HexError>> {
    match body.id {
        Some(hex) => if prefix_word(body.resolution@) == PrefixResult::SingleMatch && hex@.len() > 0 {
            Some(hex_value(hex@))
        } else {
            None
        },
        None => None,
    }
}

/// Which word says what of a prefix, and when a body gives an id: only where it says that
/// it found one, and the id is not empty.
pub proof fn a_body_gives_an_id_where_it_found_one(body: PrefixBody)
    ensures
        prefix_word(body.resolution@) is SingleMatch <==> body.resolution@ == "singleMatch"@,
        prefix_word(body.resolution@) is Ambiguous <==> body.resolution@ == "ambiguous"@,
        prefix_id(body) is Some <==> body.resolution@ == "singleMatch"@ && (body.id matches Some(
            hex,
        ) && hex@.len() > 0),
        prefix_id(body) matches Some(read) ==> read == hex_value(body.id->0@),
{
    reveal_strlit("singleMatch");
    reveal_strlit("ambiguous");
    assert("singleMatch"@.len() != "ambiguous"@.len());
}

/// Read the body of `GET /api/ops?prefix=`.
pub fn prefix_from_body(body: PrefixBody) -> (r: Result<(PrefixResult, Option<Vec<u8>>), String>)
    ensures
        match prefix_id(body) {
            Some(Err(e)) => r matches Err(message) && message@ == "prefix match id"@ + ": "@
                + e.text(),
            Some(Ok(id)) => r matches Ok((result, found)) && result == prefix_word(body.resolution@)
                && bytes_view(found) == Some(id),
            None => r matches Ok((result, found)) && result == prefix_word(body.resolution@)
                && found is None,
        },
{
    let word = body.resolution.as_str();
    let result = if same_text(word, "singleMatch") {
        PrefixResult::SingleMatch
    } else if same_text(word, "ambiguous") {
        PrefixResult::Ambiguous
    } else {
        PrefixResult::NoMatch
    };
    match body.id {
        Some(hex) => {
            if result == PrefixResult::SingleMatch && !is_blank(hex.as_str()) {
                match read_id(hex.as_str(), "prefix match id") {
                    Ok(id) => Ok((result, Some(id))),
                    Err(message) => Err(message),
                }
            } else {
                Ok((result, None))
            }
        },
        None => Ok((result, None)),
    }
}

// ─── Benchmarks ───────────────────────────────────────────────────────────────

/// The round-trip delay to put in front of every request, in milliseconds.
/// Anything that is not a number is none.
pub fn bench_injected_rtt_delay(raw: Option<&str>) -> (millis: u64)
    ensures
        millis == (match raw {
            Some(text) => match parsed_u64(trimmed(text@, CharClass::White)) {
                Some(n) => n,
                None => 0,
            },
            None => 0,
        }),
{
    test_env_u64(raw)
}

} // verus!
