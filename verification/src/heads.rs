//! The head set the server serves, and the compare-and-swap that moves it.
//!
//! The operation heads themselves are jj's; what is kept beside them is the CAS
//! version and which workspace points at which operation. A publish names the
//! version it started from, and a publish that names any other one is turned
//! away with the state it has to start from instead.
use vstd::prelude::*;
use vstd::string::*;

use crate::document::{
    entries_held, entries_of, number_held, number_of, read_struct, struct_read,
};
use crate::faults::bytes_view;
use crate::hex::{
    from_hex, hex_reads_back, hex_text, hex_texts, hex_value, to_hex, to_hex_all, HexError,
};
use crate::json::{
    field_names, fields_model, is_json_of, pairs_model, pretty_object, write_object, JsonField,
    JsonModel,
};
use crate::order::{copied, same_bytes, sorted_texts, texts_ascend, TextMap};
use crate::text::{chars_of, is_blank, maybe_text, models, same_text};
use crate::wire::text_from_utf8;

verus! {

// ─── The metadata beside the heads ────────────────────────────────────────────

/// The CAS version, and the operation each workspace points at, as hex.
#[derive(Debug, Clone, PartialEq, Eq)]
pub struct HeadsMetadata {
    pub version: u64,
    pub workspace_heads: TextMap<String>,
}

/// The metadata, as a mathematical value.
#[verifier::ext_equal]
pub struct MetadataModel {
    pub version: u64,
    pub workspace_heads: Map<Seq<char>, Seq<char>>,
}

impl View for HeadsMetadata {
    type V = MetadataModel;

    open spec fn view(&self) -> MetadataModel {
        MetadataModel { version: self.version, workspace_heads: self.workspace_heads@ }
    }
}

/// Why the metadata could not be written or read.
#[derive(Debug, Clone, Copy, PartialEq, Eq, Structural)]
pub enum MetadataError {
    Encode,
    Decode,
}

/// The JSON object of the metadata.
pub open spec fn metadata_json(metadata: HeadsMetadata) -> Seq<(Seq<char>, JsonModel)> {
    seq![
        ("version"@, JsonModel::Number(metadata.version)),
        ("workspaceHeads"@, JsonModel::Entries(pairs_model(metadata.workspace_heads.items()))),
    ]
}

/// The fields of the metadata.
pub open spec fn metadata_names() -> Seq<Seq<char>> {
    seq!["version"@, "workspaceHeads"@]
}

/// What is written of the metadata says each thing under its name.
pub proof fn the_metadata_says_each_thing_under_its_name(metadata: HeadsMetadata)
    ensures
        metadata_json(metadata).len() == 2,
        forall|i: int|
            0 <= i < 2 ==> {
                let (name, value) = #[trigger] metadata_json(metadata)[i];
                ||| name == "version"@ && value == JsonModel::Number(metadata.version)
                ||| name == "workspaceHeads"@ && value == JsonModel::Entries(
                    pairs_model(metadata.workspace_heads.items()),
                )
            },
        metadata_names() == seq!["version"@, "workspaceHeads"@],
        metadata@.version == metadata.version,
        metadata@.workspace_heads == metadata.workspace_heads@,
{
}

/// What a document says of the metadata: `version` has to be there, the
/// workspace map is empty where it is not.
pub open spec fn metadata_read(document: Seq<u8>) -> Option<MetadataModel> {
    match struct_read(document, metadata_names()) {
        Some(found) => metadata_held(found),
        None => None,
    }
}

/// The metadata that was found, field by field.
pub open spec fn metadata_held(found: Seq<Option<Seq<u8>>>) -> Option<MetadataModel> {
    match (number_held(found[0]), entries_held(found[1])) {
        (Some(version), Some(workspace_heads)) => Some(MetadataModel { version, workspace_heads }),
        _ => None,
    }
}

/// The metadata is read exactly when the version is there and the rest can be read, and
/// each field is what the document holds under its name.
pub proof fn the_metadata_is_what_the_document_holds(
    version: Option<Seq<u8>>,
    workspace_heads: Option<Seq<u8>>,
)
    ensures
        metadata_held(seq![version, workspace_heads]) is Some <==> number_held(version) is Some
            && entries_held(workspace_heads) is Some,
        metadata_held(seq![version, workspace_heads]) matches Some(metadata) ==> Some(
            metadata.version,
        ) == number_held(version) && Some(metadata.workspace_heads) == entries_held(
            workspace_heads,
        ),
{
}

impl HeadsMetadata {
    /// What a repository starts with: version zero, and no workspace.
    pub fn initial() -> (r: HeadsMetadata)
        ensures
            r@ == (MetadataModel { version: 0, workspace_heads: Map::empty() }),
    {
        HeadsMetadata { version: 0, workspace_heads: TextMap::new() }
    }

    /// Write the metadata. What is written reads back as the metadata.
    pub fn encode(&self) -> (r: Result<Vec<u8>, MetadataError>)
        ensures
            r matches Ok(out) && out@ == pretty_object(metadata_json(*self)) && metadata_read(out@)
                == Some(self@),
    {
        let mut pairs: Vec<(String, String)> = Vec::new();
        let entries = self.workspace_heads.entries();
        let mut i: usize = 0;
        while i < entries.len()
            invariant
                i <= entries@.len(),
                entries@ == self.workspace_heads.items(),
                pairs@ == entries@.take(i as int),
            decreases entries@.len() - i,
        {
            pairs.push((entries[i].0.clone(), entries[i].1.clone()));
            assert(pairs@ =~= entries@.take(i + 1));
            i = i + 1;
        }
        assert(pairs@ =~= self.workspace_heads.items());
        let mut fields: Vec<(String, JsonField)> = Vec::new();
        fields.push(("version".to_owned(), JsonField::Number(self.version)));
        fields.push(("workspaceHeads".to_owned(), JsonField::Entries(pairs)));
        proof {
            reveal_strlit("version");
            reveal_strlit("workspaceHeads");
            assert("version"@[0] == 'v' && "workspaceHeads"@[0] == 'w');
            assert(fields_model(fields@) =~= metadata_json(*self));
            assert(field_names(fields@) =~= metadata_names());
        }
        let ghost sent = fields@;
        match write_object(fields) {
            Ok(out) => {
                proof {
                    let found = struct_read(out@, metadata_names())->0;
                    assert(is_json_of(found[0]->0, sent[0].1));
                    assert(is_json_of(found[1]->0, sent[1].1));
                }
                Ok(out)
            },
            Err(_) => Err(MetadataError::Encode),
        }
    }

    /// Read the metadata.
    pub fn decode(bytes: &[u8]) -> (r: Result<HeadsMetadata, MetadataError>)
        ensures
            match r {
                Ok(metadata) => metadata_read(bytes@) == Some(metadata@),
                Err(e) => e == MetadataError::Decode && metadata_read(bytes@) is None,
            },
    {
        let mut names: Vec<String> = Vec::new();
        names.push("version".to_owned());
        names.push("workspaceHeads".to_owned());
        assert(models(names@) =~= metadata_names());
        let found = match read_struct(bytes, &names) {
            Some(found) => found,
            None => return Err(MetadataError::Decode),
        };
        match (number_of(&found[0]), entries_of(&found[1])) {
            (Some(version), Some(workspace_heads)) => Ok(
                HeadsMetadata { version, workspace_heads },
            ),
            _ => Err(MetadataError::Decode),
        }
    }
}

/// The workspace map after a publish: the workspace that published, where it
/// gave a name, points at the new operation.
pub open spec fn moved_heads(
    current: Map<Seq<char>, Seq<char>>,
    workspace_id: Option<Seq<char>>,
    new_id: Seq<char>,
) -> Map<Seq<char>, Seq<char>> {
    match workspace_id {
        Some(workspace_id) => if workspace_id.len() == 0 {
            current
        } else {
            current.insert(workspace_id, new_id)
        },
        None => current,
    }
}

pub fn updated_workspace_heads(
    current: &TextMap<String>,
    workspace_id: Option<&str>,
    new_id: &str,
) -> (next: TextMap<String>)
    ensures
        next@ == moved_heads(current@, maybe_text(workspace_id), new_id@),
        forall|other: Seq<char>|
            maybe_text(workspace_id) != Some(other) ==> (#[trigger] next@.contains_key(other)
                <==> current@.contains_key(other)) && next@[other] == current@[other],
        workspace_id matches Some(own) ==> own@.len() > 0 ==> next@.contains_key(own@)
            && next@[own@] == new_id@,
        workspace_id matches Some(own) ==> own@.len() == 0 ==> next@ == current@,
{
    let mut next = current.duplicate();
    match workspace_id {
        Some(workspace_id) => {
            if !is_blank(workspace_id) {
                next.insert(workspace_id, new_id.to_owned());
            }
        },
        None => {},
    }
    next
}

/// The operation heads in hex, in order.
pub fn op_heads_in_order(ids: &Vec<Vec<u8>>) -> (r: Vec<String>)
    ensures
        texts_ascend(models(r@)),
        models(r@).to_multiset() == hex_texts(models(ids@)).to_multiset(),
{
    sorted_texts(&to_hex_all(ids.as_slice()))
}

// ─── Heads on the wire ────────────────────────────────────────────────────────

/// The bytes a head stands for; nothing where it is not hex.
pub open spec fn head_bytes(head: Seq<char>) -> Seq<u8> {
    match hex_value(head) {
        Ok(bytes) => bytes,
        Err(_) => Seq::empty(),
    }
}

/// Every head as bytes, one for one.
pub open spec fn wire_heads(heads: Seq<Seq<char>>) -> Seq<Seq<u8>> {
    heads.map_values(|head: Seq<char>| head_bytes(head))
}

/// The heads that are hex, as bytes.
pub open spec fn readable_heads(heads: Seq<Seq<char>>) -> Seq<Seq<u8>>
    decreases heads.len(),
{
    if heads.len() == 0 {
        Seq::empty()
    } else {
        match hex_value(heads.last()) {
            Ok(bytes) => readable_heads(heads.drop_last()).push(bytes),
            Err(_) => readable_heads(heads.drop_last()),
        }
    }
}

/// Every head as bytes; one that is not hex is sent as no bytes at all.
pub fn head_ids_for_wire(heads: &Vec<String>) -> (r: Vec<Vec<u8>>)
    ensures
        models(r@) == wire_heads(models(heads@)),
        r@.len() == heads@.len(),
        forall|i: int|
            0 <= i < r@.len() ==> match hex_value(heads@[i]@) {
                Ok(bytes) => (#[trigger] r@[i])@ == bytes,
                Err(_) => r@[i]@.len() == 0,
            },
{
    let mut r: Vec<Vec<u8>> = Vec::new();
    let mut i: usize = 0;
    while i < heads.len()
        invariant
            i <= heads@.len(),
            models(r@) == wire_heads(models(heads@)).take(i as int),
            r@.len() == i,
            forall|j: int|
                0 <= j < i ==> match hex_value(heads@[j]@) {
                    Ok(bytes) => (#[trigger] r@[j])@ == bytes,
                    Err(_) => r@[j]@.len() == 0,
                },
        decreases heads@.len() - i,
    {
        let ghost before = models(r@);
        let bytes: Vec<u8> = match from_hex(heads[i].as_str()) {
            Ok(bytes) => bytes,
            Err(_) => Vec::new(),
        };
        assert(bytes@ =~= head_bytes(heads@[i as int]@));
        r.push(bytes);
        assert(models(r@) =~= before.push(bytes@));
        assert(wire_heads(models(heads@)).take(i + 1) =~= wire_heads(models(heads@)).take(
            i as int,
        ).push(bytes@));
        i = i + 1;
    }
    assert(wire_heads(models(heads@)).take(i as int) =~= wire_heads(models(heads@)));
    r
}

/// The heads as bytes, without those that are not hex.
pub fn readable_head_ids(heads: &Vec<String>) -> (r: Vec<Vec<u8>>)
    ensures
        models(r@) == readable_heads(models(heads@)),
{
    let mut r: Vec<Vec<u8>> = Vec::new();
    assert(models(r@) =~= Seq::<Seq<u8>>::empty());
    let mut i: usize = 0;
    while i < heads.len()
        invariant
            i <= heads@.len(),
            models(r@) == readable_heads(models(heads@).take(i as int)),
        decreases heads@.len() - i,
    {
        let ghost before = models(r@);
        let ghost next = models(heads@).take(i + 1);
        assert(next.drop_last() =~= models(heads@).take(i as int));
        assert(next.last() == heads@[i as int]@);
        match from_hex(heads[i].as_str()) {
            Ok(bytes) => {
                r.push(bytes);
                assert(models(r@) =~= before.push(bytes@));
            },
            Err(_) => {},
        }
        i = i + 1;
    }
    assert(models(heads@).take(i as int) =~= models(heads@));
    r
}

/// The workspace map as it is sent: each workspace with the bytes of its head,
/// in the order of the names.
pub fn workspace_heads_for_wire(heads: &TextMap<String>) -> (r: Vec<(String, Vec<u8>)>)
    ensures
        r@.len() == heads.items().len(),
        forall|i: int|
            0 <= i < r@.len() ==> (#[trigger] r@[i]).0@ == heads.items()[i].0@ && r@[i].1@
                == head_bytes(heads.items()[i].1@),
        forall|i: int|
            0 <= i < r@.len() ==> match hex_value(heads.items()[i].1@) {
                Ok(bytes) => (#[trigger] r@[i]).1@ == bytes,
                Err(_) => r@[i].1@.len() == 0,
            },
{
    let entries = heads.entries();
    let mut r: Vec<(String, Vec<u8>)> = Vec::new();
    let mut i: usize = 0;
    while i < entries.len()
        invariant
            i <= entries@.len(),
            entries@ == heads.items(),
            r@.len() == i,
            forall|j: int|
                0 <= j < i ==> (#[trigger] r@[j]).0@ == entries@[j].0@ && r@[j].1@ == head_bytes(
                    entries@[j].1@,
                ),
        decreases entries@.len() - i,
    {
        let bytes: Vec<u8> = match from_hex(entries[i].1.as_str()) {
            Ok(bytes) => bytes,
            Err(_) => Vec::new(),
        };
        assert(bytes@ =~= head_bytes(entries@[i as int].1@));
        r.push((entries[i].0.clone(), bytes));
        i = i + 1;
    }
    r
}

// ─── Moving the heads ─────────────────────────────────────────────────────────

/// The head set and what is recorded beside it.
#[derive(Debug, PartialEq, Eq)]
pub struct HeadsState {
    pub version: u64,
    /// The operation heads, as hex.
    pub heads: Vec<String>,
    pub workspace_heads: TextMap<String>,
}

/// The answer to a request to move the heads.
#[derive(Debug, PartialEq, Eq)]
pub struct UpdateResult {
    pub ok: bool,
    pub heads: Vec<Vec<u8>>,
    pub version: u64,
    pub workspace_heads: TextMap<String>,
}

/// An answer, as a mathematical value.
#[verifier::ext_equal]
pub struct UpdateModel {
    pub ok: bool,
    pub heads: Seq<Seq<u8>>,
    pub version: u64,
    pub workspace_heads: Map<Seq<char>, Seq<char>>,
}

impl View for UpdateResult {
    type V = UpdateModel;

    open spec fn view(&self) -> UpdateModel {
        UpdateModel {
            ok: self.ok,
            heads: models(self.heads@),
            version: self.version,
            workspace_heads: self.workspace_heads@,
        }
    }
}

/// The answer of a server at `metadata` with these heads that moved nothing.
pub open spec fn refused_update(metadata: MetadataModel, heads: Seq<Seq<char>>) -> UpdateModel {
    UpdateModel {
        ok: false,
        heads: wire_heads(heads),
        version: metadata.version,
        workspace_heads: metadata.workspace_heads,
    }
}

/// What is recorded once a publish of `new_id` has moved the heads.
pub open spec fn next_metadata(
    metadata: MetadataModel,
    workspace_id: Option<Seq<char>>,
    new_id: Seq<u8>,
) -> MetadataModel {
    MetadataModel {
        version: (metadata.version + 1) as u64,
        workspace_heads: moved_heads(metadata.workspace_heads, workspace_id, hex_text(new_id)),
    }
}

/// The answer to a publish that moved the heads to `heads`.
pub open spec fn granted_update(metadata: MetadataModel, heads: Seq<Seq<char>>) -> UpdateModel {
    UpdateModel {
        ok: true,
        heads: wire_heads(heads),
        version: metadata.version,
        workspace_heads: metadata.workspace_heads,
    }
}

pub open spec fn other_than(new_id: Seq<u8>) -> spec_fn(Seq<u8>) -> bool {
    |id: Seq<u8>| id != new_id
}

/// The ids a publish retires: those it names, but never the operation it adds.
pub open spec fn retired_ids(old_ids: Seq<Seq<u8>>, new_id: Seq<u8>) -> Seq<Seq<u8>> {
    old_ids.filter(other_than(new_id))
}

/// How a request to move the heads starts.
#[derive(Debug, PartialEq, Eq)]
pub enum UpdateStart {
    /// The request named another version: answer with the state it has to start
    /// from.
    Refuse(UpdateResult),
    /// Retire these heads and add the new operation.
    Retire(Vec<Vec<u8>>),
}

pub open spec fn update_starts(
    start: UpdateStart,
    metadata: MetadataModel,
    heads: Seq<Seq<char>>,
    old_ids: Seq<Seq<u8>>,
    new_id: Seq<u8>,
    expected_version: u64,
) -> bool {
    if metadata.version != expected_version {
        start matches UpdateStart::Refuse(result) && result@ == refused_update(metadata, heads)
    } else {
        start matches UpdateStart::Retire(ids) && models(ids@) == retired_ids(old_ids, new_id)
    }
}

/// Decide a request to move the heads from `expected_version`.
pub fn start_update(
    metadata: &HeadsMetadata,
    heads: &Vec<String>,
    old_ids: &Vec<Vec<u8>>,
    new_id: &[u8],
    expected_version: u64,
) -> (start: UpdateStart)
    ensures
        update_starts(
            start,
            metadata@,
            models(heads@),
            models(old_ids@),
            new_id@,
            expected_version,
        ),
        match start {
            UpdateStart::Refuse(result) => metadata.version != expected_version && !result.ok
                && result.version == metadata.version && result.workspace_heads@
                == metadata.workspace_heads@,
            UpdateStart::Retire(ids) => metadata.version == expected_version && forall|
                id: Seq<u8>,
            | #[trigger]
                models(ids@).contains(id) <==> models(old_ids@).contains(id) && id != new_id@,
        },
{
    if metadata.version != expected_version {
        return UpdateStart::Refuse(
            UpdateResult {
                ok: false,
                heads: head_ids_for_wire(heads),
                version: metadata.version,
                workspace_heads: metadata.workspace_heads.duplicate(),
            },
        );
    }
    let ghost kept = other_than(new_id@);
    let mut ids: Vec<Vec<u8>> = Vec::new();
    let mut i: usize = 0;
    proof {
        reveal(Seq::filter);
        assert(models(ids@) =~= models(old_ids@).take(0).filter(kept));
    }
    while i < old_ids.len()
        invariant
            i <= old_ids@.len(),
            kept == other_than(new_id@),
            models(ids@) == models(old_ids@).take(i as int).filter(kept),
        decreases old_ids@.len() - i,
    {
        let ghost before = models(ids@);
        proof {
            let next = models(old_ids@).take(i + 1);
            assert(next.drop_last() =~= models(old_ids@).take(i as int));
            assert(next.last() == old_ids@[i as int]@);
            reveal(Seq::filter);
        }
        if !same_bytes(old_ids[i].as_slice(), new_id) {
            let id = copied(old_ids[i].as_slice());
            ids.push(id);
            assert(models(ids@) =~= before.push(id@));
        }
        i = i + 1;
    }
    assert(models(old_ids@).take(i as int) =~= models(old_ids@));
    proof {
        assert forall|id: Seq<u8>| #[trigger] models(ids@).contains(id) <==> models(
            old_ids@,
        ).contains(id) && id != new_id@ by {
            the_ids_a_publish_names_are_retired(models(old_ids@), new_id@, id);
        }
    }
    UpdateStart::Retire(ids)
}

/// A publish retires an id exactly when it names it and the id is not that of the
/// operation it adds.
pub proof fn the_ids_a_publish_names_are_retired(
    old_ids: Seq<Seq<u8>>,
    new_id: Seq<u8>,
    id: Seq<u8>,
)
    ensures
        retired_ids(old_ids, new_id).contains(id) <==> old_ids.contains(id) && id != new_id,
{
    let kept = other_than(new_id);
    if retired_ids(old_ids, new_id).contains(id) {
        let retired = retired_ids(old_ids, new_id);
        let i = choose|i: int| 0 <= i < retired.len() && retired[i] == id;
        old_ids.lemma_filter_contains_rev(kept, id);
        old_ids.lemma_filter_pred(kept, i);
    }
    if old_ids.contains(id) && id != new_id {
        let i = choose|i: int| 0 <= i < old_ids.len() && old_ids[i] == id;
        old_ids.lemma_filter_contains(kept, i);
    }
}

/// What to record and what to answer once the heads moved to `heads`.
pub fn finish_update(
    metadata: &HeadsMetadata,
    heads: &Vec<String>,
    new_id: &[u8],
    workspace_id: Option<&str>,
) -> (r: (HeadsMetadata, UpdateResult))
    requires
        metadata.version < u64::MAX,
    ensures
        r.0@ == next_metadata(metadata@, maybe_text(workspace_id), new_id@),
        r.1@ == granted_update(r.0@, models(heads@)),
        r.0.version == metadata.version + 1,
        r.1.ok,
        r.1.version == metadata.version + 1,
        r.1.workspace_heads@ == r.0.workspace_heads@,
        r.1.heads@.len() == heads@.len(),
        forall|other: Seq<char>|
            maybe_text(workspace_id) != Some(other) ==> (#[trigger] r.0.workspace_heads@.contains_key(
                other,
            ) <==> metadata.workspace_heads@.contains_key(other)) && r.0.workspace_heads@[other]
                == metadata.workspace_heads@[other],
        workspace_id matches Some(own) ==> own@.len() > 0 ==> r.0.workspace_heads@.contains_key(
            own@,
        ) && r.0.workspace_heads@[own@] == hex_text(new_id@),
        workspace_id matches Some(own) ==> own@.len() == 0 ==> r.0.workspace_heads@
            == metadata.workspace_heads@,
{
    let new_hex = to_hex(new_id);
    let next = updated_workspace_heads(&metadata.workspace_heads, workspace_id, new_hex.as_str());
    let result = UpdateResult {
        ok: true,
        heads: head_ids_for_wire(heads),
        version: metadata.version + 1,
        workspace_heads: next.duplicate(),
    };
    (HeadsMetadata { version: metadata.version + 1, workspace_heads: next }, result)
}

/// The head set after `new_id` was added and the retired ids left.
pub open spec fn heads_after(
    heads: Set<Seq<u8>>,
    old_ids: Seq<Seq<u8>>,
    new_id: Seq<u8>,
) -> Set<Seq<u8>> {
    heads.difference(retired_ids(old_ids, new_id).to_set()).insert(new_id)
}

/// The head set after a publish, id by id: the new operation is a head, and of the
/// others those that were heads and that the publish does not name.
pub proof fn a_publish_leaves_the_heads_it_does_not_name(
    heads: Set<Seq<u8>>,
    old_ids: Seq<Seq<u8>>,
    new_id: Seq<u8>,
    id: Seq<u8>,
)
    ensures
        heads_after(heads, old_ids, new_id).contains(id) <==> id == new_id || (heads.contains(id)
            && !old_ids.contains(id)),
        old_ids.contains(id) && id != new_id ==> !heads_after(heads, old_ids, new_id).contains(id),
{
    the_ids_a_publish_names_are_retired(old_ids, new_id, id);
}

/// Which of two starts a request gets is decided by the versions alone: it is
/// refused exactly when it names another version than the one recorded, with the
/// state as it is, and else it retires every id it names but the new one.
pub proof fn a_request_starts_by_its_version(
    start: UpdateStart,
    metadata: MetadataModel,
    heads: Seq<Seq<char>>,
    old_ids: Seq<Seq<u8>>,
    new_id: Seq<u8>,
    expected_version: u64,
)
    requires
        update_starts(start, metadata, heads, old_ids, new_id, expected_version),
    ensures
        match start {
            UpdateStart::Refuse(result) => metadata.version != expected_version && !result.ok
                && result.version == metadata.version && result.workspace_heads@
                == metadata.workspace_heads && result.heads@.len() == heads.len() && forall|i: int|
                0 <= i < heads.len() ==> match hex_value(heads[i]) {
                    Ok(bytes) => (#[trigger] result.heads@[i])@ == bytes,
                    Err(_) => result.heads@[i]@.len() == 0,
                },
            UpdateStart::Retire(ids) => metadata.version == expected_version && forall|
                id: Seq<u8>,
            | #[trigger]
                models(ids@).contains(id) <==> old_ids.contains(id) && id != new_id,
        },
{
    match start {
        UpdateStart::Refuse(result) => {
            assert(models(result.heads@) == wire_heads(heads));
            assert forall|i: int| 0 <= i < heads.len() implies match hex_value(heads[i]) {
                Ok(bytes) => (#[trigger] result.heads@[i])@ == bytes,
                Err(_) => result.heads@[i]@.len() == 0,
            } by {
                assert(models(result.heads@)[i] == wire_heads(heads)[i]);
            }
        },
        UpdateStart::Retire(ids) => {
            assert forall|id: Seq<u8>| #[trigger] models(ids@).contains(id) <==> old_ids.contains(
                id,
            ) && id != new_id by {
                the_ids_a_publish_names_are_retired(old_ids, new_id, id);
            }
        },
    }
}

/// The answer to a publish that moved the heads carries what was recorded: the next
/// version, the workspace map with the publisher's entry at the new operation, and
/// the heads as bytes.
pub proof fn a_granted_publish_answers_what_it_recorded(
    metadata: MetadataModel,
    workspace_id: Option<Seq<char>>,
    new_id: Seq<u8>,
    heads: Seq<Seq<char>>,
)
    requires
        metadata.version < u64::MAX,
    ensures
        ({
            let next = next_metadata(metadata, workspace_id, new_id);
            let answer = granted_update(next, heads);
            &&& answer.ok
            &&& next.version == metadata.version + 1
            &&& answer.version == metadata.version + 1
            &&& answer.workspace_heads == next.workspace_heads
            &&& answer.heads.len() == heads.len()
            &&& forall|i: int|
                0 <= i < heads.len() ==> match hex_value(heads[i]) {
                    Ok(bytes) => #[trigger] answer.heads[i] == bytes,
                    Err(_) => answer.heads[i].len() == 0,
                }
            &&& match workspace_id {
                Some(own) => own.len() == 0 ==> next.workspace_heads == metadata.workspace_heads,
                None => next.workspace_heads == metadata.workspace_heads,
            }
            &&& workspace_id matches Some(own) ==> own.len() > 0 ==> next.workspace_heads
                == metadata.workspace_heads.insert(own, hex_text(new_id))
        }),
{
}

/// The heads that are hex come one by one and in order: those of two lists behind
/// each other are those of the first and then those of the second, and a list of one
/// gives its bytes where it is hex and nothing where it is not.
pub proof fn readable_heads_come_one_by_one(first: Seq<Seq<char>>, second: Seq<Seq<char>>, head: Seq<char>)
    ensures
        readable_heads(first + second) == readable_heads(first) + readable_heads(second),
        readable_heads(seq![head]) == (match hex_value(head) {
            Ok(bytes) => seq![bytes],
            Err(_) => Seq::<Seq<u8>>::empty(),
        }),
    decreases second.len(),
{
    assert(seq![head].drop_last() =~= Seq::<Seq<char>>::empty());
    assert(readable_heads(seq![head].drop_last()) =~= Seq::<Seq<u8>>::empty());
    if second.len() == 0 {
        assert(first + second =~= first);
        assert(readable_heads(first) + readable_heads(second) =~= readable_heads(first));
    } else {
        assert((first + second).drop_last() =~= first + second.drop_last());
        assert((first + second).last() == second.last());
        readable_heads_come_one_by_one(first, second.drop_last(), head);
        assert(readable_heads(first + second) =~= readable_heads(first) + readable_heads(second));
    }
}

/// Two publishes that start from the same version cannot both move the heads:
/// once the first is recorded, the second is refused, and it is told the version
/// that the first one made.
pub proof fn one_publish_wins(
    metadata: MetadataModel,
    heads: Seq<Seq<char>>,
    workspace_id: Option<Seq<char>>,
    new_id: Seq<u8>,
    other_old_ids: Seq<Seq<u8>>,
    other_new_id: Seq<u8>,
    second: UpdateStart,
)
    requires
        metadata.version < u64::MAX,
        update_starts(
            second,
            next_metadata(metadata, workspace_id, new_id),
            heads,
            other_old_ids,
            other_new_id,
            metadata.version,
        ),
    ensures
        second matches UpdateStart::Refuse(result) && !result.ok && result.version
            == metadata.version + 1,
{
}

/// A publish moves the version by one and touches the entry of no workspace but
/// its own.
pub proof fn a_publish_moves_one_workspace(
    metadata: MetadataModel,
    workspace_id: Seq<char>,
    new_id: Seq<u8>,
    other: Seq<char>,
)
    requires
        metadata.version < u64::MAX,
        workspace_id.len() > 0,
        other != workspace_id,
    ensures
        next_metadata(metadata, Some(workspace_id), new_id).version == metadata.version + 1,
        next_metadata(metadata, Some(workspace_id), new_id).workspace_heads[workspace_id]
            == hex_text(new_id),
        next_metadata(metadata, Some(workspace_id), new_id).workspace_heads.contains_key(other)
            == metadata.workspace_heads.contains_key(other),
        metadata.workspace_heads.contains_key(other) ==> next_metadata(
            metadata,
            Some(workspace_id),
            new_id,
        ).workspace_heads[other] == metadata.workspace_heads[other],
{
}

/// The new operation is a head afterwards, whatever the publish retires, and a
/// head that the publish does not name stays.
pub proof fn concurrent_heads_are_kept(
    heads: Set<Seq<u8>>,
    old_ids: Seq<Seq<u8>>,
    new_id: Seq<u8>,
    other: Seq<u8>,
)
    requires
        heads.contains(other),
        !old_ids.contains(other),
    ensures
        heads_after(heads, old_ids, new_id).contains(new_id),
        heads_after(heads, old_ids, new_id).contains(other),
{
    let retired = retired_ids(old_ids, new_id);
    if retired.contains(other) {
        old_ids.lemma_filter_contains_rev(other_than(new_id), other);
    }
}

// ─── Watchers ─────────────────────────────────────────────────────────────────

/// Who waits for the heads to move: for each watcher, in the order in which they
/// registered, the last version it was told of.
#[derive(Debug, PartialEq, Eq)]
pub struct WatcherTable {
    after: Vec<u64>,
}

impl View for WatcherTable {
    type V = Seq<u64>;

    closed spec fn view(&self) -> Seq<u64> {
        self.after@
    }
}

/// The watchers after they were told of `version`.
pub open spec fn told(watchers: Seq<u64>, version: u64) -> Seq<u64> {
    watchers.map_values(
        |after: u64|
            if after >= version {
                after
            } else {
                version
            },
    )
}

/// The positions of the watchers that have yet to hear of `version`.
pub open spec fn to_tell(watchers: Seq<u64>, version: u64) -> Seq<int>
    decreases watchers.len(),
{
    if watchers.len() == 0 {
        Seq::empty()
    } else if watchers.last() >= version {
        to_tell(watchers.drop_last(), version)
    } else {
        to_tell(watchers.drop_last(), version).push(watchers.len() - 1)
    }
}

pub open spec fn positions(v: Seq<usize>) -> Seq<int> {
    v.map_values(|p: usize| p as int)
}

impl WatcherTable {
    /// Nobody waits.
    pub fn new() -> (r: WatcherTable)
        ensures
            r@ == Seq::<u64>::empty(),
    {
        WatcherTable { after: Vec::new() }
    }

    /// Add a watcher that has heard of `after_version`.
    pub fn register(&mut self, after_version: u64)
        ensures
            final(self)@ == old(self)@.push(after_version),
    {
        self.after.push(after_version);
    }

    /// The heads moved to `version`: the positions of those to tell, each of
    /// which counts as told.
    pub fn notify(&mut self, version: u64) -> (tell: Vec<usize>)
        ensures
            positions(tell@) == to_tell(old(self)@, version),
            final(self)@ == told(old(self)@, version),
    {
        let ghost before = self.after@;
        let mut tell: Vec<usize> = Vec::new();
        let mut i: usize = 0;
        assert(positions(tell@) =~= Seq::<int>::empty());
        while i < self.after.len()
            invariant
                i <= self.after@.len(),
                self.after@.len() == before.len(),
                positions(tell@) == to_tell(before.take(i as int), version),
                forall|j: int| 0 <= j < i ==> #[trigger] self.after@[j] == told(before, version)[j],
                forall|j: int| i <= j < before.len() ==> #[trigger] self.after@[j] == before[j],
                before == old(self)@,
            decreases before.len() - i,
        {
            let ghost so_far = positions(tell@);
            assert(before.take(i + 1).drop_last() =~= before.take(i as int));
            assert(before.take(i + 1).last() == self.after@[i as int]);
            if self.after[i] < version {
                self.after.set(i, version);
                tell.push(i);
                assert(positions(tell@) =~= so_far.push(i as int));
            }
            i = i + 1;
        }
        assert(before.take(i as int) =~= before);
        assert(self.after@ =~= told(before, version));
        tell
    }

    /// Drop every watcher, and say how many there were.
    pub fn cancel(&mut self) -> (count: usize)
        ensures
            count == old(self)@.len(),
            final(self)@ == Seq::<u64>::empty(),
    {
        let count: usize = self.after.len();
        self.after.clear();
        count
    }
}

/// What a new watcher is told at once: the version and the heads, where it has
/// not heard of them yet.
pub fn catch_up(after_version: u64, state: &HeadsState) -> (r: Option<(u64, Vec<Vec<u8>>)>)
    ensures
        match r {
            Some((version, heads)) => after_version < state.version && version == state.version
                && models(heads@) == readable_heads(models(state.heads@)),
            None => after_version >= state.version,
        },
{
    if after_version < state.version {
        Some((state.version, readable_head_ids(&state.heads)))
    } else {
        None
    }
}

/// A watcher hears of a version once: told of it, nobody is told of it again,
/// nor of an older one.
pub proof fn watchers_hear_once(watchers: Seq<u64>, version: u64, again: u64)
    requires
        again <= version,
    ensures
        to_tell(told(watchers, version), again) == Seq::<int>::empty(),
        told(told(watchers, version), again) == told(watchers, version),
    decreases watchers.len(),
{
    if watchers.len() > 0 {
        watchers_hear_once(watchers.drop_last(), version, again);
        assert(told(watchers, version).drop_last() =~= told(watchers.drop_last(), version));
    }
    assert(told(told(watchers, version), again) =~= told(watchers, version));
}

/// Nobody forgets, and whoever was behind is at the version that was told; those who are
/// told are named once each, in the order in which they registered.
pub proof fn telling_moves_those_behind(watchers: Seq<u64>, version: u64, i: int)
    requires
        0 <= i < watchers.len(),
    ensures
        told(watchers, version).len() == watchers.len(),
        told(watchers, version)[i] >= watchers[i],
        told(watchers, version)[i] >= version,
        told(watchers, version)[i] == watchers[i] || told(watchers, version)[i] == version,
        forall|a: int|
            0 <= a < to_tell(watchers, version).len() ==> 0 <= #[trigger] to_tell(
                watchers,
                version,
            )[a] < watchers.len(),
        forall|a: int, b: int|
            0 <= a < b < to_tell(watchers, version).len() ==> #[trigger] to_tell(
                watchers,
                version,
            )[a] < #[trigger] to_tell(watchers, version)[b],
{
    lemma_told_in_order(watchers, version);
}

proof fn lemma_told_in_order(watchers: Seq<u64>, version: u64)
    ensures
        forall|a: int|
            0 <= a < to_tell(watchers, version).len() ==> 0 <= #[trigger] to_tell(
                watchers,
                version,
            )[a] < watchers.len(),
        forall|a: int, b: int|
            0 <= a < b < to_tell(watchers, version).len() ==> #[trigger] to_tell(
                watchers,
                version,
            )[a] < #[trigger] to_tell(watchers, version)[b],
    decreases watchers.len(),
{
    if watchers.len() > 0 {
        lemma_told_in_order(watchers.drop_last(), version);
        let before = to_tell(watchers.drop_last(), version);
        let all = to_tell(watchers, version);
        assert forall|a: int| 0 <= a < all.len() implies 0 <= #[trigger] all[a] < watchers.len() by {
            if a < before.len() {
                assert(all[a] == before[a]);
            }
        }
        assert forall|a: int, b: int| 0 <= a < b < all.len() implies #[trigger] all[a]
            < #[trigger] all[b] by {
            assert(all[a] == before[a]);
            if b < before.len() {
                assert(all[b] == before[b]);
            }
        }
    }
}

/// Nobody who has yet to hear of a version is passed over.
pub proof fn no_watcher_is_passed_over(watchers: Seq<u64>, version: u64, i: int)
    requires
        0 <= i < watchers.len(),
    ensures
        to_tell(watchers, version).contains(i) <==> watchers[i] < version,
    decreases watchers.len(),
{
    let front = watchers.drop_last();
    let rest = to_tell(front, version);
    lemma_told_positions(front, version);
    if i < front.len() {
        no_watcher_is_passed_over(front, version, i);
        let all = to_tell(watchers, version);
        if rest.contains(i) {
            let k = choose|k: int| 0 <= k < rest.len() && rest[k] == i;
            assert(all[k] == i);
        }
        if all.contains(i) {
            let k = choose|k: int| 0 <= k < all.len() && all[k] == i;
            assert(rest[k] == i);
        }
    } else {
        if watchers[i] < version {
            assert(to_tell(watchers, version)[rest.len() as int] == i);
        }
    }
}

proof fn lemma_told_positions(watchers: Seq<u64>, version: u64)
    ensures
        forall|k: int|
            0 <= k < to_tell(watchers, version).len() ==> 0 <= #[trigger] to_tell(
                watchers,
                version,
            )[k] < watchers.len(),
    decreases watchers.len(),
{
    if watchers.len() > 0 {
        lemma_told_positions(watchers.drop_last(), version);
        let rest = to_tell(watchers.drop_last(), version);
        let all = to_tell(watchers, version);
        assert forall|k: int| 0 <= k < all.len() implies 0 <= #[trigger] all[k] < watchers.len() by {
            if k < rest.len() {
                assert(all[k] == rest[k]);
            }
        }
    }
}

/// Where nobody is ahead of the heads, everybody hears of the next publish, and
/// nobody is ahead of the heads after it. Nor is a watcher that registers.
pub proof fn everybody_hears_of_a_publish(
    watchers: Seq<u64>,
    metadata: MetadataModel,
    workspace_id: Option<Seq<char>>,
    new_id: Seq<u8>,
)
    requires
        metadata.version < u64::MAX,
        forall|i: int| 0 <= i < watchers.len() ==> #[trigger] watchers[i] <= metadata.version,
    ensures
        ({
            let version = next_metadata(metadata, workspace_id, new_id).version;
            &&& forall|i: int|
                0 <= i < watchers.len() ==> #[trigger] to_tell(watchers, version).contains(i)
            &&& forall|i: int|
                0 <= i < watchers.len() ==> #[trigger] told(watchers, version)[i] == version
        }),
        forall|i: int|
            0 <= i <= watchers.len() ==> #[trigger] watchers.push(metadata.version)[i]
                <= metadata.version,
{
    let version = next_metadata(metadata, workspace_id, new_id).version;
    assert forall|i: int| 0 <= i < watchers.len() implies #[trigger] to_tell(
        watchers,
        version,
    ).contains(i) by {
        no_watcher_is_passed_over(watchers, version, i);
        assert(watchers[i] <= metadata.version);
    }
}

// ─── Operation prefixes ───────────────────────────────────────────────────────

pub open spec fn starts_with(text: Seq<char>, prefix: Seq<char>) -> bool {
    prefix.len() <= text.len() && text.take(prefix.len() as int) == prefix
}

/// A text starts with a prefix exactly when it is the prefix and something behind it.
pub proof fn a_text_is_its_prefix_and_the_rest(text: Seq<char>, prefix: Seq<char>, rest: Seq<char>)
    ensures
        starts_with(prefix + rest, prefix),
        starts_with(text, prefix) ==> text == prefix + text.skip(prefix.len() as int),
{
    assert((prefix + rest).take(prefix.len() as int) =~= prefix);
    if starts_with(text, prefix) {
        assert(text =~= prefix + text.skip(prefix.len() as int));
    }
}

/// The names that start with `prefix`.
pub open spec fn matching(names: Seq<Seq<char>>, prefix: Seq<char>) -> Seq<Seq<char>> {
    names.filter(|name: Seq<char>| starts_with(name, prefix))
}

/// What a prefix of operation ids stands for: the word for it, and the id where
/// it stands for one.
pub open spec fn prefix_answer(names: Seq<Seq<char>>, prefix: Seq<char>) -> Result<
    (Seq<char>, Option<Seq<u8>>),
    HexError,
> {
    let found = matching(names, prefix);
    if found.len() == 0 {
        Ok(("noMatch"@, None))
    } else if found.len() == 1 {
        match hex_value(found[0]) {
            Ok(id) => Ok(("singleMatch"@, Some(id))),
            Err(e) => Err(e),
        }
    } else {
        Ok(("ambiguous"@, None))
    }
}

pub fn has_prefix(text: &str, prefix: &str) -> (r: bool)
    ensures
        r == starts_with(text@, prefix@),
{
    let chars = chars_of(text);
    let wanted = chars_of(prefix);
    if wanted.len() > chars.len() {
        return false;
    }
    let mut i: usize = 0;
    while i < wanted.len()
        invariant
            i <= wanted@.len() <= chars@.len(),
            chars@ == text@,
            wanted@ == prefix@,
            forall|j: int| 0 <= j < i ==> #[trigger] chars@[j] == wanted@[j],
        decreases wanted@.len() - i,
    {
        if chars[i] != wanted[i] {
            assert(text@.take(prefix@.len() as int)[i as int] != prefix@[i as int]);
            return false;
        }
        i = i + 1;
    }
    assert(text@.take(prefix@.len() as int) =~= prefix@);
    true
}

/// Find the one operation whose id starts with `hex_prefix` among the names of
/// those stored.
pub fn resolve_operation_id_prefix(names: &Vec<String>, hex_prefix: &str) -> (r: Result<
    (String, Option<Vec<u8>>),
    HexError,
>)
    ensures
        match (r, prefix_answer(models(names@), hex_prefix@)) {
            (Ok(answer), Ok(said)) => answer.0@ == said.0 && bytes_view(answer.1)
                == said.1,
            (Err(e), Err(said)) => e == said,
            _ => false,
        },
{
    let ghost hit = |name: Seq<char>| starts_with(name, hex_prefix@);
    let mut found: Vec<String> = Vec::new();
    let mut i: usize = 0;
    proof {
        reveal(Seq::filter);
        assert(models(found@) =~= models(names@).take(0).filter(hit));
    }
    while i < names.len()
        invariant
            i <= names@.len(),
            hit == (|name: Seq<char>| starts_with(name, hex_prefix@)),
            models(found@) == models(names@).take(i as int).filter(hit),
        decreases names@.len() - i,
    {
        let ghost before = models(found@);
        proof {
            let next = models(names@).take(i + 1);
            assert(next.drop_last() =~= models(names@).take(i as int));
            assert(next.last() == names@[i as int]@);
            reveal(Seq::filter);
        }
        if has_prefix(names[i].as_str(), hex_prefix) {
            found.push(names[i].clone());
            assert(models(found@) =~= before.push(names@[i as int]@));
        }
        i = i + 1;
    }
    assert(models(names@).take(i as int) =~= models(names@));
    if found.len() == 0 {
        return Ok(("noMatch".to_owned(), None));
    }
    if found.len() == 1 {
        assert(models(found@)[0] == found@[0]@);
        return match from_hex(found[0].as_str()) {
            Ok(id) => Ok(("singleMatch".to_owned(), Some(id))),
            Err(e) => Err(e),
        };
    }
    Ok(("ambiguous".to_owned(), None))
}

/// A prefix that is a whole stored id stands for that id, unless it is a prefix
/// of another one too.
pub proof fn a_whole_id_resolves(names: Seq<Seq<char>>, i: int, id: Seq<u8>)
    requires
        0 <= i < names.len(),
        names[i] == hex_text(id),
        forall|j: int|
            0 <= j < names.len() && j != i ==> !starts_with(#[trigger] names[j], names[i]),
    ensures
        prefix_answer(names, names[i]) == Ok::<(Seq<char>, Option<Seq<u8>>), HexError>(
            ("singleMatch"@, Some(id)),
        ),
{
    lemma_one_match(names, names[i], i);
    hex_reads_back(id);
}

proof fn lemma_one_match(names: Seq<Seq<char>>, prefix: Seq<char>, i: int)
    requires
        0 <= i < names.len(),
        names[i] == prefix,
        forall|j: int|
            0 <= j < names.len() && j != i ==> !starts_with(#[trigger] names[j], prefix),
    ensures
        matching(names, prefix) == seq![prefix],
    decreases names.len(),
{
    reveal(Seq::filter);
    let front = names.drop_last();
    let hit = |name: Seq<char>| starts_with(name, prefix);
    assert(prefix.take(prefix.len() as int) =~= prefix);
    if i == names.len() - 1 {
        lemma_no_match(front, prefix);
        assert(names.filter(hit) =~= seq![prefix]);
    } else {
        assert forall|j: int| 0 <= j < front.len() && j != i implies !starts_with(
            #[trigger] front[j],
            prefix,
        ) by {
            assert(front[j] == names[j]);
        }
        lemma_one_match(front, prefix, i);
        assert(!starts_with(names[names.len() - 1], prefix));
    }
}

proof fn lemma_no_match(names: Seq<Seq<char>>, prefix: Seq<char>)
    requires
        forall|j: int| 0 <= j < names.len() ==> !starts_with(#[trigger] names[j], prefix),
    ensures
        matching(names, prefix) == Seq::<Seq<char>>::empty(),
    decreases names.len(),
{
    reveal(Seq::filter);
    if names.len() > 0 {
        let front = names.drop_last();
        assert forall|j: int| 0 <= j < front.len() implies !starts_with(#[trigger] front[j], prefix) by {
            assert(front[j] == names[j]);
        }
        lemma_no_match(front, prefix);
        assert(!starts_with(names[names.len() - 1], prefix));
    }
}

/// A prefix stands for nothing exactly when no stored name starts with it, and for one id
/// exactly when one place in the list does; that name is then the id. Where two places do
/// it is ambiguous.
pub proof fn a_prefix_stands_for_its_only_match(
    names: Seq<Seq<char>>,
    prefix: Seq<char>,
    i: int,
    j: int,
)
    requires
        0 <= i < names.len(),
        0 <= j < names.len(),
    ensures
        prefix_answer(names, prefix) == Ok::<(Seq<char>, Option<Seq<u8>>), HexError>(
            ("noMatch"@, None),
        ) <==> forall|k: int| 0 <= k < names.len() ==> !starts_with(#[trigger] names[k], prefix),
        starts_with(names[i], prefix) && (forall|k: int|
            0 <= k < names.len() && k != i ==> !starts_with(#[trigger] names[k], prefix)) ==> (
        match hex_value(names[i]) {
            Ok(id) => prefix_answer(names, prefix) == Ok::<
                (Seq<char>, Option<Seq<u8>>),
                HexError,
            >(("singleMatch"@, Some(id))),
            Err(e) => prefix_answer(names, prefix) == Err::<
                (Seq<char>, Option<Seq<u8>>),
                HexError,
            >(e),
        }),
        i < j && starts_with(names[i], prefix) && starts_with(names[j], prefix) ==> prefix_answer(
            names,
            prefix,
        ) == Ok::<(Seq<char>, Option<Seq<u8>>), HexError>(("ambiguous"@, None)),
{
    reveal_strlit("noMatch");
    reveal_strlit("singleMatch");
    reveal_strlit("ambiguous");
    assert("noMatch"@.len() != "singleMatch"@.len());
    assert("noMatch"@.len() != "ambiguous"@.len());
    let found = matching(names, prefix);
    let starts = |name: Seq<char>| starts_with(name, prefix);
    if found.len() > 0 {
        names.lemma_filter_pred(starts, 0);
        names.lemma_filter_contains_rev(starts, found[0]);
    }
    if found.len() == 0 && exists|k: int|
        0 <= k < names.len() && starts_with(#[trigger] names[k], prefix) {
        let k = choose|k: int| 0 <= k < names.len() && starts_with(#[trigger] names[k], prefix);
        names.lemma_filter_contains(starts, k);
    }
    if starts_with(names[i], prefix) && (forall|k: int|
        0 <= k < names.len() && k != i ==> !starts_with(#[trigger] names[k], prefix)) {
        let front = names.take(i);
        let back = names.skip(i + 1);
        assert(names =~= front + seq![names[i]] + back);
        Seq::filter_distributes_over_add(front + seq![names[i]], back, starts);
        Seq::filter_distributes_over_add(front, seq![names[i]], starts);
        lemma_none_found(front, prefix);
        lemma_none_found(back, prefix);
        reveal(Seq::filter);
        assert(seq![names[i]].drop_last() =~= Seq::<Seq<char>>::empty());
        assert(seq![names[i]].filter(starts) =~= seq![names[i]]);
        assert(found =~= seq![names[i]]);
    }
    if i < j && starts_with(names[i], prefix) && starts_with(names[j], prefix) {
        let front = names.take(j);
        let back = names.skip(j);
        assert(names =~= front + back);
        Seq::filter_distributes_over_add(front, back, starts);
        front.lemma_filter_contains(starts, i);
        back.lemma_filter_contains(starts, 0);
        assert(front.filter(starts).len() > 0);
        assert(back.filter(starts).len() > 0);
    }
}

proof fn lemma_none_found(names: Seq<Seq<char>>, prefix: Seq<char>)
    requires
        forall|k: int| 0 <= k < names.len() ==> !starts_with(#[trigger] names[k], prefix),
    ensures
        matching(names, prefix).len() == 0,
{
    let found = matching(names, prefix);
    let starts = |name: Seq<char>| starts_with(name, prefix);
    if found.len() > 0 {
        names.lemma_filter_pred(starts, 0);
        names.lemma_filter_contains_rev(starts, found[0]);
        let k = choose|k: int| 0 <= k < names.len() && names[k] == found[0];
        assert(!starts_with(names[k], prefix));
    }
}

// ─── Objects ──────────────────────────────────────────────────────────────────

/// Which reader or writer of the backend an object goes through.
#[derive(Debug, Clone, Copy, PartialEq, Eq, Structural)]
pub enum ObjectRoute {
    File,
    Tree,
    Commit,
    /// The root commit, which is stored nowhere and made up on the spot.
    RootCommit,
    Symlink,
}

/// Why an object is served by no route.
#[derive(Debug, PartialEq, Eq)]
pub enum ObjectError {
    CopyUnsupported,
    UnknownKind(String),
    SymlinkNotText,
}

pub enum ObjectRefusal {
    CopyUnsupported,
    UnknownKind(Seq<char>),
    SymlinkNotText,
}

impl View for ObjectError {
    type V = ObjectRefusal;

    open spec fn view(&self) -> ObjectRefusal {
        match self {
            ObjectError::CopyUnsupported => ObjectRefusal::CopyUnsupported,
            ObjectError::UnknownKind(kind) => ObjectRefusal::UnknownKind(kind@),
            ObjectError::SymlinkNotText => ObjectRefusal::SymlinkNotText,
        }
    }
}

impl ObjectError {
    pub open spec fn text(self) -> Seq<char> {
        match self {
            ObjectError::CopyUnsupported => "copy objects not yet supported"@,
            ObjectError::UnknownKind(kind) => "unknown object kind: "@ + kind@,
            ObjectError::SymlinkNotText => "symlink target is not valid UTF-8"@,
        }
    }

    /// The sentence that names the error.
    pub fn message(&self) -> (s: String)
        ensures
            s@ == self.text(),
    {
        match self {
            ObjectError::CopyUnsupported => "copy objects not yet supported".to_owned(),
            ObjectError::UnknownKind(kind) => {
                let mut s = "unknown object kind: ".to_owned();
                s.append(kind.as_str());
                s
            },
            ObjectError::SymlinkNotText => "symlink target is not valid UTF-8".to_owned(),
        }
    }
}

/// The route of a kind.
pub open spec fn route_of(kind: Seq<char>) -> Result<ObjectRoute, ObjectRefusal> {
    if kind == "file"@ {
        Ok(ObjectRoute::File)
    } else if kind == "tree"@ {
        Ok(ObjectRoute::Tree)
    } else if kind == "commit"@ {
        Ok(ObjectRoute::Commit)
    } else if kind == "symlink"@ {
        Ok(ObjectRoute::Symlink)
    } else if kind == "copy"@ {
        Err(ObjectRefusal::CopyUnsupported)
    } else {
        Err(ObjectRefusal::UnknownKind(kind))
    }
}

/// Whether a route is the one that was said, or the error is.
pub open spec fn routed(
    r: Result<ObjectRoute, ObjectError>,
    said: Result<ObjectRoute, ObjectRefusal>,
) -> bool {
    match (r, said) {
        (Ok(route), Ok(s)) => route == s,
        (Err(e), Err(s)) => e@ == s,
        _ => false,
    }
}

fn route_kind(kind: &str) -> (r: Result<ObjectRoute, ObjectError>)
    ensures
        routed(r, route_of(kind@)),
{
    if same_text(kind, "file") {
        Ok(ObjectRoute::File)
    } else if same_text(kind, "tree") {
        Ok(ObjectRoute::Tree)
    } else if same_text(kind, "commit") {
        Ok(ObjectRoute::Commit)
    } else if same_text(kind, "symlink") {
        Ok(ObjectRoute::Symlink)
    } else if same_text(kind, "copy") {
        Err(ObjectError::CopyUnsupported)
    } else {
        Err(ObjectError::UnknownKind(kind.to_owned()))
    }
}

/// The route an object is read through. The root commit has one of its own.
pub open spec fn read_route_of(kind: Seq<char>, id: Seq<u8>, root: Seq<u8>) -> Result<
    ObjectRoute,
    ObjectRefusal,
> {
    if route_of(kind) == Ok::<ObjectRoute, ObjectRefusal>(ObjectRoute::Commit) && id == root {
        Ok(ObjectRoute::RootCommit)
    } else {
        route_of(kind)
    }
}

pub fn read_route(kind: &str, id: &[u8], root_commit_id: &[u8]) -> (r: Result<
    ObjectRoute,
    ObjectError,
>)
    ensures
        routed(r, read_route_of(kind@, id@, root_commit_id@)),
{
    match route_kind(kind) {
        Ok(route) => {
            if route == ObjectRoute::Commit && same_bytes(id, root_commit_id) {
                Ok(ObjectRoute::RootCommit)
            } else {
                Ok(route)
            }
        },
        Err(e) => Err(e),
    }
}

/// The route an object is written through. A symlink's target has to be text.
pub open spec fn write_route_of(kind: Seq<char>, data: Seq<u8>) -> Result<
    ObjectRoute,
    ObjectRefusal,
> {
    if route_of(kind) == Ok::<ObjectRoute, ObjectRefusal>(ObjectRoute::Symlink)
        && !vstd::utf8::valid_utf8(data) {
        Err(ObjectRefusal::SymlinkNotText)
    } else {
        route_of(kind)
    }
}

pub fn write_route(kind: &str, data: &Vec<u8>) -> (r: Result<ObjectRoute, ObjectError>)
    ensures
        routed(r, write_route_of(kind@, data@)),
{
    match route_kind(kind) {
        Ok(route) => {
            if route == ObjectRoute::Symlink {
                match text_from_utf8(copied(data.as_slice())) {
                    Some(_) => Ok(route),
                    None => Err(ObjectError::SymlinkNotText),
                }
            } else {
                Ok(route)
            }
        },
        Err(e) => Err(e),
    }
}

/// A kind is served by the route of its own name; a copy is refused, and so is a word that
/// names no kind, which the refusal repeats.
pub proof fn a_kind_is_served_by_its_own_route(kind: Seq<char>)
    ensures
        route_of(kind) == Ok::<ObjectRoute, ObjectRefusal>(ObjectRoute::File) <==> kind == "file"@,
        route_of(kind) == Ok::<ObjectRoute, ObjectRefusal>(ObjectRoute::Tree) <==> kind == "tree"@,
        route_of(kind) == Ok::<ObjectRoute, ObjectRefusal>(ObjectRoute::Commit) <==> kind
            == "commit"@,
        route_of(kind) == Ok::<ObjectRoute, ObjectRefusal>(ObjectRoute::Symlink) <==> kind
            == "symlink"@,
        route_of(kind) == Err::<ObjectRoute, ObjectRefusal>(ObjectRefusal::CopyUnsupported) <==> kind
            == "copy"@,
        route_of(kind) matches Err(ObjectRefusal::UnknownKind(said)) ==> said == kind,
        route_of(kind) != Ok::<ObjectRoute, ObjectRefusal>(ObjectRoute::RootCommit),
        route_of(kind) != Err::<ObjectRoute, ObjectRefusal>(ObjectRefusal::SymlinkNotText),
{
    reveal_strlit("file");
    reveal_strlit("tree");
    reveal_strlit("commit");
    reveal_strlit("symlink");
    reveal_strlit("copy");
    assert("file"@[0] == 'f' && "tree"@[0] == 't' && "commit"@[0] == 'c' && "symlink"@[0] == 's'
        && "copy"@[0] == 'c' && "copy"@.len() != "commit"@.len());
}

/// Reading and writing go by the route of the kind. Only the root commit is read by a route
/// of its own, and only a symlink whose target is not text is not written.
pub proof fn reads_and_writes_go_by_the_kind(
    kind: Seq<char>,
    id: Seq<u8>,
    root: Seq<u8>,
    data: Seq<u8>,
)
    ensures
        read_route_of(kind, id, root) == Ok::<ObjectRoute, ObjectRefusal>(ObjectRoute::RootCommit)
            <==> kind == "commit"@ && id == root,
        !(kind == "commit"@ && id == root) ==> read_route_of(kind, id, root) == route_of(kind),
        write_route_of(kind, data) == Err::<ObjectRoute, ObjectRefusal>(
            ObjectRefusal::SymlinkNotText,
        ) <==> kind == "symlink"@ && !vstd::utf8::valid_utf8(data),
        !(kind == "symlink"@ && !vstd::utf8::valid_utf8(data)) ==> write_route_of(kind, data)
            == route_of(kind),
{
    a_kind_is_served_by_its_own_route(kind);
}

} // verus!
