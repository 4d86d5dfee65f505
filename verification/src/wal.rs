//! WAL entry and index object formats for the bucket.
//!
//! One publish is one immutable WAL entry, keyed by the operation id, holding
//! the operation, its view, and the blobs that arrived since the previous
//! publish. The op-heads set is one index object, updated by compare-and-swap.
//!
//! An entry is modelled by [`EntryModel`]. What is written for an entry reads
//! back as the entry, and bytes that are accepted are exactly what would be
//! written for the entry that was read.
use vstd::prelude::*;
use vstd::string::*;

use crate::document::{
    entries_held, entries_of, number_held, number_of, read_struct, struct_read, texts_held,
    texts_of,
};
use crate::json::{
    field_names, fields_model, is_json_of, pairs_model, pretty_object, write_object, JsonField,
    JsonModel,
};
use crate::order::{copied, TextMap};
use crate::text::{decimal, maybe_text, models, push_decimal, same_text};
use crate::wire::{le32, le32_reads_back, le32_value, low_bytes_come_first};

verus! {

// ─── Bucket keys ──────────────────────────────────────────────────────────────

/// The single compare-and-swapped object naming the current op heads.
pub const INDEX_KEY: &'static str = "index/heads.json";

/// Key of the immutable WAL entry for an operation.
pub fn wal_key(op_hex: &str) -> (key: String)
    ensures
        key@ == "wal/"@ + op_hex@,
{
    let mut key = "wal/".to_owned();
    key.append(op_hex);
    key
}

/// Two operations never share a WAL entry.
pub proof fn wal_keys_are_distinct(a: Seq<char>, b: Seq<char>)
    requires
        "wal/"@ + a == "wal/"@ + b,
    ensures
        a == b,
{
    let n = "wal/"@.len() as int;
    assert(("wal/"@ + a).skip(n) =~= a);
    assert(("wal/"@ + b).skip(n) =~= b);
}

// ─── WAL entry ────────────────────────────────────────────────────────────────

/// `TDMWAL`, a zero byte, and the format's number.
pub open spec fn magic() -> Seq<u8> {
    seq![84u8, 68u8, 77u8, 87u8, 65u8, 76u8, 0u8, 1u8]
}

/// Why bytes are not a WAL entry, or why an entry cannot be written.
#[derive(Debug, Clone, Copy, PartialEq, Eq, Structural)]
pub enum WalError {
    /// A length reaches past what the machine can address.
    LengthOverflow,
    /// A length reaches past the end of the entry.
    Truncated,
    /// The entry does not start with the magic bytes.
    BadMagic,
    /// No record kind has this tag.
    UnknownKind(u8),
    /// Bytes follow the last record.
    TrailingBytes,
    /// A count or a payload length does not fit the 32-bit framing.
    FieldTooLarge(usize),
}

impl WalError {
    pub open spec fn text(self) -> Seq<char> {
        match self {
            WalError::LengthOverflow => "WAL entry length overflow"@,
            WalError::Truncated => "WAL entry truncated"@,
            WalError::BadMagic => "not a tandem WAL entry (bad magic)"@,
            WalError::UnknownKind(tag) => "unknown WAL record kind: "@ + decimal(tag as nat),
            WalError::TrailingBytes => "trailing bytes after WAL entry"@,
            WalError::FieldTooLarge(n) => "WAL entry field does not fit 32-bit framing: "@
                + decimal(n as nat),
        }
    }

    /// The sentence that names the error.
    pub fn message(&self) -> (s: String)
        ensures
            s@ == self.text(),
    {
        match self {
            WalError::LengthOverflow => "WAL entry length overflow".to_owned(),
            WalError::Truncated => "WAL entry truncated".to_owned(),
            WalError::BadMagic => "not a tandem WAL entry (bad magic)".to_owned(),
            WalError::UnknownKind(tag) => {
                let mut s = "unknown WAL record kind: ".to_owned();
                push_decimal(&mut s, *tag as u64);
                s
            },
            WalError::TrailingBytes => "trailing bytes after WAL entry".to_owned(),
            WalError::FieldTooLarge(n) => {
                let mut s = "WAL entry field does not fit 32-bit framing: ".to_owned();
                push_decimal(&mut s, *n as u64);
                s
            },
        }
    }
}

#[derive(Debug, Clone, Copy, PartialEq, Eq, Structural)]
pub enum RecordKind {
    Operation,
    View,
    File,
    Tree,
    Commit,
    Symlink,
}

impl RecordKind {
    pub open spec fn tag_of(self) -> u8 {
        match self {
            RecordKind::Operation => 1,
            RecordKind::View => 2,
            RecordKind::File => 3,
            RecordKind::Tree => 4,
            RecordKind::Commit => 5,
            RecordKind::Symlink => 6,
        }
    }

    pub open spec fn tagged(tag: u8) -> Result<RecordKind, WalError> {
        if tag == 1 {
            Ok(RecordKind::Operation)
        } else if tag == 2 {
            Ok(RecordKind::View)
        } else if tag == 3 {
            Ok(RecordKind::File)
        } else if tag == 4 {
            Ok(RecordKind::Tree)
        } else if tag == 5 {
            Ok(RecordKind::Commit)
        } else if tag == 6 {
            Ok(RecordKind::Symlink)
        } else {
            Err(WalError::UnknownKind(tag))
        }
    }

    /// The object-store word for the kinds that are backend objects.
    pub open spec fn object_word(self) -> Option<Seq<char>> {
        match self {
            RecordKind::File => Some("file"@),
            RecordKind::Tree => Some("tree"@),
            RecordKind::Commit => Some("commit"@),
            RecordKind::Symlink => Some("symlink"@),
            RecordKind::Operation | RecordKind::View => None,
        }
    }

    pub open spec fn of_object_word(word: Seq<char>) -> Option<RecordKind> {
        if word == "file"@ {
            Some(RecordKind::File)
        } else if word == "tree"@ {
            Some(RecordKind::Tree)
        } else if word == "commit"@ {
            Some(RecordKind::Commit)
        } else if word == "symlink"@ {
            Some(RecordKind::Symlink)
        } else {
            None
        }
    }

    fn tag(self) -> (t: u8)
        ensures
            t == self.tag_of(),
    {
        match self {
            RecordKind::Operation => 1,
            RecordKind::View => 2,
            RecordKind::File => 3,
            RecordKind::Tree => 4,
            RecordKind::Commit => 5,
            RecordKind::Symlink => 6,
        }
    }

    fn from_tag(tag: u8) -> (r: Result<RecordKind, WalError>)
        ensures
            r == RecordKind::tagged(tag),
    {
        if tag == 1 {
            Ok(RecordKind::Operation)
        } else if tag == 2 {
            Ok(RecordKind::View)
        } else if tag == 3 {
            Ok(RecordKind::File)
        } else if tag == 4 {
            Ok(RecordKind::Tree)
        } else if tag == 5 {
            Ok(RecordKind::Commit)
        } else if tag == 6 {
            Ok(RecordKind::Symlink)
        } else {
            Err(WalError::UnknownKind(tag))
        }
    }

    /// The object-store kind name used by the server's put and get paths, for
    /// the record kinds that are backend objects rather than op-store entries.
    pub fn object_kind(self) -> (r: Option<&'static str>)
        ensures
            maybe_text(r) == self.object_word(),
    {
        match self {
            RecordKind::File => Some("file"),
            RecordKind::Tree => Some("tree"),
            RecordKind::Commit => Some("commit"),
            RecordKind::Symlink => Some("symlink"),
            RecordKind::Operation | RecordKind::View => None,
        }
    }

    pub fn from_object_kind(kind: &str) -> (r: Option<RecordKind>)
        ensures
            r == RecordKind::of_object_word(kind@),
    {
        if same_text(kind, "file") {
            Some(RecordKind::File)
        } else if same_text(kind, "tree") {
            Some(RecordKind::Tree)
        } else if same_text(kind, "commit") {
            Some(RecordKind::Commit)
        } else if same_text(kind, "symlink") {
            Some(RecordKind::Symlink)
        } else {
            None
        }
    }
}

/// Tags and object words each name one kind.
pub proof fn record_kinds_read_back(kind: RecordKind)
    ensures
        RecordKind::tagged(kind.tag_of()) == Ok::<RecordKind, WalError>(kind),
        kind.object_word() is Some ==> RecordKind::of_object_word(kind.object_word()->0) == Some(
            kind,
        ),
{
    reveal_strlit("commit");
    reveal_strlit("tree");
    reveal_strlit("file");
    reveal_strlit("symlink");
    assert("commit"@.len() == 6 && "symlink"@.len() == 7);
    assert("tree"@.len() == 4 && "file"@.len() == 4);
    assert("tree"@[0] == 't' && "file"@[0] == 'f');
}

/// Which tag and which object word name which kind, for every tag and every word.
pub proof fn the_tags_of_the_kinds(tag: u8, word: Seq<char>)
    ensures
        RecordKind::tagged(tag) is Ok <==> 1 <= tag <= 6,
        RecordKind::tagged(tag) matches Ok(kind) ==> kind.tag_of() == tag && (tag == 1 <==> kind
            is Operation) && (tag == 2 <==> kind is View) && (tag == 3 <==> kind is File) && (tag
            == 4 <==> kind is Tree) && (tag == 5 <==> kind is Commit) && (tag == 6 <==> kind
            is Symlink),
        RecordKind::of_object_word(word) == Some(RecordKind::File) <==> word == "file"@,
        RecordKind::of_object_word(word) == Some(RecordKind::Tree) <==> word == "tree"@,
        RecordKind::of_object_word(word) == Some(RecordKind::Commit) <==> word == "commit"@,
        RecordKind::of_object_word(word) == Some(RecordKind::Symlink) <==> word == "symlink"@,
        RecordKind::of_object_word(word) != Some(RecordKind::Operation),
        RecordKind::of_object_word(word) != Some(RecordKind::View),
{
    record_kinds_read_back(RecordKind::File);
    record_kinds_read_back(RecordKind::Tree);
    record_kinds_read_back(RecordKind::Commit);
    record_kinds_read_back(RecordKind::Symlink);
}

#[derive(Debug, Clone, PartialEq, Eq)]
pub struct WalRecord {
    pub kind: RecordKind,
    pub id: Vec<u8>,
    pub data: Vec<u8>,
}

/// A record, as a mathematical value.
pub struct RecordModel {
    pub kind: RecordKind,
    pub id: Seq<u8>,
    pub data: Seq<u8>,
}

impl View for WalRecord {
    type V = RecordModel;

    open spec fn view(&self) -> RecordModel {
        RecordModel { kind: self.kind, id: self.id@, data: self.data@ }
    }
}

/// One publish, as it is stored in the bucket.
///
/// Records are kept in write order (blobs first, then the view, then the
/// operation), so replaying them writes dependencies before dependents.
#[derive(Debug, Clone, PartialEq, Eq)]
pub struct WalEntry {
    pub op_id: Vec<u8>,
    pub parents: Vec<Vec<u8>>,
    pub records: Vec<WalRecord>,
}

/// An entry, as a mathematical value.
pub struct EntryModel {
    pub op_id: Seq<u8>,
    pub parents: Seq<Seq<u8>>,
    pub records: Seq<RecordModel>,
}

impl View for WalEntry {
    type V = EntryModel;

    open spec fn view(&self) -> EntryModel {
        EntryModel {
            op_id: self.op_id@,
            parents: models(self.parents@),
            records: models(self.records@),
        }
    }
}

// ─── The format, as it is written ─────────────────────────────────────────────

/// The low 32 bits of `n`, most significant byte first.
pub open spec fn be32(n: nat) -> Seq<u8> {
    le32(n).reverse()
}

pub open spec fn be32_value(s: Seq<u8>) -> nat {
    le32_value(s.reverse())
}

pub open spec fn field_bytes(b: Seq<u8>) -> Seq<u8> {
    be32(b.len()) + b
}

pub open spec fn record_bytes(record: RecordModel) -> Seq<u8> {
    seq![record.kind.tag_of()] + field_bytes(record.id) + field_bytes(record.data)
}

pub open spec fn fields_bytes(fields: Seq<Seq<u8>>) -> Seq<u8>
    decreases fields.len(),
{
    if fields.len() == 0 {
        Seq::empty()
    } else {
        fields_bytes(fields.drop_last()) + field_bytes(fields.last())
    }
}

pub open spec fn records_bytes(records: Seq<RecordModel>) -> Seq<u8>
    decreases records.len(),
{
    if records.len() == 0 {
        Seq::empty()
    } else {
        records_bytes(records.drop_last()) + record_bytes(records.last())
    }
}

/// The bytes of an entry.
pub open spec fn entry_bytes(entry: EntryModel) -> Seq<u8> {
    magic() + field_bytes(entry.op_id) + be32(entry.parents.len()) + fields_bytes(entry.parents)
        + be32(entry.records.len()) + records_bytes(entry.records)
}

pub open spec fn record_lengths(records: Seq<RecordModel>) -> Seq<nat>
    decreases records.len(),
{
    if records.len() == 0 {
        Seq::empty()
    } else {
        record_lengths(records.drop_last()).push(records.last().id.len()).push(
            records.last().data.len(),
        )
    }
}

/// Every number that the format writes in 32 bits, in the order it writes them.
pub open spec fn entry_lengths(entry: EntryModel) -> Seq<nat> {
    seq![entry.op_id.len(), entry.parents.len()] + entry.parents.map_values(|p: Seq<u8>| p.len())
        + seq![entry.records.len()] + record_lengths(entry.records)
}

pub open spec fn all_fit(lengths: Seq<nat>) -> bool {
    forall|i: int| 0 <= i < lengths.len() ==> #[trigger] lengths[i] <= u32::MAX
}

/// The first number that 32 bits do not hold.
pub open spec fn first_misfit(lengths: Seq<nat>, n: nat) -> bool {
    exists|i: int| #![trigger lengths[i]]
        0 <= i < lengths.len() && lengths[i] == n && n > u32::MAX && all_fit(lengths.take(i))
}

/// Numbers are written with their most significant byte first.
pub proof fn high_bytes_come_first(n: nat)
    ensures
        be32(n).len() == 4,
        n <= u32::MAX ==> n == 0x100_0000 * be32(n)[0] + 0x1_0000 * be32(n)[1] + 0x100 * be32(n)[2]
            + be32(n)[3],
{
    low_bytes_come_first(n, 0);
}

/// A record is its tag, the length of its id and its id, the length of its data and its
/// data.
pub proof fn a_record_is_tag_id_and_data(record: RecordModel)
    ensures
        ({
            let s = record_bytes(record);
            let n = record.id.len() as int;
            &&& s.len() == 9 + record.id.len() + record.data.len()
            &&& s[0] == record.kind.tag_of()
            &&& s.subrange(1, 5) == be32(record.id.len())
            &&& s.subrange(5, 5 + n) == record.id
            &&& s.subrange(5 + n, 9 + n) == be32(record.data.len())
            &&& s.skip(9 + n) == record.data
        }),
{
    let s = record_bytes(record);
    let n = record.id.len() as int;
    assert(s.subrange(1, 5) =~= be32(record.id.len()));
    assert(s.subrange(5, 5 + n) =~= record.id);
    assert(s.subrange(5 + n, 9 + n) =~= be32(record.data.len()));
    assert(s.skip(9 + n) =~= record.data);
}

proof fn lemma_fields_behind(fields: Seq<Seq<u8>>, more: Seq<Seq<u8>>)
    ensures
        fields_bytes(fields + more) == fields_bytes(fields) + fields_bytes(more),
    decreases more.len(),
{
    if more.len() == 0 {
        assert(fields + more =~= fields);
        assert(fields_bytes(fields) + fields_bytes(more) =~= fields_bytes(fields));
    } else {
        lemma_fields_behind(fields, more.drop_last());
        assert((fields + more).drop_last() =~= fields + more.drop_last());
        assert(fields_bytes(fields + more) =~= fields_bytes(fields) + fields_bytes(more));
    }
}

proof fn lemma_records_behind(records: Seq<RecordModel>, more: Seq<RecordModel>)
    ensures
        records_bytes(records + more) == records_bytes(records) + records_bytes(more),
    decreases more.len(),
{
    if more.len() == 0 {
        assert(records + more =~= records);
        assert(records_bytes(records) + records_bytes(more) =~= records_bytes(records));
    } else {
        lemma_records_behind(records, more.drop_last());
        assert((records + more).drop_last() =~= records + more.drop_last());
        assert(records_bytes(records + more) =~= records_bytes(records) + records_bytes(more));
    }
}

/// Parents and records stand one behind the other in their order: those of two lists are
/// those of the first and then those of the second. A parent is its length and its bytes.
pub proof fn an_entry_keeps_the_order(
    fields: Seq<Seq<u8>>,
    more: Seq<Seq<u8>>,
    records: Seq<RecordModel>,
    others: Seq<RecordModel>,
)
    ensures
        fields_bytes(fields + more) == fields_bytes(fields) + fields_bytes(more),
        fields.len() == 1 ==> fields_bytes(fields).take(4) == be32(fields[0].len()) && fields_bytes(
            fields,
        ).skip(4) == fields[0],
        records_bytes(records + others) == records_bytes(records) + records_bytes(others),
        records.len() == 1 ==> records_bytes(records) == record_bytes(records[0]),
{
    lemma_fields_behind(fields, more);
    lemma_records_behind(records, others);
    if fields.len() == 1 {
        assert(fields_bytes(fields.drop_last()) =~= Seq::<u8>::empty());
        assert(fields_bytes(fields).take(4) =~= be32(fields[0].len()));
        assert(fields_bytes(fields).skip(4) =~= fields[0]);
    }
    if records.len() == 1 {
        assert(records_bytes(records.drop_last()) =~= Seq::<u8>::empty());
        assert(records_bytes(records) =~= record_bytes(records[0]));
    }
}

/// An entry is the letters `TDMWAL`, a zero and a one, the operation's id with its length,
/// how many parents there are and the parents, how many records there are and the records.
pub proof fn an_entry_is_letters_id_parents_and_records(entry: EntryModel)
    ensures
        ({
            let s = entry_bytes(entry);
            let a = 12 + entry.op_id.len() as int;
            let b = a + 4 + fields_bytes(entry.parents).len();
            &&& s.take(8) == seq![
                'T' as u8,
                'D' as u8,
                'M' as u8,
                'W' as u8,
                'A' as u8,
                'L' as u8,
                0,
                1,
            ]
            &&& s.subrange(8, 12) == be32(entry.op_id.len())
            &&& s.subrange(12, a) == entry.op_id
            &&& s.subrange(a, a + 4) == be32(entry.parents.len())
            &&& s.subrange(a + 4, b) == fields_bytes(entry.parents)
            &&& s.subrange(b, b + 4) == be32(entry.records.len())
            &&& s.skip(b + 4) == records_bytes(entry.records)
        }),
{
    let s = entry_bytes(entry);
    let a = 12 + entry.op_id.len() as int;
    let b = a + 4 + fields_bytes(entry.parents).len();
    assert(s.take(8) =~= seq![
        'T' as u8,
        'D' as u8,
        'M' as u8,
        'W' as u8,
        'A' as u8,
        'L' as u8,
        0,
        1,
    ]);
    assert(s.subrange(8, 12) =~= be32(entry.op_id.len()));
    assert(s.subrange(12, a) =~= entry.op_id);
    assert(s.subrange(a, a + 4) =~= be32(entry.parents.len()));
    assert(s.subrange(a + 4, b) =~= fields_bytes(entry.parents));
    assert(s.subrange(b, b + 4) =~= be32(entry.records.len()));
    assert(s.skip(b + 4) =~= records_bytes(entry.records));
}

/// Append a 32-bit number, or refuse one that does not fit.
pub fn push_u32(out: &mut Vec<u8>, value: usize) -> (r: Result<(), WalError>)
    ensures
        match r {
            Ok(()) => value <= u32::MAX && final(out)@ == old(out)@ + be32(value as nat),
            Err(e) => value > u32::MAX && e == WalError::FieldTooLarge(value) && final(out)@ == old(out)@,
        },
{
    if value > 4294967295 {
        return Err(WalError::FieldTooLarge(value));
    }
    out.push((value / 256 / 256 / 256 % 256) as u8);
    out.push((value / 256 / 256 % 256) as u8);
    out.push((value / 256 % 256) as u8);
    out.push((value % 256) as u8);
    assert(out@ =~= old(out)@ + be32(value as nat));
    Ok(())
}

/// Append a length-prefixed byte string.
fn push_bytes(out: &mut Vec<u8>, value: &[u8]) -> (r: Result<(), WalError>)
    ensures
        match r {
            Ok(()) => value@.len() <= u32::MAX && final(out)@ == old(out)@ + field_bytes(value@),
            Err(e) => value@.len() > u32::MAX && e == WalError::FieldTooLarge(value.len()) && final(out)@ == old(out)@,
        },
{
    match push_u32(out, value.len()) {
        Ok(()) => {},
        Err(e) => return Err(e),
    }
    out.extend_from_slice(value);
    assert(out@ =~= old(out)@ + field_bytes(value@));
    Ok(())
}

proof fn lemma_misfit_here(lengths: Seq<nat>, i: int)
    requires
        0 <= i < lengths.len(),
        lengths[i] > u32::MAX,
        all_fit(lengths.take(i)),
    ensures
        first_misfit(lengths, lengths[i]),
        !all_fit(lengths),
{
}

proof fn lemma_fit_push(lengths: Seq<nat>, i: int)
    requires
        0 <= i < lengths.len(),
        lengths[i] <= u32::MAX,
        all_fit(lengths.take(i)),
    ensures
        all_fit(lengths.take(i + 1)),
{
    assert forall|j: int| 0 <= j < i + 1 implies #[trigger] lengths.take(i + 1)[j] <= u32::MAX by {
        if j < i {
            assert(lengths.take(i)[j] == lengths[j]);
        }
    }
}

proof fn lemma_record_lengths(records: Seq<RecordModel>)
    ensures
        record_lengths(records).len() == 2 * records.len(),
        forall|i: int|
            0 <= i < records.len() ==> record_lengths(records)[2 * i] == (
            #[trigger] records[i]).id.len() && record_lengths(records)[2 * i + 1]
                == records[i].data.len(),
    decreases records.len(),
{
    if records.len() > 0 {
        let front = records.drop_last();
        lemma_record_lengths(front);
        assert forall|i: int| 0 <= i < records.len() implies record_lengths(records)[2 * i] == (
        #[trigger] records[i]).id.len() && record_lengths(records)[2 * i + 1]
            == records[i].data.len() by {
            if i < front.len() {
                assert(front[i] == records[i]);
            }
        }
    }
}

impl WalEntry {
    /// Fails rather than truncating when a count or a payload does not fit the
    /// 32-bit framing. A silently truncated length would write an entry that
    /// decodes into different bytes than it was given: corruption that only
    /// shows up on replay.
    pub fn encode(&self) -> (r: Result<Vec<u8>, WalError>)
        ensures
            match r {
                Ok(out) => all_fit(entry_lengths(self@)) && out@ == entry_bytes(self@),
                Err(e) => exists|n: usize| #![auto]
                    e == WalError::FieldTooLarge(n) && first_misfit(entry_lengths(self@), n as nat),
            },
    {
        let ghost lengths = entry_lengths(self@);
        let ghost parents = models(self.parents@);
        let ghost records = models(self.records@);
        let ghost np = parents.len() as int;
        proof {
            lemma_record_lengths(records);
            assert(lengths[0] == self.op_id@.len());
            assert(lengths[1] == np);
            assert(lengths[2 + np] == records.len());
            assert forall|i: int| 0 <= i < np implies #[trigger] lengths[2 + i] == parents[i].len() by {}
            assert forall|i: int| 0 <= i < records.len() implies lengths[3 + np + 2 * i] == (
            #[trigger] records[i]).id.len() && lengths[3 + np + 2 * i + 1]
                == records[i].data.len() by {}
        }
        let mut out: Vec<u8> = Vec::new();
        out.push(84);
        out.push(68);
        out.push(77);
        out.push(87);
        out.push(65);
        out.push(76);
        out.push(0);
        out.push(1);
        assert(out@ =~= magic());
        match push_bytes(&mut out, self.op_id.as_slice()) {
            Ok(()) => {},
            Err(e) => {
                proof {
                    lemma_misfit_here(lengths, 0);
                }
                return Err(e);
            },
        }
        proof {
            lemma_fit_push(lengths, 0);
        }
        match push_u32(&mut out, self.parents.len()) {
            Ok(()) => {},
            Err(e) => {
                proof {
                    lemma_misfit_here(lengths, 1);
                }
                return Err(e);
            },
        }
        proof {
            lemma_fit_push(lengths, 1);
        }
        let ghost head = out@;
        assert(head == magic() + field_bytes(self.op_id@) + be32(parents.len()));
        let mut i: usize = 0;
        assert(parents.take(0) =~= Seq::<Seq<u8>>::empty());
        assert(out@ =~= head + fields_bytes(parents.take(0)));
        while i < self.parents.len()
            invariant
                i <= self.parents@.len(),
                parents == models(self.parents@),
                np == parents.len(),
                lengths == entry_lengths(self@),
                lengths.len() >= 3 + np,
                forall|i: int| 0 <= i < np ==> #[trigger] lengths[2 + i] == parents[i].len(),
                all_fit(lengths.take(2 + i)),
                out@ == head + fields_bytes(parents.take(i as int)),
            decreases self.parents@.len() - i,
        {
            let ghost before = out@;
            assert(lengths[2 + i as int] == self.parents@[i as int]@.len());
            match push_bytes(&mut out, self.parents[i].as_slice()) {
                Ok(()) => {},
                Err(e) => {
                    proof {
                        lemma_misfit_here(lengths, 2 + i as int);
                    }
                    return Err(e);
                },
            }
            proof {
                lemma_fit_push(lengths, 2 + i as int);
                let longer = parents.take(i + 1);
                assert(longer.drop_last() =~= parents.take(i as int));
                assert(longer.last() == self.parents@[i as int]@);
                assert(out@ =~= head + fields_bytes(longer));
            }
            i = i + 1;
        }
        assert(parents.take(i as int) =~= parents);
        match push_u32(&mut out, self.records.len()) {
            Ok(()) => {},
            Err(e) => {
                proof {
                    lemma_misfit_here(lengths, 2 + np);
                }
                return Err(e);
            },
        }
        proof {
            lemma_fit_push(lengths, 2 + np);
        }
        let ghost body = out@;
        assert(body == head + fields_bytes(parents) + be32(records.len()));
        let mut k: usize = 0;
        assert(records.take(0) =~= Seq::<RecordModel>::empty());
        assert(out@ =~= body + records_bytes(records.take(0)));
        while k < self.records.len()
            invariant
                k <= self.records@.len(),
                records == models(self.records@),
                lengths == entry_lengths(self@),
                np >= 0,
                lengths.len() == 3 + np + 2 * records.len(),
                forall|i: int|
                    0 <= i < records.len() ==> lengths[3 + np + 2 * i] == (
                    #[trigger] records[i]).id.len() && lengths[3 + np + 2 * i + 1]
                        == records[i].data.len(),
                all_fit(lengths.take(3 + np + 2 * k)),
                out@ == body + records_bytes(records.take(k as int)),
            decreases self.records@.len() - k,
        {
            let ghost before = out@;
            let ghost record = self.records@[k as int]@;
            assert(records[k as int] == record);
            out.push(self.records[k].kind.tag());
            match push_bytes(&mut out, self.records[k].id.as_slice()) {
                Ok(()) => {},
                Err(e) => {
                    proof {
                        lemma_misfit_here(lengths, 3 + np + 2 * k);
                    }
                    return Err(e);
                },
            }
            proof {
                lemma_fit_push(lengths, 3 + np + 2 * k);
            }
            match push_bytes(&mut out, self.records[k].data.as_slice()) {
                Ok(()) => {},
                Err(e) => {
                    proof {
                        lemma_misfit_here(lengths, 3 + np + 2 * k + 1);
                    }
                    return Err(e);
                },
            }
            proof {
                lemma_fit_push(lengths, 3 + np + 2 * k + 1);
                let longer = records.take(k + 1);
                assert(longer.drop_last() =~= records.take(k as int));
                assert(longer.last() == record);
                assert(out@ =~= before + record_bytes(record));
                assert(out@ =~= body + records_bytes(longer));
            }
            k = k + 1;
        }
        assert(records.take(k as int) =~= records);
        assert(lengths.take(3 + np + 2 * k) =~= lengths);
        assert(out@ == entry_bytes(self@));
        Ok(out)
    }
}

// ─── The format, as it is read ────────────────────────────────────────────────

/// The next `len` bytes from `pos`, and the position behind them.
pub open spec fn taken_at(s: Seq<u8>, pos: int, len: nat) -> Result<(Seq<u8>, int), WalError> {
    if pos + len > usize::MAX {
        Err(WalError::LengthOverflow)
    } else if pos + len > s.len() {
        Err(WalError::Truncated)
    } else {
        Ok((s.subrange(pos, pos + len), pos + len))
    }
}

pub open spec fn number_at(s: Seq<u8>, pos: int) -> Result<(nat, int), WalError> {
    match taken_at(s, pos, 4) {
        Ok((raw, p)) => Ok((be32_value(raw), p)),
        Err(e) => Err(e),
    }
}

pub open spec fn field_at(s: Seq<u8>, pos: int) -> Result<(Seq<u8>, int), WalError> {
    match number_at(s, pos) {
        Ok((len, p)) => taken_at(s, p, len),
        Err(e) => Err(e),
    }
}

pub open spec fn record_at(s: Seq<u8>, pos: int) -> Result<(RecordModel, int), WalError> {
    match taken_at(s, pos, 1) {
        Ok((raw, p)) => match RecordKind::tagged(raw[0]) {
            Ok(kind) => match field_at(s, p) {
                Ok((id, q)) => match field_at(s, q) {
                    Ok((data, end)) => Ok((RecordModel { kind, id, data }, end)),
                    Err(e) => Err(e),
                },
                Err(e) => Err(e),
            },
            Err(e) => Err(e),
        },
        Err(e) => Err(e),
    }
}

pub open spec fn fields_at(s: Seq<u8>, pos: int, n: nat) -> Result<(Seq<Seq<u8>>, int), WalError>
    decreases n,
{
    if n == 0 {
        Ok((Seq::empty(), pos))
    } else {
        match fields_at(s, pos, (n - 1) as nat) {
            Ok((fields, p)) => match field_at(s, p) {
                Ok((field, q)) => Ok((fields.push(field), q)),
                Err(e) => Err(e),
            },
            Err(e) => Err(e),
        }
    }
}

pub open spec fn records_at(s: Seq<u8>, pos: int, n: nat) -> Result<
    (Seq<RecordModel>, int),
    WalError,
>
    decreases n,
{
    if n == 0 {
        Ok((Seq::empty(), pos))
    } else {
        match records_at(s, pos, (n - 1) as nat) {
            Ok((records, p)) => match record_at(s, p) {
                Ok((record, q)) => Ok((records.push(record), q)),
                Err(e) => Err(e),
            },
            Err(e) => Err(e),
        }
    }
}

/// The part of an entry behind its parents.
pub open spec fn tail_read(
    s: Seq<u8>,
    pos: int,
    op_id: Seq<u8>,
    parents: Seq<Seq<u8>>,
) -> Result<EntryModel, WalError> {
    match number_at(s, pos) {
        Ok((n, p)) => match records_at(s, p, n) {
            Ok((records, end)) => if end != s.len() {
                Err(WalError::TrailingBytes)
            } else {
                Ok(EntryModel { op_id, parents, records })
            },
            Err(e) => Err(e),
        },
        Err(e) => Err(e),
    }
}

/// What the bytes of an entry hold, or why they are none.
pub open spec fn entry_read(s: Seq<u8>) -> Result<EntryModel, WalError> {
    match taken_at(s, 0, 8) {
        Ok((m, a)) => if m != magic() {
            Err(WalError::BadMagic)
        } else {
            match field_at(s, a) {
                Ok((op_id, b)) => match number_at(s, b) {
                    Ok((n, c)) => match fields_at(s, c, n) {
                        Ok((parents, d)) => tail_read(s, d, op_id, parents),
                        Err(e) => Err(e),
                    },
                    Err(e) => Err(e),
                },
                Err(e) => Err(e),
            }
        },
        Err(e) => Err(e),
    }
}

struct Cursor<'a> {
    bytes: &'a [u8],
    pos: usize,
}

impl<'a> Cursor<'a> {
    spec fn wf(self) -> bool {
        self.pos <= self.bytes@.len()
    }

    spec fn moved<T>(before: Self, after: Self, read: Result<(T, int), WalError>) -> bool {
        &&& after.wf()
        &&& after.bytes == before.bytes
        &&& match read {
            Ok((_, p)) => after.pos == p,
            Err(_) => true,
        }
    }

    fn take(&mut self, len: usize) -> (r: Result<&'a [u8], WalError>)
        requires
            old(self).wf(),
        ensures
            Self::moved(
                *old(self),
                *final(self),
                taken_at(old(self).bytes@, old(self).pos as int, len as nat),
            ),
            match (r, taken_at(old(self).bytes@, old(self).pos as int, len as nat)) {
                (Ok(v), Ok((raw, _))) => v@ == raw,
                (Err(e), Err(t)) => e == t,
                _ => false,
            },
    {
        let end: usize = match self.pos.checked_add(len) {
            Some(end) => end,
            None => return Err(WalError::LengthOverflow),
        };
        let all: &'a [u8] = self.bytes;
        if end > all.len() {
            return Err(WalError::Truncated);
        }
        let slice: &'a [u8] = vstd::slice::slice_subrange(all, self.pos, end);
        self.pos = end;
        Ok(slice)
    }

    fn take_u8(&mut self) -> (r: Result<u8, WalError>)
        requires
            old(self).wf(),
        ensures
            Self::moved(
                *old(self),
                *final(self),
                taken_at(old(self).bytes@, old(self).pos as int, 1),
            ),
            match (r, taken_at(old(self).bytes@, old(self).pos as int, 1)) {
                (Ok(v), Ok((raw, _))) => v == raw[0],
                (Err(e), Err(t)) => e == t,
                _ => false,
            },
    {
        match self.take(1) {
            Ok(raw) => Ok(raw[0]),
            Err(e) => Err(e),
        }
    }

    fn take_u32(&mut self) -> (r: Result<usize, WalError>)
        requires
            old(self).wf(),
        ensures
            Self::moved(*old(self), *final(self), number_at(old(self).bytes@, old(self).pos as int)),
            match (r, number_at(old(self).bytes@, old(self).pos as int)) {
                (Ok(v), Ok((n, _))) => v == n,
                (Err(e), Err(t)) => e == t,
                _ => false,
            },
    {
        match self.take(4) {
            Ok(raw) => {
                let value: usize = raw[3] as usize + 256 * (raw[2] as usize + 256 * (raw[1] as usize
                    + 256 * (raw[0] as usize)));
                assert(value == be32_value(raw@)) by {
                    let r = raw@.reverse();
                    assert(r[0] == raw@[3] && r[1] == raw@[2] && r[2] == raw@[1] && r[3] == raw@[0]);
                }
                Ok(value)
            },
            Err(e) => Err(e),
        }
    }

    fn take_bytes(&mut self) -> (r: Result<&'a [u8], WalError>)
        requires
            old(self).wf(),
        ensures
            Self::moved(*old(self), *final(self), field_at(old(self).bytes@, old(self).pos as int)),
            match (r, field_at(old(self).bytes@, old(self).pos as int)) {
                (Ok(v), Ok((b, _))) => v@ == b,
                (Err(e), Err(t)) => e == t,
                _ => false,
            },
    {
        let len: usize = match self.take_u32() {
            Ok(len) => len,
            Err(e) => return Err(e),
        };
        self.take(len)
    }

    fn take_record(&mut self) -> (r: Result<WalRecord, WalError>)
        requires
            old(self).wf(),
        ensures
            Self::moved(*old(self), *final(self), record_at(old(self).bytes@, old(self).pos as int)),
            match (r, record_at(old(self).bytes@, old(self).pos as int)) {
                (Ok(v), Ok((b, _))) => v@ == b,
                (Err(e), Err(t)) => e == t,
                _ => false,
            },
    {
        let tag: u8 = match self.take_u8() {
            Ok(tag) => tag,
            Err(e) => return Err(e),
        };
        let kind = match RecordKind::from_tag(tag) {
            Ok(kind) => kind,
            Err(e) => return Err(e),
        };
        let id = match self.take_bytes() {
            Ok(id) => copied(id),
            Err(e) => return Err(e),
        };
        let data = match self.take_bytes() {
            Ok(data) => copied(data),
            Err(e) => return Err(e),
        };
        Ok(WalRecord { kind, id, data })
    }

    /// An allocation hint that a corrupt or hostile count cannot inflate: every
    /// item costs at least a length prefix, so no more items can follow than
    /// there are quarter-words left in the buffer.
    fn plausible_count(&self, claimed: usize) -> (n: usize)
        requires
            self.wf(),
        ensures
            n <= claimed,
            4 * n <= self.bytes@.len() - self.pos,
            n == claimed || n == (self.bytes@.len() - self.pos) / 4,
    {
        let room: usize = (self.bytes.len() - self.pos) / 4;
        if claimed < room {
            claimed
        } else {
            room
        }
    }
}

proof fn lemma_fields_stay_wrong(s: Seq<u8>, pos: int, n: nat, total: nat)
    requires
        n <= total,
        fields_at(s, pos, n) is Err,
    ensures
        fields_at(s, pos, total) == fields_at(s, pos, n),
    decreases total,
{
    if n < total {
        lemma_fields_stay_wrong(s, pos, n, (total - 1) as nat);
    }
}

proof fn lemma_records_stay_wrong(s: Seq<u8>, pos: int, n: nat, total: nat)
    requires
        n <= total,
        records_at(s, pos, n) is Err,
    ensures
        records_at(s, pos, total) == records_at(s, pos, n),
    decreases total,
{
    if n < total {
        lemma_records_stay_wrong(s, pos, n, (total - 1) as nat);
    }
}

impl WalEntry {
    /// Read an entry.
    pub fn decode(bytes: &[u8]) -> (r: Result<WalEntry, WalError>)
        ensures
            match (r, entry_read(bytes@)) {
                (Ok(entry), Ok(read)) => entry@ == read,
                (Err(e), Err(t)) => e == t,
                _ => false,
            },
    {
        let mut cursor = Cursor { bytes, pos: 0 };
        match cursor.take(8) {
            Ok(m) => {
                if m[0] != 84 || m[1] != 68 || m[2] != 77 || m[3] != 87 || m[4] != 65 || m[5] != 76
                    || m[6] != 0 || m[7] != 1 {
                    assert(m@ != magic());
                    return Err(WalError::BadMagic);
                }
                assert(m@ =~= magic());
            },
            Err(e) => return Err(e),
        }
        let op_id = match cursor.take_bytes() {
            Ok(id) => copied(id),
            Err(e) => return Err(e),
        };
        // Counts come off the wire, so they are only a hint until the bytes
        // behind them are read: reserve against what is actually there.
        let parent_count: usize = match cursor.take_u32() {
            Ok(n) => n,
            Err(e) => return Err(e),
        };
        let ghost start = cursor.pos as int;
        let mut parents: Vec<Vec<u8>> = Vec::with_capacity(cursor.plausible_count(parent_count));
        let mut i: usize = 0;
        assert(models(parents@) =~= Seq::<Seq<u8>>::empty());
        while i < parent_count
            invariant
                i <= parent_count,
                cursor.wf(),
                cursor.bytes == bytes,
                fields_at(bytes@, start, i as nat) == Ok::<(Seq<Seq<u8>>, int), WalError>(
                    (models(parents@), cursor.pos as int),
                ),
                taken_at(bytes@, 0, 8) == Ok::<(Seq<u8>, int), WalError>((magic(), 8int)),
                field_at(bytes@, 8) matches Ok((id, b)) && id == op_id@ && number_at(bytes@, b)
                    == Ok::<(nat, int), WalError>((parent_count as nat, start)),
            decreases parent_count - i,
        {
            let ghost done = models(parents@);
            match cursor.take_bytes() {
                Ok(parent) => {
                    parents.push(copied(parent));
                    assert(models(parents@) =~= done.push(parent@));
                },
                Err(e) => {
                    proof {
                        lemma_fields_stay_wrong(bytes@, start, (i + 1) as nat, parent_count as nat);
                    }
                    return Err(e);
                },
            }
            i = i + 1;
        }
        let ghost middle = cursor.pos as int;
        assert(entry_read(bytes@) == tail_read(bytes@, middle, op_id@, models(parents@)));
        let record_count: usize = match cursor.take_u32() {
            Ok(n) => n,
            Err(e) => return Err(e),
        };
        let ghost rstart = cursor.pos as int;
        let mut records: Vec<WalRecord> = Vec::with_capacity(cursor.plausible_count(record_count));
        let mut k: usize = 0;
        assert(models(records@) =~= Seq::<RecordModel>::empty());
        while k < record_count
            invariant
                k <= record_count,
                cursor.wf(),
                cursor.bytes == bytes,
                records_at(bytes@, rstart, k as nat) == Ok::<(Seq<RecordModel>, int), WalError>(
                    (models(records@), cursor.pos as int),
                ),
                entry_read(bytes@) == tail_read(bytes@, middle, op_id@, models(parents@)),
                number_at(bytes@, middle) == Ok::<(nat, int), WalError>(
                    (record_count as nat, rstart),
                ),
            decreases record_count - k,
        {
            let ghost done = models(records@);
            match cursor.take_record() {
                Ok(record) => {
                    let ghost model = record@;
                    records.push(record);
                    assert(models(records@) =~= done.push(model));
                },
                Err(e) => {
                    proof {
                        lemma_records_stay_wrong(bytes@, rstart, (k + 1) as nat, record_count as nat);
                    }
                    return Err(e);
                },
            }
            k = k + 1;
        }
        if cursor.pos != bytes.len() {
            return Err(WalError::TrailingBytes);
        }
        Ok(WalEntry { op_id, parents, records })
    }
}

// ─── What the format promises ─────────────────────────────────────────────────

proof fn lemma_be32(n: nat, s: Seq<u8>)
    ensures
        be32(n).len() == 4,
        n <= u32::MAX ==> be32_value(be32(n)) == n,
        s.len() == 4 ==> be32(be32_value(s)) == s && be32_value(s) <= u32::MAX,
{
    assert(le32(n).reverse().reverse() =~= le32(n));
    le32_reads_back(n, s.reverse());
    if s.len() == 4 {
        assert(s.reverse().reverse() =~= s);
    }
}

proof fn lemma_taken(pre: Seq<u8>, mid: Seq<u8>, rest: Seq<u8>)
    requires
        (pre + mid + rest).len() <= usize::MAX,
    ensures
        taken_at(pre + mid + rest, pre.len() as int, mid.len()) == Ok::<(Seq<u8>, int), WalError>(
            (mid, (pre.len() + mid.len()) as int),
        ),
{
    let s = pre + mid + rest;
    assert(s.subrange(pre.len() as int, (pre.len() + mid.len()) as int) =~= mid);
}

proof fn lemma_number(pre: Seq<u8>, n: nat, rest: Seq<u8>)
    requires
        n <= u32::MAX,
        (pre + be32(n) + rest).len() <= usize::MAX,
    ensures
        number_at(pre + be32(n) + rest, pre.len() as int) == Ok::<(nat, int), WalError>(
            (n, (pre.len() + 4) as int),
        ),
{
    lemma_be32(n, Seq::empty());
    lemma_taken(pre, be32(n), rest);
}

proof fn lemma_field(pre: Seq<u8>, b: Seq<u8>, rest: Seq<u8>)
    requires
        b.len() <= u32::MAX,
        (pre + field_bytes(b) + rest).len() <= usize::MAX,
    ensures
        field_at(pre + field_bytes(b) + rest, pre.len() as int) == Ok::<(Seq<u8>, int), WalError>(
            (b, (pre.len() + field_bytes(b).len()) as int),
        ),
{
    let s = pre + field_bytes(b) + rest;
    lemma_be32(b.len(), Seq::empty());
    assert(s =~= pre + be32(b.len()) + (b + rest));
    lemma_number(pre, b.len(), b + rest);
    assert(s =~= (pre + be32(b.len())) + b + rest);
    lemma_taken(pre + be32(b.len()), b, rest);
}

proof fn lemma_join(pre: Seq<u8>, x: Seq<u8>, y: Seq<u8>, rest: Seq<u8>)
    ensures
        pre + (x + y) + rest == pre + x + (y + rest),
        pre + (x + y) + rest == (pre + x) + y + rest,
        (pre + x).len() == pre.len() + x.len(),
        (x + y).len() == x.len() + y.len(),
{
    assert(pre + (x + y) + rest =~= pre + x + (y + rest));
    assert(pre + (x + y) + rest =~= (pre + x) + y + rest);
}

proof fn lemma_join_three(pre: Seq<u8>, a: Seq<u8>, x: Seq<u8>, y: Seq<u8>, rest: Seq<u8>)
    ensures
        pre + (a + x + y) + rest == pre + a + (x + y + rest),
        pre + (a + x + y) + rest == (pre + a) + x + (y + rest),
        pre + (a + x + y) + rest == (pre + a + x) + y + rest,
        (pre + a).len() == pre.len() + a.len(),
        (pre + a + x).len() == pre.len() + a.len() + x.len(),
        (a + x + y).len() == a.len() + x.len() + y.len(),
{
    assert(pre + (a + x + y) + rest =~= pre + a + (x + y + rest));
    assert(pre + (a + x + y) + rest =~= (pre + a) + x + (y + rest));
    assert(pre + (a + x + y) + rest =~= (pre + a + x) + y + rest);
}

#[verifier::spinoff_prover]
proof fn lemma_record(pre: Seq<u8>, record: RecordModel, rest: Seq<u8>)
    requires
        record.id.len() <= u32::MAX,
        record.data.len() <= u32::MAX,
        (pre + record_bytes(record) + rest).len() <= usize::MAX,
    ensures
        record_at(pre + record_bytes(record) + rest, pre.len() as int) == Ok::<
            (RecordModel, int),
            WalError,
        >((record, (pre.len() + record_bytes(record).len()) as int)),
{
    let one = seq![record.kind.tag_of()];
    let x = field_bytes(record.id);
    let y = field_bytes(record.data);
    record_kinds_read_back(record.kind);
    lemma_join_three(pre, one, x, y, rest);
    lemma_taken(pre, one, x + y + rest);
    lemma_field(pre + one, record.id, y + rest);
    lemma_field(pre + one + x, record.data, rest);
}

proof fn lemma_fields(pre: Seq<u8>, fields: Seq<Seq<u8>>, rest: Seq<u8>)
    requires
        forall|i: int| 0 <= i < fields.len() ==> (#[trigger] fields[i]).len() <= u32::MAX,
        (pre + fields_bytes(fields) + rest).len() <= usize::MAX,
    ensures
        fields_at(pre + fields_bytes(fields) + rest, pre.len() as int, fields.len()) == Ok::<
            (Seq<Seq<u8>>, int),
            WalError,
        >((fields, (pre.len() + fields_bytes(fields).len()) as int)),
    decreases fields.len(),
{
    if fields.len() == 0 {
        assert(fields =~= Seq::empty());
    } else {
        let front = fields.drop_last();
        let last = fields.last();
        lemma_join(pre, fields_bytes(front), field_bytes(last), rest);
        lemma_fields(pre, front, field_bytes(last) + rest);
        lemma_field(pre + fields_bytes(front), last, rest);
        assert(front.push(last) =~= fields);
    }
}

proof fn lemma_records(pre: Seq<u8>, records: Seq<RecordModel>, rest: Seq<u8>)
    requires
        forall|i: int|
            0 <= i < records.len() ==> (#[trigger] records[i]).id.len() <= u32::MAX
                && records[i].data.len() <= u32::MAX,
        (pre + records_bytes(records) + rest).len() <= usize::MAX,
    ensures
        records_at(pre + records_bytes(records) + rest, pre.len() as int, records.len()) == Ok::<
            (Seq<RecordModel>, int),
            WalError,
        >((records, (pre.len() + records_bytes(records).len()) as int)),
    decreases records.len(),
{
    if records.len() == 0 {
        assert(records =~= Seq::empty());
    } else {
        let front = records.drop_last();
        let last = records.last();
        lemma_join(pre, records_bytes(front), record_bytes(last), rest);
        lemma_records(pre, front, record_bytes(last) + rest);
        lemma_record(pre + records_bytes(front), last, rest);
        assert(front.push(last) =~= records);
    }
}

/// Whether the payloads and counts of an entry fit, each on its own.
pub open spec fn parts_fit(entry: EntryModel) -> bool {
    &&& entry.op_id.len() <= u32::MAX
    &&& entry.parents.len() <= u32::MAX
    &&& entry.records.len() <= u32::MAX
    &&& forall|i: int|
        0 <= i < entry.parents.len() ==> (#[trigger] entry.parents[i]).len() <= u32::MAX
    &&& forall|i: int|
        0 <= i < entry.records.len() ==> (#[trigger] entry.records[i]).id.len() <= u32::MAX
            && entry.records[i].data.len() <= u32::MAX
}

/// The numbers of an entry fit if and only if its parts do.
pub proof fn fitting_entry_parts(entry: EntryModel)
    ensures
        all_fit(entry_lengths(entry)) <==> parts_fit(entry),
{
    let lengths = entry_lengths(entry);
    let np = entry.parents.len() as int;
    let nr = entry.records.len() as int;
    let a = seq![entry.op_id.len(), entry.parents.len()];
    let b = entry.parents.map_values(|p: Seq<u8>| p.len());
    let c = seq![entry.records.len()];
    let d = record_lengths(entry.records);
    assert(lengths == a + b + c + d);
    lemma_record_lengths(entry.records);
    if all_fit(lengths) {
        assert(lengths[0] == a[0]);
        assert(lengths[1] == a[1]);
        assert(lengths[2 + np] == c[0]);
        assert forall|i: int| 0 <= i < np implies (#[trigger] entry.parents[i]).len()
            <= u32::MAX by {
            assert(lengths[2 + i] == b[i]);
        }
        assert forall|i: int| 0 <= i < nr implies (#[trigger] entry.records[i]).id.len()
            <= u32::MAX && entry.records[i].data.len() <= u32::MAX by {
            assert(lengths[3 + np + 2 * i] == d[2 * i]);
            assert(lengths[3 + np + (2 * i + 1)] == d[2 * i + 1]);
        }
    }
    if parts_fit(entry) {
        assert forall|j: int| 0 <= j < lengths.len() implies #[trigger] lengths[j] <= u32::MAX by {
            if j < 2 {
                assert(lengths[j] == a[j]);
            } else if j < 2 + np {
                assert(lengths[j] == b[j - 2]);
                assert(entry.parents[j - 2].len() <= u32::MAX);
            } else if j == 2 + np {
                assert(lengths[j] == c[0]);
            } else {
                let k = j - 3 - np;
                assert(lengths[j] == d[k]);
                let r = entry.records[k / 2];
                assert(d[2 * (k / 2)] == r.id.len());
                assert(d[2 * (k / 2) + 1] == r.data.len());
            }
        }
    }
}

/// The six parts of an entry, grouped around each of them in turn.
proof fn lemma_parts(a: Seq<u8>, b: Seq<u8>, c: Seq<u8>, d: Seq<u8>, e: Seq<u8>, f: Seq<u8>)
    ensures
        ({
            let s = a + b + c + d + e + f;
            let nil = Seq::<u8>::empty();
            &&& s == nil + a + (b + c + d + e + f)
            &&& s == a + b + (c + d + e + f)
            &&& s == (a + b) + c + (d + e + f)
            &&& s == (a + b + c) + d + (e + f)
            &&& s == (a + b + c + d) + e + f
            &&& s == (a + b + c + d + e) + f + nil
        }),
{
    let s = a + b + c + d + e + f;
    let nil = Seq::<u8>::empty();
    assert(s =~= nil + a + (b + c + d + e + f));
    assert(s =~= a + b + (c + d + e + f));
    assert(s =~= (a + b) + c + (d + e + f));
    assert(s =~= (a + b + c) + d + (e + f));
    assert(s =~= (a + b + c + d + e) + f + nil);
}

proof fn lemma_cut(s: Seq<u8>, b: int, c: int, d: int, e: int)
    requires
        8 <= b <= c <= d <= e <= s.len(),
    ensures
        s == s.subrange(0, 8) + s.subrange(8, b) + s.subrange(b, c) + s.subrange(c, d) + s.subrange(
            d,
            e,
        ) + s.subrange(e, s.len() as int),
{
    assert(s =~= s.subrange(0, 8) + s.subrange(8, b) + s.subrange(b, c) + s.subrange(c, d)
        + s.subrange(d, e) + s.subrange(e, s.len() as int));
}

proof fn lemma_assembled(s: Seq<u8>, entry: EntryModel, p2: int, p4: int)
    requires
        taken_at(s, 0, 8) == Ok::<(Seq<u8>, int), WalError>((magic(), 8int)),
        field_at(s, 8) == Ok::<(Seq<u8>, int), WalError>((entry.op_id, p2)),
        number_at(s, p2) == Ok::<(nat, int), WalError>((entry.parents.len(), p2 + 4)),
        fields_at(s, p2 + 4, entry.parents.len()) == Ok::<(Seq<Seq<u8>>, int), WalError>(
            (entry.parents, p4),
        ),
        number_at(s, p4) == Ok::<(nat, int), WalError>((entry.records.len(), p4 + 4)),
        records_at(s, p4 + 4, entry.records.len()) == Ok::<(Seq<RecordModel>, int), WalError>(
            (entry.records, s.len() as int),
        ),
    ensures
        entry_read(s) == Ok::<EntryModel, WalError>(entry),
{
}

/// Reading what was written for an entry gives the entry.
#[verifier::spinoff_prover]
#[verifier::rlimit(40)]
pub proof fn wal_entries_read_back(entry: EntryModel)
    requires
        all_fit(entry_lengths(entry)),
        entry_bytes(entry).len() <= usize::MAX,
    ensures
        entry_read(entry_bytes(entry)) == Ok::<EntryModel, WalError>(entry),
{
    fitting_entry_parts(entry);
    let s = entry_bytes(entry);
    let a = magic();
    let b = field_bytes(entry.op_id);
    let c = be32(entry.parents.len());
    let d = fields_bytes(entry.parents);
    let e = be32(entry.records.len());
    let f = records_bytes(entry.records);
    let nil = Seq::<u8>::empty();
    lemma_be32(entry.parents.len(), nil);
    lemma_be32(entry.records.len(), nil);
    lemma_parts(a, b, c, d, e, f);
    let p2 = (a + b).len() as int;
    let p4 = (a + b + c + d).len() as int;
    lemma_taken(nil, a, b + c + d + e + f);
    lemma_field(a, entry.op_id, c + d + e + f);
    lemma_number(a + b, entry.parents.len(), d + e + f);
    lemma_fields(a + b + c, entry.parents, e + f);
    lemma_number(a + b + c + d, entry.records.len(), f);
    lemma_records(a + b + c + d + e, entry.records, nil);
    lemma_assembled(s, entry, p2, p4);
}

proof fn lemma_field_read(s: Seq<u8>, pos: int)
    requires
        0 <= pos <= s.len(),
        field_at(s, pos) is Ok,
    ensures
        ({
            let (b, end) = field_at(s, pos)->Ok_0;
            pos <= end <= s.len() && s.subrange(pos, end) == field_bytes(b) && b.len() <= u32::MAX
        }),
{
    let raw = s.subrange(pos, pos + 4);
    let (b, end) = field_at(s, pos)->Ok_0;
    lemma_be32(0, raw);
    assert(s.subrange(pos, end) =~= raw + b);
}

proof fn lemma_fields_read(s: Seq<u8>, pos: int, n: nat)
    requires
        0 <= pos <= s.len(),
        fields_at(s, pos, n) is Ok,
    ensures
        ({
            let (fields, end) = fields_at(s, pos, n)->Ok_0;
            &&& pos <= end <= s.len()
            &&& fields.len() == n
            &&& s.subrange(pos, end) == fields_bytes(fields)
            &&& forall|i: int| 0 <= i < fields.len() ==> (#[trigger] fields[i]).len() <= u32::MAX
        }),
    decreases n,
{
    if n > 0 {
        lemma_fields_read(s, pos, (n - 1) as nat);
        let (front, p) = fields_at(s, pos, (n - 1) as nat)->Ok_0;
        let (fields, end) = fields_at(s, pos, n)->Ok_0;
        lemma_field_read(s, p);
        assert(fields.drop_last() =~= front);
        assert(s.subrange(pos, end) =~= s.subrange(pos, p) + s.subrange(p, end));
    } else {
        assert(s.subrange(pos, pos) =~= Seq::empty());
    }
}

proof fn lemma_record_read(s: Seq<u8>, pos: int)
    requires
        0 <= pos <= s.len(),
        record_at(s, pos) is Ok,
    ensures
        ({
            let (record, end) = record_at(s, pos)->Ok_0;
            &&& pos <= end <= s.len()
            &&& s.subrange(pos, end) == record_bytes(record)
            &&& record.id.len() <= u32::MAX
            &&& record.data.len() <= u32::MAX
        }),
{
    let (record, end) = record_at(s, pos)->Ok_0;
    let raw = s.subrange(pos, pos + 1);
    assert(raw =~= seq![record.kind.tag_of()]);
    lemma_field_read(s, pos + 1);
    let (id, q) = field_at(s, pos + 1)->Ok_0;
    lemma_field_read(s, q);
    assert(s.subrange(pos, end) =~= raw + s.subrange(pos + 1, q) + s.subrange(q, end));
}

proof fn lemma_records_read(s: Seq<u8>, pos: int, n: nat)
    requires
        0 <= pos <= s.len(),
        records_at(s, pos, n) is Ok,
    ensures
        ({
            let (records, end) = records_at(s, pos, n)->Ok_0;
            &&& pos <= end <= s.len()
            &&& records.len() == n
            &&& s.subrange(pos, end) == records_bytes(records)
            &&& forall|i: int|
                0 <= i < records.len() ==> (#[trigger] records[i]).id.len() <= u32::MAX
                    && records[i].data.len() <= u32::MAX
        }),
    decreases n,
{
    if n > 0 {
        lemma_records_read(s, pos, (n - 1) as nat);
        let (front, p) = records_at(s, pos, (n - 1) as nat)->Ok_0;
        let (records, end) = records_at(s, pos, n)->Ok_0;
        lemma_record_read(s, p);
        assert(records.drop_last() =~= front);
        assert(s.subrange(pos, end) =~= s.subrange(pos, p) + s.subrange(p, end));
    } else {
        assert(s.subrange(pos, pos) =~= Seq::empty());
    }
}

/// Bytes that are accepted are exactly what would be written for the entry that
/// was read from them, so an entry has one encoding and corruption never reads
/// as another spelling of the same entry.
pub proof fn wal_entries_are_canonical(s: Seq<u8>)
    requires
        entry_read(s) is Ok,
    ensures
        s == entry_bytes(entry_read(s)->Ok_0),
        all_fit(entry_lengths(entry_read(s)->Ok_0)),
{
    let entry = entry_read(s)->Ok_0;
    lemma_field_read(s, 8);
    let (op_id, b) = field_at(s, 8)->Ok_0;
    let n = be32_value(s.subrange(b, b + 4));
    let (parents, d) = fields_at(s, b + 4, n)->Ok_0;
    let m = be32_value(s.subrange(d, d + 4));
    assert(s.subrange(b, b + 4) == be32(n) && n <= u32::MAX) by {
        lemma_be32(0, s.subrange(b, b + 4));
    }
    lemma_fields_read(s, b + 4, n);
    assert(s.subrange(d, d + 4) == be32(m) && m <= u32::MAX) by {
        lemma_be32(0, s.subrange(d, d + 4));
    }
    lemma_records_read(s, d + 4, m);
    lemma_cut(s, b, b + 4, d, d + 4);
    fitting_entry_parts(entry);
}

// ─── Index object ─────────────────────────────────────────────────────────────

/// The bucket's view of the repository: which operations are heads, at which
/// CAS version, and which workspace points at which operation.
///
/// The field names mirror `.jj/repo/tandem/heads.json` so the wire protocol's
/// `version` keeps its meaning on both sides.
#[derive(Debug, Clone, PartialEq, Eq)]
pub struct IndexObject {
    pub version: u64,
    pub op_heads: Vec<String>,
    pub workspace_heads: TextMap<String>,
}

/// An index, as a mathematical value.
pub struct IndexModel {
    pub version: u64,
    pub op_heads: Seq<Seq<char>>,
    pub workspace_heads: Map<Seq<char>, Seq<char>>,
}

impl View for IndexObject {
    type V = IndexModel;

    open spec fn view(&self) -> IndexModel {
        IndexModel {
            version: self.version,
            op_heads: models(self.op_heads@),
            workspace_heads: self.workspace_heads@,
        }
    }
}

/// The JSON object of an index: `version`, `opHeads`, `workspaceHeads`.
pub open spec fn index_json(index: IndexObject) -> Seq<(Seq<char>, JsonModel)> {
    seq![
        ("version"@, JsonModel::Number(index.version)),
        ("opHeads"@, JsonModel::Texts(models(index.op_heads@))),
        ("workspaceHeads"@, JsonModel::Entries(pairs_model(index.workspace_heads.items()))),
    ]
}

/// The fields of an index.
pub open spec fn index_names() -> Seq<Seq<char>> {
    seq!["version"@, "opHeads"@, "workspaceHeads"@]
}

/// What a document says of an index: `version` has to be there, the other two
/// fields are empty where they are not.
pub open spec fn index_read(document: Seq<u8>) -> Option<IndexModel> {
    match struct_read(document, index_names()) {
        Some(found) => index_held(found),
        None => None,
    }
}

/// The index that was found, field by field.
pub open spec fn index_held(found: Seq<Option<Seq<u8>>>) -> Option<IndexModel> {
    match (number_held(found[0]), texts_held(found[1]), entries_held(found[2])) {
        (Some(version), Some(op_heads), Some(workspace_heads)) => Some(
            IndexModel { version, op_heads, workspace_heads },
        ),
        _ => None,
    }
}

/// What is written of an index says each thing under its name: the version, the heads in
/// their order, and the head of each workspace.
pub proof fn an_index_says_each_thing_under_its_name(index: IndexObject)
    ensures
        index_json(index).len() == 3,
        forall|i: int|
            0 <= i < 3 ==> {
                let (name, value) = #[trigger] index_json(index)[i];
                ||| name == "version"@ && value == JsonModel::Number(index.version)
                ||| name == "opHeads"@ && value == JsonModel::Texts(models(index.op_heads@))
                ||| name == "workspaceHeads"@ && value == JsonModel::Entries(
                    pairs_model(index.workspace_heads.items()),
                )
            },
        index@.version == index.version,
        index@.op_heads == models(index.op_heads@),
        index@.workspace_heads == index.workspace_heads@,
{
}

/// An index is read from a document exactly when its version is there and the rest can be
/// read, and each of its fields is what the document holds under that field's name.
pub proof fn an_index_is_what_the_document_holds(
    version: Option<Seq<u8>>,
    op_heads: Option<Seq<u8>>,
    workspace_heads: Option<Seq<u8>>,
)
    ensures
        index_names() == seq!["version"@, "opHeads"@, "workspaceHeads"@],
        index_held(seq![version, op_heads, workspace_heads]) is Some <==> number_held(version)
            is Some && texts_held(op_heads) is Some && entries_held(workspace_heads) is Some,
        index_held(seq![version, op_heads, workspace_heads]) matches Some(index) ==> Some(
            index.version,
        ) == number_held(version) && Some(index.op_heads) == texts_held(op_heads) && Some(
            index.workspace_heads,
        ) == entries_held(workspace_heads),
{
}

/// Why a document is not an index object.
#[derive(Debug, Clone, Copy, PartialEq, Eq, Structural)]
pub enum IndexError {
    /// `serde_json` could not write the object.
    Encode,
    /// The document is not the JSON of an index object.
    Decode,
}

impl IndexError {
    pub open spec fn text(self) -> Seq<char> {
        match self {
            IndexError::Encode => "encode index object"@,
            IndexError::Decode => "decode index object"@,
        }
    }

    /// The sentence that names the error.
    pub fn message(&self) -> (s: &'static str)
        ensures
            s@ == self.text(),
    {
        match self {
            IndexError::Encode => "encode index object",
            IndexError::Decode => "decode index object",
        }
    }
}

impl IndexObject {
    /// The empty index at version zero.
    pub fn empty() -> (r: IndexObject)
        ensures
            r.version == 0,
            r.op_heads@ == Seq::<String>::empty(),
            r.workspace_heads.items() == Seq::<(String, String)>::empty(),
            r@.op_heads == Seq::<Seq<char>>::empty(),
            r@.workspace_heads == Map::<Seq<char>, Seq<char>>::empty(),
    {
        let r = IndexObject {
            version: 0,
            op_heads: Vec::new(),
            workspace_heads: TextMap::new(),
        };
        assert(r@.op_heads =~= Seq::empty());
        r
    }

    /// Write the index. What is written reads back as the index.
    pub fn encode(&self) -> (r: Result<Vec<u8>, IndexError>)
        ensures
            r matches Ok(out) && out@ == pretty_object(index_json(*self)) && index_read(out@) == Some(
                self@,
            ),
    {
        let heads = self.workspace_heads.duplicate();
        let mut pairs: Vec<(String, String)> = Vec::new();
        let entries = heads.entries();
        let mut i: usize = 0;
        while i < entries.len()
            invariant
                i <= entries@.len(),
                entries@ == self.workspace_heads.items(),
                pairs@ == entries@.take(i as int),
            decreases entries@.len() - i,
        {
            pairs.push((entries[i].0.clone(), entries[i].1.clone()));
            assert(pairs@ =~= entries@.take(i + 1));
            i = i + 1;
        }
        assert(pairs@ =~= self.workspace_heads.items());
        let heads_list = self.op_heads.clone();
        assert(heads_list@ =~= self.op_heads@);
        let mut fields: Vec<(String, JsonField)> = Vec::new();
        fields.push(("version".to_owned(), JsonField::Number(self.version)));
        fields.push(("opHeads".to_owned(), JsonField::Texts(heads_list)));
        fields.push(("workspaceHeads".to_owned(), JsonField::Entries(pairs)));
        proof {
            reveal_strlit("version");
            reveal_strlit("opHeads");
            reveal_strlit("workspaceHeads");
            assert("version"@[0] == 'v' && "opHeads"@[0] == 'o' && "workspaceHeads"@[0] == 'w');
            assert(fields_model(fields@) =~= index_json(*self));
            assert(field_names(fields@) =~= index_names());
        }
        let ghost sent = fields@;
        match write_object(fields) {
            Ok(out) => {
                proof {
                    let found = struct_read(out@, index_names())->0;
                    assert(is_json_of(found[0]->0, sent[0].1));
                    assert(is_json_of(found[1]->0, sent[1].1));
                    assert(is_json_of(found[2]->0, sent[2].1));
                }
                Ok(out)
            },
            Err(_) => Err(IndexError::Encode),
        }
    }

    /// Read an index. Older and partial objects still parse: only `version` is
    /// needed.
    pub fn decode(bytes: &[u8]) -> (r: Result<IndexObject, IndexError>)
        ensures
            match r {
                Ok(index) => index_read(bytes@) == Some(index@),
                Err(e) => e == IndexError::Decode && index_read(bytes@) is None,
            },
    {
        let mut names: Vec<String> = Vec::new();
        names.push("version".to_owned());
        names.push("opHeads".to_owned());
        names.push("workspaceHeads".to_owned());
        assert(models(names@) =~= index_names());
        let found = match read_struct(bytes, &names) {
            Some(found) => found,
            None => return Err(IndexError::Decode),
        };
        match (number_of(&found[0]), texts_of(&found[1]), entries_of(&found[2])) {
            (Some(version), Some(op_heads), Some(workspace_heads)) => Ok(
                IndexObject { version, op_heads, workspace_heads },
            ),
            _ => Err(IndexError::Decode),
        }
    }
}

} // verus!
