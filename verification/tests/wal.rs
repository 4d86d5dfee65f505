use tandem::document::{read_struct, value_under, values_in_order, values_under, Member};
use tandem::order::TextMap;
use tandem::wal::{
    push_u32, wal_key, IndexError, IndexObject, RecordKind, WalEntry, WalError, WalRecord,
};

const MAGIC: &[u8; 8] = b"TDMWAL\x00\x01";

fn record(kind: RecordKind, id: &[u8], data: &[u8]) -> WalRecord {
    WalRecord { kind, id: id.to_vec(), data: data.to_vec() }
}

#[test]
fn wal_entry_round_trips() {
    let entry = WalEntry {
        op_id: vec![0xab, 0xcd],
        parents: vec![vec![0x01], vec![0x02, 0x03]],
        records: vec![
            WalRecord { kind: RecordKind::File, id: vec![9, 9], data: b"hello".to_vec() },
            WalRecord { kind: RecordKind::View, id: vec![7], data: b"view-proto".to_vec() },
            WalRecord {
                kind: RecordKind::Operation,
                id: vec![0xab, 0xcd],
                data: b"op-proto".to_vec(),
            },
        ],
    };
    let encoded = entry.encode().unwrap();
    assert_eq!(WalEntry::decode(&encoded).unwrap(), entry);
}

#[test]
fn wal_entry_with_no_records_round_trips() {
    let entry = WalEntry { op_id: vec![1, 2, 3], parents: Vec::new(), records: Vec::new() };
    assert_eq!(WalEntry::decode(&entry.encode().unwrap()).unwrap(), entry);
}

#[test]
fn wal_entry_rejects_corruption() {
    let entry = WalEntry { op_id: vec![1], parents: Vec::new(), records: Vec::new() };
    let encoded = entry.encode().unwrap();
    assert!(WalEntry::decode(&encoded[..encoded.len() - 1]).is_err());

    let mut wrong_magic = encoded.clone();
    wrong_magic[0] = b'X';
    assert!(WalEntry::decode(&wrong_magic).is_err());

    let mut trailing = encoded.clone();
    trailing.push(0);
    assert!(WalEntry::decode(&trailing).is_err());
}

/// A count read off the wire must not be trusted as an allocation size.
#[test]
fn wal_entry_does_not_allocate_on_a_claimed_count() {
    let mut hostile = Vec::new();
    hostile.extend_from_slice(MAGIC);
    hostile.extend_from_slice(&0u32.to_be_bytes()); // empty op id
    hostile.extend_from_slice(&u32::MAX.to_be_bytes()); // "four billion parents"
    assert!(WalEntry::decode(&hostile).is_err());

    let mut hostile_records = Vec::new();
    hostile_records.extend_from_slice(MAGIC);
    hostile_records.extend_from_slice(&0u32.to_be_bytes());
    hostile_records.extend_from_slice(&0u32.to_be_bytes());
    hostile_records.extend_from_slice(&u32::MAX.to_be_bytes());
    assert!(WalEntry::decode(&hostile_records).is_err());
}

/// The 32-bit framing is a hard limit, not a truncation point.
#[test]
fn wal_entry_rejects_a_field_too_large_for_the_framing() {
    let mut lengths = Vec::new();
    // A record id of exactly u32::MAX + 1 bytes cannot be framed. Building
    // one is not worth 4 GiB of RAM, so exercise the check directly.
    assert!(push_u32(&mut lengths, u32::MAX as usize + 1).is_err());
    assert!(push_u32(&mut lengths, u32::MAX as usize).is_ok());
}

#[test]
fn index_object_round_trips() {
    let mut workspace_heads = TextMap::new();
    workspace_heads.insert("agent-a", "aa".to_string());
    let index = IndexObject {
        version: 42,
        op_heads: vec!["aa".into(), "bb".into()],
        workspace_heads,
    };
    let encoded = index.encode().unwrap();
    assert_eq!(IndexObject::decode(&encoded).unwrap(), index);

    // Older/partial objects still parse.
    let minimal = IndexObject::decode(br#"{"version":3}"#).unwrap();
    assert_eq!(minimal.version, 3);
    assert!(minimal.op_heads.is_empty());
}

#[test]
fn wal_key_is_the_operation_id() {
    assert_eq!(wal_key("deadbeef"), "wal/deadbeef");
}

#[test]
fn an_entry_has_these_bytes() {
    let entry = WalEntry {
        op_id: vec![0xaa],
        parents: vec![vec![0xbb]],
        records: vec![record(RecordKind::File, &[1], &[2, 3])],
    };
    let mut expected = MAGIC.to_vec();
    expected.extend_from_slice(&[0, 0, 0, 1, 0xaa]);
    expected.extend_from_slice(&[0, 0, 0, 1]);
    expected.extend_from_slice(&[0, 0, 0, 1, 0xbb]);
    expected.extend_from_slice(&[0, 0, 0, 1]);
    expected.push(3);
    expected.extend_from_slice(&[0, 0, 0, 1, 1]);
    expected.extend_from_slice(&[0, 0, 0, 2, 2, 3]);
    assert_eq!(entry.encode().unwrap(), expected);
}

#[test]
fn each_way_an_entry_can_be_wrong_has_its_error() {
    let entry = WalEntry {
        op_id: vec![1],
        parents: vec![],
        records: vec![record(RecordKind::Tree, &[5], &[6])],
    };
    let encoded = entry.encode().unwrap();
    assert_eq!(WalEntry::decode(&encoded[..3]), Err(WalError::Truncated));
    let mut other = encoded.clone();
    other[7] = 2;
    assert_eq!(WalEntry::decode(&other), Err(WalError::BadMagic));
    let mut trailing = encoded.clone();
    trailing.push(9);
    assert_eq!(WalEntry::decode(&trailing), Err(WalError::TrailingBytes));
    // Magic, op id, parent count, record count, then the kind.
    let kind_at = 8 + 5 + 4 + 4;
    let mut unknown = encoded.clone();
    unknown[kind_at] = 200;
    assert_eq!(WalEntry::decode(&unknown), Err(WalError::UnknownKind(200)));
    let mut lengths = vec![];
    assert_eq!(
        push_u32(&mut lengths, u32::MAX as usize + 1),
        Err(WalError::FieldTooLarge(u32::MAX as usize + 1))
    );
    assert!(lengths.is_empty());
    assert!(push_u32(&mut lengths, 258).is_ok());
    assert_eq!(lengths, vec![0, 0, 1, 2]);
}

#[test]
fn a_length_past_the_end_is_a_truncation() {
    let mut bytes = MAGIC.to_vec();
    bytes.extend_from_slice(&u32::MAX.to_be_bytes());
    bytes.extend_from_slice(&[1, 2, 3]);
    assert_eq!(WalEntry::decode(&bytes), Err(WalError::Truncated));
}

#[test]
fn record_kinds_have_object_words() {
    assert_eq!(RecordKind::from_object_kind("file"), Some(RecordKind::File));
    assert_eq!(RecordKind::from_object_kind("symlink"), Some(RecordKind::Symlink));
    assert_eq!(RecordKind::from_object_kind("operation"), None);
    assert_eq!(RecordKind::Commit.object_kind(), Some("commit"));
    assert_eq!(RecordKind::View.object_kind(), None);
}

#[test]
fn an_index_is_written_the_way_people_read_it() {
    let mut workspace_heads = TextMap::new();
    workspace_heads.insert("b", "02".to_string());
    workspace_heads.insert("a", "01".to_string());
    let index = IndexObject { version: 7, op_heads: vec!["ff".to_string()], workspace_heads };
    let text = String::from_utf8(index.encode().unwrap()).unwrap();
    let expected = "{\n  \"version\": 7,\n  \"opHeads\": [\n    \"ff\"\n  ],\n  \"workspaceHeads\": {\n    \"a\": \"01\",\n    \"b\": \"02\"\n  }\n}";
    assert_eq!(text, expected);
}

#[test]
fn an_index_that_is_no_index_is_an_error() {
    assert_eq!(IndexObject::decode(b"{}").unwrap_err(), IndexError::Decode);
    assert_eq!(IndexObject::decode(b"no json").unwrap_err(), IndexError::Decode);
    assert_eq!(IndexObject::decode(br#"{"version":-1}"#).unwrap_err(), IndexError::Decode);
    assert_eq!(
        IndexObject::decode(br#"{"version":1,"opHeads":"aa"}"#).unwrap_err(),
        IndexError::Decode
    );
    let full = IndexObject::decode(br#"{"version":1,"opHeads":["cc"],"workspaceHeads":{"w":"cc"}}"#)
        .unwrap();
    assert_eq!(full.op_heads, vec!["cc".to_string()]);
    assert_eq!(full.workspace_heads.get("w").map(|s| s.as_str()), Some("cc"));
}

fn index(version: u64, op_heads: &[&str]) -> Result<IndexObject, IndexError> {
    let op_heads = op_heads.iter().map(|head| head.to_string()).collect();
    Ok(IndexObject { version, op_heads, workspace_heads: TextMap::new() })
}

#[test]
fn the_fields_of_an_index_come_in_any_order_once_each() {
    let read = |text: &str| IndexObject::decode(text.as_bytes());
    assert_eq!(read(r#" { "opHeads" : [ "a" ] , "version" : 1 } "#), index(1, &["a"]));
    assert_eq!(read(r#"{"version":1}"#), index(1, &[]));
    // Fields that nobody asked for are passed over, even twice.
    assert_eq!(read(r#"{"x":[1],"version":1,"x":{"y":null}}"#), index(1, &[]));
    let refused = Err(IndexError::Decode);
    assert_eq!(read(r#"{"version":1,"version":1}"#), refused);
    assert_eq!(read(r#"{"version":1,"opHeads":[],"opHeads":[]}"#), refused);
    assert_eq!(read(r#"{"opHeads":["a"]}"#), refused);
    assert_eq!(read(r#"{"version":1,"opHeads":null}"#), refused);
    assert_eq!(read(r#"{"version":-1}"#), refused);
    assert_eq!(read(r#"{"version":1,}"#), refused);
    assert_eq!(read(r#"{"version":1 "x":2}"#), refused);
    assert_eq!(read(r#"{,"version":1}"#), refused);
    assert_eq!(read(r#"{"version" 1}"#), refused);
    assert_eq!(read(r#"{version:1}"#), refused);
    assert_eq!(read(r#"{"version":1"#), refused);
    assert_eq!(read(r#"{"version":1} x"#), refused);
    assert_eq!(read("7"), refused);
    assert_eq!(read(""), refused);
}

#[test]
fn an_index_may_be_an_array_of_its_fields() {
    let read = |text: &str| IndexObject::decode(text.as_bytes());
    assert_eq!(read("[1]"), index(1, &[]));
    assert_eq!(read(r#"[ 1 , ["a"] ]"#), index(1, &["a"]));
    let mut whole = index(1, &["a"]).unwrap();
    whole.workspace_heads.insert("w", "a".to_string());
    assert_eq!(read(r#"[1,["a"],{"w":"a"}]"#), Ok(whole));
    for refused in ["[]", r#"[1,["a"],{},4]"#, "[1,]", "[1 2]", "[,1]", "[[],1]", "[1", "[1]]"] {
        assert_eq!(read(refused), Err(IndexError::Decode), "{refused}");
    }
}

#[test]
fn what_nobody_asked_for_is_not_read() {
    let mut document = br#"{"note":""#.to_vec();
    document.push(0xff);
    document.extend_from_slice(br#"","version":3}"#);
    assert_eq!(IndexObject::decode(&document), index(3, &[]));
    // A name is read, whoever asks for it.
    let mut named = b"{\"".to_vec();
    named.push(0xff);
    named.extend_from_slice(br#"":1,"version":3}"#);
    assert_eq!(IndexObject::decode(&named), Err(IndexError::Decode));
    assert_eq!(IndexObject::decode(br#"{"\u0076ersion":3}"#), index(3, &[]));
}

#[test]
fn members_are_found_by_name() {
    let member = |name: &str, value: &[u8]| Member { name: name.to_string(), value: value.to_vec() };
    let members = vec![member("a", b"1"), member("b", b"2"), member("b", b"3")];
    assert_eq!(value_under(&members, "a"), Some(Some(b"1".to_vec())));
    assert_eq!(value_under(&members, "c"), Some(None));
    assert_eq!(value_under(&members, "b"), None);
    let names = |list: &[&str]| list.iter().map(|name| name.to_string()).collect();
    assert_eq!(
        values_under(&members, &names(&["c", "a"])),
        Some(vec![None, Some(b"1".to_vec())])
    );
    assert_eq!(values_under(&members, &names(&["a", "b"])), None);
    assert_eq!(values_in_order(vec![vec![1]], 2), Some(vec![Some(vec![1]), None]));
    assert_eq!(values_in_order(vec![vec![1], vec![2]], 1), None);
    assert_eq!(
        read_struct(br#"{"a": 1 , "b":[2]}"#, &names(&["b", "a"])),
        Some(vec![Some(b"[2]".to_vec()), Some(b" 1".to_vec())])
    );
}
