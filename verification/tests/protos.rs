use tandem::backend::{check_commit, commit_data, signed};
use tandem::ids::IdMap;
use tandem::op_store::{
    adopted, known_operation, known_view, operation_answer, operation_to_send,
    resolve_operation_id_prefix, resolve_without_asking, PrefixResolution,
};
use tandem::http_client::PrefixResult;
use tandem::order::TextMap;
use tandem::op_heads_store::operation_view_id;
use tandem::proto_convert::{
    commit_from_proto, is_valid_tree, operation_from_proto, operation_id, operation_to_proto,
    read_commit, read_operation, read_tree, signature_to_proto, tree_from_proto, tree_to_proto,
    write_operation, write_tree, CommitForm, IdList, MessageError, MetadataForm, Operation,
    OperationError, OperationForm, OperationMetadata, Signature, SignatureForm, Timestamp, Tree,
    TreeForm, TreeValue, TreeValueForm,
};

fn a_tree() -> Tree {
    Tree {
        entries: vec![
            (
                "a.txt".to_string(),
                TreeValue::File { id: vec![1, 2], executable: true, copy_id: vec![] },
            ),
            ("dir".to_string(), TreeValue::Tree(vec![3])),
            ("link".to_string(), TreeValue::Symlink(vec![4])),
        ],
    }
}

#[test]
fn a_tree_reads_back() {
    let tree = a_tree();
    let form = tree_to_proto(&tree);
    assert_eq!(form.entries[1].1, Some(Some(TreeValueForm::TreeId(vec![3]))));
    assert!(is_valid_tree(&form));
    assert_eq!(tree_from_proto(&form), tree);
    let bytes = write_tree(&tree);
    assert_eq!(read_tree(&bytes), Ok(tree));
}

#[test]
fn a_tree_is_written_the_way_protobuf_says() {
    let tree = Tree { entries: vec![("d".to_string(), TreeValue::Tree(vec![9]))] };
    // entries = 1 { name = 1 "d", value = 2 { tree_id = 3 "\x09" } }
    let bytes = write_tree(&tree);
    assert_eq!(bytes[0], 0x0a);
    assert!(bytes.windows(3).any(|w| w == [0x0a, 0x01, b'd']));
    assert_eq!(*bytes.last().unwrap(), 9);
}

#[test]
fn bytes_that_are_no_tree_are_refused() {
    assert_eq!(read_tree(&[0xff, 0xff, 0xff]), Err(MessageError::Decode));
    let nameless = TreeForm { entries: vec![("".to_string(), Some(Some(TreeValueForm::TreeId(vec![1]))))] };
    assert!(!is_valid_tree(&nameless));
    let slashed = TreeForm { entries: vec![("a/b".to_string(), Some(Some(TreeValueForm::TreeId(vec![1]))))] };
    assert!(!is_valid_tree(&slashed));
    let empty = TreeForm { entries: vec![("a".to_string(), Some(None))] };
    assert!(!is_valid_tree(&empty));
    // entries = 1 { name = 1 "d" }, without a value
    assert_eq!(read_tree(&[0x0a, 0x03, 0x0a, 0x01, b'd']), Err(MessageError::Malformed));
}

fn a_signature(name: &str) -> SignatureForm {
    signature_to_proto(&Signature {
        name: name.to_string(),
        email: format!("{name}@example.com"),
        timestamp: Timestamp { millis_since_epoch: 1_700_000_000_123, tz_offset: -120 },
    })
}

fn a_commit() -> CommitForm {
    CommitForm {
        parents: vec![vec![1; 20]],
        predecessors: vec![],
        root_tree: vec![vec![2; 20]],
        conflict_labels: vec![],
        change_id: vec![3; 16],
        description: "work".to_string(),
        author: Some(a_signature("ann")),
        committer: None,
        secure_sig: None,
    }
}

#[test]
fn a_commit_reads_back() {
    let data = commit_data(&a_commit());
    let commit = read_commit(&data).unwrap();
    assert_eq!(commit.parents, vec![vec![1; 20]]);
    assert_eq!(commit.root_tree, vec![vec![2; 20]]);
    assert_eq!(commit.change_id, vec![3; 16]);
    assert_eq!(commit.description, "work");
    assert_eq!(commit.author.email, "ann@example.com");
    assert_eq!(commit.author.timestamp.tz_offset, -120);
    // A committer that was not written is nobody, at the epoch.
    assert_eq!(commit.committer.name, "");
    assert_eq!(commit.committer.timestamp.millis_since_epoch, 0);
    assert_eq!(commit.conflict_labels, vec!["".to_string()]);
    assert!(commit.secure_sig.is_none());
}

#[test]
fn a_signed_commit_keeps_what_was_signed() {
    assert!(check_commit(&a_commit()).is_ok());
    let to_sign = commit_data(&a_commit());
    let form = signed(a_commit(), vec![7, 7]);
    let commit = read_commit(&commit_data(&form)).unwrap();
    let kept = commit.secure_sig.unwrap();
    assert_eq!(kept.sig, vec![7, 7]);
    assert_eq!(kept.data, to_sign);
}

#[test]
fn a_commit_without_parents_is_not_written() {
    let mut orphan = a_commit();
    orphan.parents.clear();
    assert_eq!(check_commit(&orphan), Err("Cannot write a commit with no parents".to_string()));
}

#[test]
fn a_commit_of_an_even_number_of_trees_is_none() {
    let mut form = a_commit();
    form.root_tree = vec![vec![1], vec![2]];
    assert_eq!(read_commit(&commit_data(&form)), Err(MessageError::Malformed));
    assert_eq!(read_commit(&[0x0a, 0xff]), Err(MessageError::Decode));
}

#[test]
fn labels_of_a_conflict_are_kept_and_empty_ones_are_not() {
    let mut form = a_commit();
    form.root_tree = vec![vec![1], vec![2], vec![3]];
    form.conflict_labels = vec!["ours".to_string(), "".to_string(), "theirs".to_string()];
    assert_eq!(commit_from_proto(form.clone()).conflict_labels.len(), 3);
    form.conflict_labels = vec!["".to_string(); 3];
    assert_eq!(commit_from_proto(form).conflict_labels, vec!["".to_string()]);
}

fn an_operation() -> Operation {
    let mut tags = TextMap::new();
    tags.insert("args", "jj new".to_string());
    let mut predecessors = IdMap::new();
    predecessors.insert(&[2], IdList { ids: vec![vec![1]] });
    predecessors.insert(&[1], IdList { ids: vec![] });
    Operation {
        view_id: vec![5; 64],
        parents: vec![vec![6; 64]],
        metadata: OperationMetadata {
            start: Timestamp { millis_since_epoch: 10, tz_offset: 60 },
            end: Timestamp { millis_since_epoch: 20, tz_offset: 60 },
            description: "new empty commit".to_string(),
            hostname: "host".to_string(),
            username: "user".to_string(),
            is_snapshot: true,
            tags,
        },
        commit_predecessors: Some(predecessors),
    }
}

#[test]
fn an_operation_reads_back() {
    let operation = an_operation();
    let form = operation_to_proto(&operation);
    assert_eq!(form.commit_predecessors[0].0, vec![1]);
    assert!(form.stores_commit_predecessors);
    assert_eq!(operation_from_proto(form), Ok(an_operation()));
    assert_eq!(read_operation(&write_operation(&operation)), Ok(operation));
}

#[test]
fn predecessors_that_were_not_recorded_stay_unknown() {
    let mut operation = an_operation();
    operation.commit_predecessors = None;
    let read = read_operation(&write_operation(&operation)).unwrap();
    assert!(read.commit_predecessors.is_none());
}

fn an_operation_form() -> OperationForm {
    OperationForm {
        view_id: vec![5; 64],
        parents: vec![],
        metadata: None,
        commit_predecessors: vec![],
        stores_commit_predecessors: false,
    }
}

#[test]
fn ids_of_the_wrong_length_are_refused() {
    let mut form = an_operation_form();
    form.parents = vec![vec![0; 64], vec![0; 63]];
    assert_eq!(
        operation_from_proto(form),
        Err("invalid operation id length: 63".to_string())
    );
    let mut form = an_operation_form();
    form.view_id = vec![];
    assert_eq!(operation_from_proto(form), Err("invalid view id length: 0".to_string()));
    let mut form = an_operation_form();
    form.metadata = Some(MetadataForm {
        start_time: None,
        end_time: Some(Timestamp { millis_since_epoch: 4, tz_offset: 0 }),
        description: "d".to_string(),
        hostname: "".to_string(),
        username: "".to_string(),
        is_snapshot: false,
        tags: vec![],
    });
    let operation = operation_from_proto(form).unwrap();
    assert_eq!(operation.metadata.start.millis_since_epoch, 0);
    assert_eq!(operation.metadata.end.millis_since_epoch, 4);
}

/// The id of an operation is the hash that jj gives it.
#[test]
fn the_view_of_an_operation_is_read_as_it_stands() {
    assert_eq!(operation_view_id(&write_operation(&an_operation())), Some(an_operation().view_id));
    let short = jj_lib::protos::simple_op_store::Operation {
        view_id: vec![1, 2],
        ..Default::default()
    };
    let bytes = prost::Message::encode_to_vec(&short);
    assert!(read_operation(&bytes).is_err());
    assert_eq!(operation_view_id(&bytes), Some(vec![1, 2]));
    assert_eq!(operation_view_id(&[0xff]), None);
}

#[test]
fn an_operation_id_is_its_content_hash() {
    let id = operation_id(&write_operation(&an_operation())).unwrap();
    assert_eq!(id.len(), 64);
    let mut other = an_operation();
    other.metadata.description = "something else".to_string();
    assert_ne!(operation_id(&write_operation(&other)).unwrap(), id);
    let mut tags = std::collections::HashMap::new();
    tags.insert("args".to_string(), "jj new".to_string());
    let time = |millis: i64| jj_lib::backend::Timestamp {
        timestamp: jj_lib::backend::MillisSinceEpoch(millis),
        tz_offset: 60,
    };
    let commit = |bytes: &[u8]| jj_lib::backend::CommitId::new(bytes.to_vec());
    let native = jj_lib::op_store::Operation {
        view_id: jj_lib::op_store::ViewId::new(vec![5; 64]),
        parents: vec![jj_lib::op_store::OperationId::new(vec![6; 64])],
        metadata: jj_lib::op_store::OperationMetadata {
            time: jj_lib::op_store::TimestampRange { start: time(10), end: time(20) },
            description: "new empty commit".to_string(),
            hostname: "host".to_string(),
            username: "user".to_string(),
            is_snapshot: true,
            tags,
        },
        commit_predecessors: Some(
            vec![(commit(&[1]), vec![]), (commit(&[2]), vec![commit(&[1])])].into_iter().collect(),
        ),
    };
    assert_eq!(jj_lib::content_hash::blake2b_hash(&native).to_vec(), id);
    assert_eq!(operation_id(&[0xff]), Err(OperationError::Decode));
    let mut short = an_operation();
    short.view_id = vec![1];
    assert_eq!(
        operation_id(&write_operation(&short)),
        Err(OperationError::Convert("invalid view id length: 1".to_string()))
    );
}

// ─── The operation store of a client ──────────────────────────────────────────

#[test]
fn the_roots_are_known_without_asking() {
    let root = vec![0u8; 64];
    let operation = known_operation(&root, &root).unwrap();
    assert_eq!(operation.view_id, vec![0u8; 64]);
    assert!(operation.parents.is_empty());
    assert!(known_operation(&[1; 64], &root).is_none());
    let view = known_view(&[0; 64], &[9; 20]).unwrap();
    assert_eq!(view.head_ids, vec![vec![9; 20]]);
    assert!(!view.git_head.is_present());
    assert!(known_view(&[1; 64], &[9; 20]).is_none());
}

#[test]
fn an_operation_without_a_parent_hangs_below_the_root() {
    let root = vec![7u8; 64];
    let mut orphan = an_operation();
    orphan.parents.clear();
    let read = operation_answer(&write_operation(&orphan), &root).unwrap();
    assert_eq!(read.parents, vec![root.clone()]);
    assert_eq!(adopted(an_operation(), &root).parents, vec![vec![6; 64]]);
    let sent = operation_to_send(&an_operation());
    assert_eq!(operation_answer(&sent, &root), Ok(an_operation()));
}

#[test]
fn the_root_takes_part_in_prefixes() {
    let root = vec![0u8; 64];
    let whole = "00".repeat(64);
    assert_eq!(
        resolve_without_asking(&whole, &root),
        Some(PrefixResolution::SingleMatch(root.clone()))
    );
    assert_eq!(resolve_without_asking("00", &root), None);
    assert_eq!(
        resolve_operation_id_prefix("00", &root, PrefixResult::NoMatch, None),
        PrefixResolution::SingleMatch(root.clone())
    );
    assert_eq!(
        resolve_operation_id_prefix("00", &root, PrefixResult::SingleMatch, Some(vec![0, 1])),
        PrefixResolution::AmbiguousMatch
    );
    assert_eq!(
        resolve_operation_id_prefix("0a", &root, PrefixResult::SingleMatch, Some(vec![10])),
        PrefixResolution::SingleMatch(vec![10])
    );
    assert_eq!(
        resolve_operation_id_prefix("0a", &root, PrefixResult::SingleMatch, None),
        PrefixResolution::NoMatch
    );
    assert_eq!(
        resolve_operation_id_prefix("0a", &root, PrefixResult::NoMatch, None),
        PrefixResolution::NoMatch
    );
    assert_eq!(
        resolve_operation_id_prefix("0a", &root, PrefixResult::Ambiguous, None),
        PrefixResolution::AmbiguousMatch
    );
}
