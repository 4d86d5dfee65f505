use tandem::hex::to_hex;
use tandem::heads::{HeadsState, UpdateResult};
use tandem::http::{
    batch_item_kind, batch_item_outcome, bearer_from_headers, claim_writer_reply,
    expected_version_from_if_match, heads_body, heads_headers, id_headers, immutable_headers,
    parse_hex, plan_claim_writer, plan_mint_token, plan_resolve_prefix, plan_update_heads,
    prefix_body, read_batch, repo_info_body, require_bearer, token_body, unknown_bearer, update_heads_reply,
    validated_kind, ApiError, BackendFacts, BatchRun, Permits, ReadFailure,
};
use tandem::http_client::{
    object_path, repo_info_from_body, update_heads_body, validate_repo_info, HeaderText,
};
use tandem::order::TextMap;
use tandem::wire::{
    decode_batch_response, encode_batch_request, encode_batch_response, BatchItem, BatchOutcome,
    ClaimWriterBody, MintTokenBody, UpdateHeadsBody, KIND_FILE,
};
use tandem::writer::{WriterConflict, WriterRole};

fn text(s: &str) -> HeaderText {
    HeaderText::Text(s.to_string())
}

#[test]
fn a_bearer_is_read_from_its_header() {
    assert_eq!(bearer_from_headers(text("Bearer tdm_1")).unwrap(), "tdm_1");
    assert_eq!(bearer_from_headers(HeaderText::Missing).unwrap_err().status, 401);
    assert_eq!(bearer_from_headers(text("Basic abc")).unwrap_err().status, 401);
    assert_eq!(unknown_bearer().status, 401);
}

#[test]
fn a_request_is_let_in_with_what_its_bearer_stands_for() {
    assert_eq!(require_bearer(text("Bearer  tdm_1 "), Some(7)), Ok(7));
    let refused = |header: HeaderText, found: Option<u8>| {
        require_bearer(header, found).unwrap_err().status
    };
    assert_eq!(refused(text("Bearer tdm_1"), None), 401);
    assert_eq!(refused(HeaderText::Missing, Some(7)), 401);
    assert_eq!(refused(text("Bearer   "), Some(7)), 401);
    assert_eq!(refused(text("Basic tdm_1"), Some(7)), 401);
    assert_eq!(refused(HeaderText::NotText("why".to_string()), Some(7)), 400);
}

#[test]
fn failures_become_statuses() {
    assert_eq!(ApiError::from_read(ReadFailure::NotFound, "m").status, 404);
    assert_eq!(ApiError::from_read(ReadFailure::MalformedId, "m").status, 400);
    assert_eq!(ApiError::from_read(ReadFailure::Other, "m").status, 500);
    assert_eq!(ApiError::from_publish(true, "m").status, 403);
    assert_eq!(ApiError::bad_request("m"), ApiError { status: 400, message: "m".to_string() });
    assert_eq!(ApiError::internal("m").status, 500);
}

#[test]
fn kinds_and_ids_in_paths_are_checked() {
    assert_eq!(validated_kind("tree"), Ok("tree"));
    assert!(validated_kind("banana").is_err());
    assert_eq!(parse_hex("0aFF", "object id"), Ok(vec![10, 255]));
    assert_eq!(parse_hex("0", "object id").unwrap_err().status, 400);
}

#[test]
fn answers_carry_their_headers() {
    let immutable = immutable_headers("0a");
    assert!(immutable.iter().any(|(_, v)| v.contains("0a")));
    assert_eq!(
        id_headers("x-id", &[0xab]),
        vec![
            ("content-type", "application/octet-stream".to_string()),
            ("x-id", "ab".to_string()),
        ]
    );
    assert!(heads_headers(7).iter().any(|(_, v)| v == "\"7\""));
}

#[test]
fn what_a_server_says_of_itself_passes_the_handshake() {
    let facts = BackendFacts {
        commit_id_length: 20,
        change_id_length: 16,
        root_commit_id: vec![0; 20],
        root_change_id: vec![0; 16],
        empty_tree_id: vec![1; 20],
    };
    let body = repo_info_body(&facts, "1.2.3");
    assert_eq!(body.tandem_version, "1.2.3");
    let info = repo_info_from_body(body).unwrap();
    assert!(validate_repo_info(&info, &[]).is_ok());
}

#[test]
fn a_batch_is_read_item_by_item() {
    let items = vec![
        BatchItem { kind: 2, data: vec![1] },
        BatchItem { kind: 99, data: vec![] },
    ];
    let read = read_batch(&encode_batch_request(&items)).unwrap();
    assert_eq!(read, items);
    assert_eq!(read_batch(b"junk").unwrap_err().status, 400);
    assert_eq!(batch_item_kind(&items[0]), Ok("file"));
    assert!(matches!(batch_item_kind(&items[1]), Err(BatchOutcome::Failed { .. })));
    assert_eq!(
        batch_item_outcome(Ok((vec![1], vec![2]))),
        BatchOutcome::Written { id: vec![1], normalized: vec![2] }
    );
    assert_eq!(
        batch_item_outcome(Err("no".to_string())),
        BatchOutcome::Failed { message: "no".to_string() }
    );
}

#[test]
fn a_publish_request_comes_through_as_it_was_meant() {
    let sent = update_heads_body(&[vec![1]], &[2], "agent");
    let permits = Some(Permits { admin: false, workspace: true });
    let plan = plan_update_heads(text("\"4\""), permits, sent).unwrap();
    assert_eq!(plan.expected_version, 4);
    assert_eq!(plan.old_ids, vec![vec![1]]);
    assert_eq!(plan.new_id, vec![2]);
    assert_eq!(plan.workspace_id, Some("agent".to_string()));
}

#[test]
fn a_publish_needs_its_version_and_its_permission() {
    let sent = || update_heads_body(&[], &[2], "agent");
    let admin = || Some(Permits { admin: true, workspace: true });
    assert!(plan_update_heads(HeaderText::Missing, admin(), sent()).is_err());
    assert!(plan_update_heads(text("W/x"), admin(), sent()).is_err());
    let none = Some(Permits { admin: false, workspace: false });
    assert_eq!(plan_update_heads(text("\"4\""), none, sent()).unwrap_err().status, 403);
    let odd = UpdateHeadsBody {
        old_ids: vec![],
        new_id: "xyz".to_string(),
        workspace_id: "agent".to_string(),
    };
    assert_eq!(plan_update_heads(text("\"4\""), admin(), odd).unwrap_err().status, 400);
    assert_eq!(expected_version_from_if_match(text("\"12\"")), Ok(12));
}

#[test]
fn a_publish_is_answered_with_the_heads() {
    let result = |ok: bool| UpdateResult {
        ok,
        heads: vec![vec![0x0a]],
        version: 5,
        workspace_heads: TextMap::new(),
    };
    let (status, body) = update_heads_reply(result(true));
    assert_eq!(status, 200);
    assert_eq!(body.heads, vec!["0a".to_string()]);
    assert_eq!(body.version, 5);
    assert_eq!(update_heads_reply(result(false)).0, 412);
    let state =
        HeadsState { version: 3, heads: vec!["0b".to_string()], workspace_heads: TextMap::new() };
    assert_eq!(heads_body(state).heads, vec!["0b".to_string()]);
}

#[test]
fn prefixes_tokens_and_claims_are_planned() {
    assert!(plan_resolve_prefix(None).is_err());
    assert_eq!(plan_resolve_prefix(Some("ab".to_string())), Ok("ab".to_string()));
    let body = prefix_body("singleMatch".to_string(), Some(vec![10]));
    assert_eq!(body.id, Some(to_hex(&[10])));
    let mint = || MintTokenBody { workspace_id: "w".to_string(), ttl_seconds: Some(60) };
    assert!(plan_mint_token(Some(Permits { admin: true, workspace: true }), mint()).is_ok());
    let err = plan_mint_token(Some(Permits { admin: false, workspace: true }), mint());
    assert_eq!(err.unwrap_err().status, 403);
    let token = token_body("t".to_string(), "w".to_string(), 90_000_000_000);
    assert_eq!(token.ttl_seconds, 90);
    let claim = |holder: &str| ClaimWriterBody { holder: holder.to_string(), ttl_seconds: None };
    let permits = || Some(Permits { admin: false, workspace: true });
    let (holder, _) = plan_claim_writer(permits(), "w", claim("me")).unwrap();
    assert_eq!(holder, "me");
    let held = WriterRole {
        workspace_id: "w".to_string(),
        holder: "me".to_string(),
        expires_in: 30_000_000_000,
    };
    assert_eq!(claim_writer_reply(Ok(held)).unwrap().expires_in_seconds, 30);
    let taken = WriterConflict {
        workspace_id: "w".to_string(),
        holder: "other".to_string(),
        expires_in: 1,
    };
    assert_eq!(claim_writer_reply(Err(taken)).unwrap_err().status, 409);
}

#[test]
fn every_item_of_a_batch_gets_its_outcome() {
    let item = |kind: u16, data: u8| BatchItem { kind, data: vec![data] };
    let failed = |message: &str| BatchOutcome::Failed { message: message.to_string() };
    let mut run = BatchRun::new(vec![item(99, 1), item(2, 2), item(98, 3), item(0, 4), item(97, 5)]);
    assert_eq!(run.next(), Some(("file", vec![2])));
    run.took(Ok((vec![7], vec![2])));
    assert_eq!(run.next(), Some(("commit", vec![4])));
    run.took(Err("no commit".to_string()));
    assert_eq!(run.next(), None);
    assert_eq!(
        run.finish(),
        vec![
            failed("unknown object kind: 99"),
            BatchOutcome::Written { id: vec![7], normalized: vec![2] },
            failed("unknown object kind: 98"),
            failed("no commit"),
            failed("unknown object kind: 97"),
        ]
    );
}

/// An id that is a function of the content.
fn content_id(data: &[u8]) -> Vec<u8> {
    let mut hash: u64 = 0xcbf2_9ce4_8422_2325;
    for byte in data {
        hash = (hash ^ *byte as u64).wrapping_mul(0x100_0000_01b3);
    }
    hash.to_be_bytes().to_vec()
}

#[test]
fn files_read_back_byte_identical_from_client_and_server() {
    let contents: Vec<Vec<u8>> =
        vec![vec![], b"a".to_vec(), vec![0, 255, 10, 13], vec![7; 9_000], b"a".to_vec()];
    let items: Vec<BatchItem> =
        contents.iter().map(|data| BatchItem { kind: KIND_FILE, data: data.clone() }).collect();

    let mut store: Vec<(String, Vec<u8>)> = Vec::new();
    let mut run = BatchRun::new(read_batch(&encode_batch_request(&items)).unwrap());
    while let Some((kind, data)) = run.next() {
        let id = content_id(&data);
        store.push((format!("/api/objects/{kind}/{}", to_hex(&id)), data.clone()));
        run.took(Ok((id, data)));
    }
    let outcomes = decode_batch_response(&encode_batch_response(&run.finish())).unwrap();

    assert_eq!(outcomes.len(), contents.len());
    for (outcome, data) in outcomes.iter().zip(&contents) {
        let BatchOutcome::Written { id, normalized } = outcome else {
            panic!("every item has a kind: {outcome:?}");
        };
        assert_eq!(normalized, data);
        let path = object_path(KIND_FILE, id).unwrap();
        let (_, served) = store.iter().find(|(name, _)| *name == path).expect("stored");
        assert_eq!(served, data);
    }
}
