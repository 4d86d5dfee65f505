use tandem::hex::to_hex;
use tandem::http_client::{
    bench_injected_rtt_delay, check, claim_answer, error_detail, etag_for_version, header_id,
    heads_state_from_body, mint_answer, object_path, operation_path, prefix_from_body, prefix_path,
    repo_info_from_body, supports_capability, update_answer, update_heads_body, validate_repo_info,
    version_from_etag, view_path, ClientReads, ConnectorTarget, HeaderText, PrefixResult, ReadStart,
    RepoMismatch, WriterClaim,
};
use tandem::order::TextMap;
use tandem::rpc;
use tandem::wire::{
    HeadsBody, PrefixBody, RepoCapability, RepoInfoBody, WriterRoleBody, KIND_FILE,
};

#[test]
fn connector_target_parses_raw_host_port_as_http() {
    let parsed = ConnectorTarget::parse("127.0.0.1:12345").expect("parse endpoint");
    assert_eq!(parsed.base_url(), "http://127.0.0.1:12345");
    assert_eq!(parsed.display_addr(), "127.0.0.1:12345");
}

#[test]
fn connector_target_accepts_an_explicit_http_url() {
    let parsed = ConnectorTarget::parse("http://example.com:8080/").expect("parse endpoint");
    assert_eq!(parsed.base_url(), "http://example.com:8080");
    assert_eq!(parsed.display_addr(), "example.com:8080");
}

#[test]
fn http_client_connector_target_rejects_unknown_transport_scheme() {
    let err = ConnectorTarget::parse("wss://example.com:443").expect_err("must reject wss");
    assert!(
        err.contains("unsupported tandem transport scheme"),
        "unexpected error: {err:#}"
    );
}

#[test]
fn connector_target_parses_raw_host_port_as_tcp() {
    let parsed = rpc::ConnectorTarget::parse("127.0.0.1:12345").expect("parse endpoint");
    match parsed {
        rpc::ConnectorTarget::Tcp { addr } => assert_eq!(addr, "127.0.0.1:12345"),
    }
}

#[test]
fn rpc_connector_target_rejects_unknown_transport_scheme() {
    let err = rpc::ConnectorTarget::parse("wss://example.com:443").expect_err("must reject wss");
    assert!(
        err.contains("unsupported tandem transport scheme"),
        "unexpected error: {err:#}"
    );
}

#[test]
fn etags_round_trip_a_version() {
    assert_eq!(etag_for_version(0), "\"0\"");
    assert_eq!(version_from_etag(&etag_for_version(42)), Some(42));
    assert_eq!(version_from_etag("not-a-version"), None);
}

#[test]
fn the_largest_version_has_an_etag_too() {
    assert_eq!(version_from_etag(&etag_for_version(u64::MAX)), Some(u64::MAX));
    assert_eq!(version_from_etag("\"18446744073709551616\""), None);
}

#[test]
fn a_refused_endpoint_is_quoted() {
    let err = ConnectorTarget::parse("we\"ird://x").expect_err("no such scheme");
    assert!(err.contains("\"we\\\"ird\""), "{err}");
}

#[test]
fn urls_are_made_of_the_base_and_a_path() {
    let parsed = ConnectorTarget::parse("http://example.com:8080").unwrap();
    assert_eq!(parsed.url("/api/info"), "http://example.com:8080/api/info");
}

fn info_body() -> RepoInfoBody {
    RepoInfoBody {
        protocol_major: tandem::wire::PROTOCOL_MAJOR,
        protocol_minor: tandem::wire::PROTOCOL_MINOR,
        tandem_version: "test".to_string(),
        backend_name: tandem::wire::BACKEND_NAME.to_string(),
        op_store_name: tandem::wire::OP_STORE_NAME.to_string(),
        commit_id_length: 20,
        change_id_length: 16,
        root_commit_id: "00".repeat(20),
        root_change_id: "00".repeat(16),
        empty_tree_id: "01".repeat(20),
        root_operation_id: "00".repeat(64),
        capabilities: vec!["watchHeads".to_string(), "unheard-of".to_string()],
    }
}

#[test]
fn a_server_that_fits_passes_the_handshake() {
    let info = repo_info_from_body(info_body()).expect("readable");
    assert_eq!(info.commit_id_length, 20);
    assert_eq!(info.capabilities, vec![RepoCapability::WatchHeads]);
    assert!(validate_repo_info(&info, &[RepoCapability::WatchHeads]).is_ok());
    assert!(supports_capability(&info, RepoCapability::WatchHeads));
    assert!(!supports_capability(&info, RepoCapability::CopyTracking));
}

#[test]
fn each_mismatch_of_the_handshake_is_found() {
    let good = repo_info_from_body(info_body()).unwrap();
    let mut other = good.clone();
    other.protocol_major += 1;
    assert_eq!(validate_repo_info(&other, &[]).unwrap_err(), RepoMismatch::ProtocolMajor);
    let mut other = good.clone();
    other.backend_name = "git".to_string();
    assert_eq!(validate_repo_info(&other, &[]).unwrap_err(), RepoMismatch::BackendName);
    let mut other = good.clone();
    other.op_store_name = "simple".to_string();
    assert_eq!(validate_repo_info(&other, &[]).unwrap_err(), RepoMismatch::OpStoreName);
    let mut other = good.clone();
    other.commit_id_length = 0;
    assert_eq!(validate_repo_info(&other, &[]).unwrap_err(), RepoMismatch::NoCommitIdLength);
    let mut other = good.clone();
    other.change_id_length = 0;
    assert_eq!(validate_repo_info(&other, &[]).unwrap_err(), RepoMismatch::NoChangeIdLength);
    let mut other = good.clone();
    other.root_commit_id.pop();
    assert_eq!(validate_repo_info(&other, &[]).unwrap_err(), RepoMismatch::RootCommitId);
    let mut other = good.clone();
    other.root_change_id.pop();
    assert_eq!(validate_repo_info(&other, &[]).unwrap_err(), RepoMismatch::RootChangeId);
    let mut other = good.clone();
    other.empty_tree_id = vec![];
    assert_eq!(validate_repo_info(&other, &[]).unwrap_err(), RepoMismatch::EmptyTreeId);
    let mut other = good.clone();
    other.root_operation_id.pop();
    assert_eq!(validate_repo_info(&other, &[]).unwrap_err(), RepoMismatch::RootOperationId);
    assert_eq!(
        validate_repo_info(&good, &[RepoCapability::CopyTracking]).unwrap_err(),
        RepoMismatch::MissingCapability(RepoCapability::CopyTracking)
    );
}

#[test]
fn an_id_that_is_not_hex_stops_the_handshake() {
    let mut body = info_body();
    body.empty_tree_id = "xyz".to_string();
    assert!(repo_info_from_body(body).is_err());
}

#[test]
fn heads_come_as_hex() {
    let mut workspace_heads = TextMap::new();
    workspace_heads.insert("w", "0aff".to_string());
    let state = heads_state_from_body(HeadsBody {
        version: 9,
        heads: vec!["00".to_string(), "0aff".to_string()],
        workspace_heads,
    })
    .unwrap();
    assert_eq!(state.version, 9);
    assert_eq!(state.heads, vec![vec![0], vec![10, 255]]);
    assert_eq!(state.workspace_heads.get("w"), Some(&vec![10, 255]));
    let wrong = HeadsBody {
        version: 9,
        heads: vec!["0".to_string()],
        workspace_heads: TextMap::new(),
    };
    assert!(heads_state_from_body(wrong).is_err());
}

#[test]
fn a_publish_is_sent_as_hex() {
    let body = update_heads_body(&[vec![1], vec![2, 3]], &[0xfe], "agent");
    assert_eq!(body.old_ids, vec!["01".to_string(), "0203".to_string()]);
    assert_eq!(body.new_id, "fe");
    assert_eq!(body.workspace_id, "agent");
}

#[test]
fn the_servers_own_words_come_first_in_an_error() {
    assert_eq!(error_detail("{\"error\":\"no such object\"}"), "no such object");
    assert_eq!(error_detail("plain text"), "plain text");
    assert_eq!(error_detail("[\"said in order\"]"), "said in order");
    for as_it_is in ["{\"error\":\"a\",\"error\":\"b\"}", "{\"error\":1}", "{}", "[\"a\",1]"] {
        assert_eq!(error_detail(as_it_is), as_it_is);
    }
    assert!(check(200, "", "read").is_ok());
    let err = check(404, "{\"error\":\"gone\"}", "read the object").unwrap_err();
    assert!(err.contains("gone") && err.contains("read the object"), "{err}");
}

#[test]
fn a_refused_publish_is_an_answer_and_not_an_error() {
    assert_eq!(update_answer(200, ""), Ok(true));
    assert_eq!(update_answer(412, ""), Ok(false));
    assert!(update_answer(500, "boom").is_err());
}

#[test]
fn a_claim_is_held_or_refused() {
    let role = WriterRoleBody {
        workspace_id: "w".to_string(),
        holder: "me".to_string(),
        expires_in_seconds: 30,
    };
    match claim_answer(200, "", Some(role)).unwrap() {
        WriterClaim::Held { holder, .. } => assert_eq!(holder, "me"),
        other => panic!("unexpected answer: {other:?}"),
    }
    match claim_answer(409, "{\"error\":\"held by another\"}", None).unwrap() {
        WriterClaim::Refused { detail } => assert_eq!(detail, "held by another"),
        other => panic!("unexpected answer: {other:?}"),
    }
    assert!(claim_answer(500, "boom", None).is_err());
    assert!(mint_answer(500, "boom").is_err());
}

#[test]
fn paths_name_what_they_fetch() {
    assert_eq!(object_path(KIND_FILE, &[0xab, 0x01]).unwrap(), "/api/objects/file/ab01");
    assert!(object_path(77, &[1]).is_err());
    assert_eq!(operation_path(&[0x0f]), "/api/ops/0f");
    assert_eq!(view_path(&[0x0f]), "/api/views/0f");
    assert_eq!(prefix_path("aB3").unwrap(), "/api/ops?prefix=aB3");
    assert!(prefix_path("a&b").unwrap_err().contains("\"a&b\""));
}

#[test]
fn an_id_header_has_to_be_there_and_hex() {
    assert_eq!(header_id(HeaderText::Text("0aff".to_string()), "x-id").unwrap(), vec![10, 255]);
    assert!(header_id(HeaderText::Missing, "x-id").is_err());
    assert!(header_id(HeaderText::NotText("bad".to_string()), "x-id").is_err());
    assert!(header_id(HeaderText::Text("zz".to_string()), "x-id").is_err());
}

#[test]
fn prefixes_are_resolved_by_word() {
    let body = |word: &str, id: Option<&str>| PrefixBody {
        resolution: word.to_string(),
        id: id.map(|s| s.to_string()),
    };
    assert_eq!(prefix_from_body(body("noMatch", None)), Ok((PrefixResult::NoMatch, None)));
    assert_eq!(
        prefix_from_body(body("singleMatch", Some("0a"))),
        Ok((PrefixResult::SingleMatch, Some(vec![10])))
    );
    assert_eq!(prefix_from_body(body("ambiguous", None)), Ok((PrefixResult::Ambiguous, None)));
    assert_eq!(prefix_from_body(body("whatever", None)), Ok((PrefixResult::NoMatch, None)));
    assert_eq!(
        prefix_from_body(body("singleMatch", Some(""))),
        Ok((PrefixResult::SingleMatch, None))
    );
    assert!(prefix_from_body(body("singleMatch", Some("zz"))).is_err());
}

#[test]
fn an_injected_delay_is_a_number_or_nothing() {
    assert_eq!(bench_injected_rtt_delay(None), 0);
    assert_eq!(bench_injected_rtt_delay(Some("50")), 50);
    assert_eq!(bench_injected_rtt_delay(Some("soon")), 0);
}

// ─── Reads through a cache ────────────────────────────────────────────────────

/// A server that counts the requests that reach it.
struct CountingServer {
    objects: Vec<(String, Vec<u8>)>,
    requests: u64,
}

impl CountingServer {
    fn with(id: &[u8], payload: &[u8]) -> CountingServer {
        let path = format!("/api/objects/file/{}", to_hex(id));
        CountingServer { objects: vec![(path, payload.to_vec())], requests: 0 }
    }

    fn answer(&mut self, path: &str) -> (u16, Vec<u8>) {
        self.requests += 1;
        match self.objects.iter().find(|(name, _)| name == path) {
            Some((_, body)) => (200, body.clone()),
            None => (404, b"{\"error\":\"not found\"}".to_vec()),
        }
    }
}

type Cache = Vec<(Vec<u8>, Vec<u8>)>;

/// A client that has shaken hands, which took one request.
fn connect(server: &mut CountingServer) -> ClientReads {
    let mut client = ClientReads { requests_sent: 0 };
    assert_eq!(client.start(None), ReadStart::Ask);
    server.requests += 1;
    let info = repo_info_from_body(info_body()).expect("repo info");
    assert_eq!(validate_repo_info(&info, &[]), Ok(()));
    client
}

fn read(
    client: &mut ClientReads,
    server: &mut CountingServer,
    mut cache: Option<&mut Cache>,
    id: &[u8],
) -> Result<Vec<u8>, String> {
    let cached = cache
        .as_ref()
        .and_then(|cache| cache.iter().find(|(key, _)| key == id))
        .map(|(_, data)| data.clone());
    if let ReadStart::Served(data) = client.start(cached) {
        return Ok(data);
    }
    let (status, body) = server.answer(&object_path(KIND_FILE, id)?);
    let text = String::from_utf8_lossy(&body).into_owned();
    let (keep, outcome) = ClientReads::finish(status, &text, body, "get object");
    if let (true, Some(cache), Ok(data)) = (keep, cache.as_mut(), &outcome) {
        cache.push((id.to_vec(), data.clone()));
    }
    outcome
}

#[test]
fn a_cached_object_is_served_with_no_request_at_all() {
    let id = vec![0xab, 0xcd, 0xef];
    let payload = b"the bytes of one file object".to_vec();
    let mut server = CountingServer::with(&id, &payload);
    let mut cache = Cache::new();

    let mut client = connect(&mut server);
    assert_eq!(client.requests_sent, 1, "the handshake, and nothing else");

    let cold = read(&mut client, &mut server, Some(&mut cache), &id).expect("cold read");
    assert_eq!(cold, payload);
    assert_eq!(client.requests_sent, 2, "a cold read has to ask");

    let warm = read(&mut client, &mut server, Some(&mut cache), &id).expect("warm read");
    assert_eq!(warm, payload);
    assert_eq!(client.requests_sent, 2, "a warm read must not send a request");
    assert_eq!(server.requests, 2, "and none must arrive either");
}

#[test]
fn a_second_command_on_the_same_machine_reads_from_the_cache() {
    let id = vec![0x11, 0x22];
    let payload = b"shared between commands".to_vec();
    let mut server = CountingServer::with(&id, &payload);
    let mut cache = Cache::new();

    let mut first = connect(&mut server);
    assert_eq!(read(&mut first, &mut server, Some(&mut cache), &id).expect("cold read"), payload);
    let after_warming = server.requests;

    let mut second = connect(&mut server);
    assert_eq!(read(&mut second, &mut server, Some(&mut cache), &id).expect("warm read"), payload);
    assert_eq!(second.requests_sent, 1, "the second client's only request must be its handshake");
    assert_eq!(
        server.requests,
        after_warming + 1,
        "the handshake arrived; the object read did not"
    );
}

#[test]
fn a_missing_object_is_not_remembered_as_missing() {
    let id = vec![0x77];
    let mut server = CountingServer { objects: vec![], requests: 0 };
    let mut cache = Cache::new();

    let mut client = connect(&mut server);
    let err = read(&mut client, &mut server, Some(&mut cache), &id).unwrap_err();
    assert_eq!(err, "get object failed: HTTP 404 — not found");
    assert!(cache.is_empty(), "a 404 must leave nothing on disk");

    let before = client.requests_sent;
    assert!(read(&mut client, &mut server, Some(&mut cache), &id).is_err());
    assert_eq!(client.requests_sent, before + 1, "the second attempt must ask the server again");
}

#[test]
fn a_client_without_a_cache_still_reads() {
    let id = vec![0x01];
    let payload = b"no cache here".to_vec();
    let mut server = CountingServer::with(&id, &payload);

    let mut client = connect(&mut server);
    assert_eq!(read(&mut client, &mut server, None, &id).expect("first read"), payload);
    assert_eq!(read(&mut client, &mut server, None, &id).expect("second read"), payload);
    assert_eq!(server.requests, 3, "every read asks when there is no cache");
}

#[test]
fn requests_wait_for_a_place_and_go_in_order() {
    let mut queue = rpc::RequestQueue::new(2);
    assert_eq!(queue.arrived(1), Some(1));
    assert_eq!(queue.arrived(2), Some(2));
    assert_eq!(queue.arrived(3), None);
    assert_eq!(queue.arrived(4), None);
    assert_eq!(queue.inflight(), 2);
    assert_eq!(queue.finished(), Some(3));
    assert_eq!(queue.finished(), Some(4));
    assert_eq!(queue.inflight(), 2);
    assert_eq!(queue.finished(), None);
    assert_eq!(queue.finished(), None);
    assert_eq!(queue.inflight(), 0);

    let mut one_by_one = rpc::RequestQueue::new(0);
    assert_eq!(one_by_one.arrived(7), Some(7));
    assert_eq!(one_by_one.arrived(8), None);
    assert_eq!(one_by_one.finished(), Some(8));
}

#[test]
fn optional_methods_are_called_where_the_server_has_them() {
    let mut body = info_body();
    let plain = repo_info_from_body(info_body()).expect("readable");
    assert!(!rpc::calls_optional(&plain, rpc::OptionalMethod::GetHeadsSnapshot));
    body.capabilities.push("copyTracking".to_string());
    let tracking = repo_info_from_body(body).expect("readable");
    assert!(rpc::calls_optional(&tracking, rpc::OptionalMethod::GetRelatedCopies));
    assert!(!rpc::calls_optional(&tracking, rpc::OptionalMethod::GetHeadsSnapshot));
}
