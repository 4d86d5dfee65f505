use tandem::cli::{
    already_running_message, daemon_args, daemon_to_stop, daemon_wait, env_flag_enabled,
    generate_workspace_name, logs_ended_well, not_running_text, resolve_control_socket,
    resolve_init_workspace_name, resolve_integration_workspace_enabled, routes_to_jj,
    running_message, status_lines, uptime_text, DaemonWait, DAEMON_TIMEOUT_MS,
};
use tandem::control::{
    classify_request, level_rank, log_event, passes, printed_line, read_request, request_line,
    respond, status_response, stream_step, unknown_request_message, ControlAction,
    IntegrationStatus, LogEvent, Request, StatusResponse, StreamAction, StreamEvent,
};
use tandem::daemon::{DaemonAction, DaemonEvent, DownStage, UpOptions, UpStage};
use tandem::rpc::{
    capnp_kind, env_truthy, from_capnp, object_kind_str, prefix_answer, rpc_max_inflight,
    timed_out_message, workspace_heads_from_pairs, Capability, ObjectKind, PrefixResolution,
    DEFAULT_RPC_MAX_INFLIGHT,
};
use tandem::http_client::PrefixResult;
use tandem::watch::{notification_line, watch_step, WatchAction, WatchEvent};
use tandem::wire::RepoCapability;
use tandem::workspace_init::{
    init_description, initial_parents, initialized_message, InitRun, InitStage, Learned,
};

#[test]
fn unknown_words_go_to_jj() {
    assert!(routes_to_jj(Some("log")));
    assert!(routes_to_jj(Some("--no-pager")));
    assert!(!routes_to_jj(None));
    for own in ["serve", "init", "watch", "up", "down", "server", "--help", "-h"] {
        assert!(!routes_to_jj(Some(own)), "{own}");
    }
}

#[test]
fn flags_in_the_environment_are_yes_or_not() {
    for yes in ["1", "true", "YES", " on "] {
        assert!(env_flag_enabled(Some(yes)), "{yes}");
    }
    for no in ["0", "off", "", "maybe"] {
        assert!(!env_flag_enabled(Some(no)), "{no}");
    }
    assert!(resolve_integration_workspace_enabled(true, None));
    assert!(resolve_integration_workspace_enabled(false, Some("1")));
    assert!(!resolve_integration_workspace_enabled(false, None));
}

#[test]
fn names_and_sockets_are_what_was_asked_for() {
    assert_eq!(resolve_control_socket(Some("/a"), "/b".to_string()), "/a");
    assert_eq!(resolve_control_socket(None, "/b".to_string()), "/b");
    assert_eq!(resolve_init_workspace_name(Some("me"), "gen".to_string()), "me");
    assert_eq!(resolve_init_workspace_name(Some(" "), "gen".to_string()), "gen");
    assert_eq!(resolve_init_workspace_name(None, "gen".to_string()), "gen");
    assert_eq!(generate_workspace_name(31, 256, 0), "ws-1f-100-0");
    assert_ne!(generate_workspace_name(7, 1, 0), generate_workspace_name(7, 1, 1));
}

#[test]
fn a_daemon_is_started_with_these_arguments() {
    let mut wanted = vec![
        "serve", "--listen", "addr:1", "--repo", "/repo", "--log-level", "info",
        "--control-socket", "/sock", "--log-file", "/log", "--daemon",
    ];
    assert_eq!(daemon_args("addr:1", "/repo", "info", "/sock", "/log", false), wanted);
    wanted.push("--enable-integration-workspace");
    assert_eq!(daemon_args("addr:1", "/repo", "info", "/sock", "/log", true), wanted);
    assert_eq!(daemon_wait(true, DAEMON_TIMEOUT_MS + 1), DaemonWait::Done);
    assert_eq!(daemon_wait(false, DAEMON_TIMEOUT_MS), DaemonWait::Wait);
    assert_eq!(daemon_wait(false, DAEMON_TIMEOUT_MS + 1), DaemonWait::TimedOut);
    assert_eq!(running_message(12), "tandem running, PID 12");
    assert_eq!(
        already_running_message(12),
        "tandem is already running (PID 12). Use `tandem down` first."
    );
}

fn up() -> UpOptions {
    UpOptions {
        repo: "/repo".to_string(),
        listen: "addr:1".to_string(),
        log_level: "info".to_string(),
        log_file: "/log".to_string(),
        socket: "/sock".to_string(),
        integration: false,
        token: None,
    }
}

fn running() -> StatusResponse {
    status_response(42, 3_725, "/repo", "addr:1", "0.1")
}

fn why() -> DaemonEvent {
    DaemonEvent::Failed("why".to_string())
}

fn said(line: &str) -> DaemonAction {
    DaemonAction::Fail(line.to_string())
}

#[test]
fn a_daemon_comes_up_step_by_step() {
    let up = up();
    let (stage, action) = up.step(UpStage::Asked, DaemonEvent::Status(None));
    assert_eq!((&stage, action), (&UpStage::FindingProgram, DaemonAction::FindProgram));
    let (stage, action) = up.step(stage, DaemonEvent::Did);
    assert_eq!(action, DaemonAction::CreateLog("/log".to_string()));
    let (stage, action) = up.step(stage, DaemonEvent::Did);
    assert_eq!(action, DaemonAction::CloneLog);
    let (stage, action) = up.step(stage, DaemonEvent::Did);
    let args = daemon_args("addr:1", "/repo", "info", "/sock", "/log", false);
    assert_eq!((&stage, action), (&UpStage::MakingToken, DaemonAction::MakeToken));
    let (stage, action) = up.step(stage, DaemonEvent::Token("tdm".to_string()));
    assert_eq!(stage, UpStage::Starting("tdm".to_string()));
    assert_eq!(action, DaemonAction::Start(args, "tdm".to_string()));
    let (stage, action) = up.step(stage, DaemonEvent::Started(9));
    let waiting = UpStage::Waiting(9, "tdm".to_string());
    assert_eq!((&stage, action), (&waiting, DaemonAction::LookWhetherItRuns));
    let (stage, action) = up.step(stage, DaemonEvent::Looked(false, 1));
    assert_eq!((&stage, action), (&waiting, DaemonAction::Wait));
    assert_eq!(
        up.step(stage, DaemonEvent::Looked(true, 60_000)),
        (
            UpStage::Over,
            DaemonAction::Succeed("tandem running, PID 9\nadmin token: tdm".to_string())
        )
    );
    assert_eq!(
        up.step(waiting, DaemonEvent::Looked(false, DAEMON_TIMEOUT_MS + 1)),
        (UpStage::Over, said("error: daemon failed to start within timeout"))
    );
    assert_eq!(up.step(UpStage::Over, DaemonEvent::Did), (UpStage::Over, DaemonAction::Nothing));
}

#[test]
fn a_supplied_admin_token_is_handed_on_and_not_shown() {
    let up = UpOptions { token: Some("mine".to_string()), integration: true, ..up() };
    let (stage, action) = up.step(UpStage::CloningLog, DaemonEvent::Did);
    let args = daemon_args("addr:1", "/repo", "info", "/sock", "/log", true);
    assert_eq!(action, DaemonAction::Start(args, "mine".to_string()));
    let (stage, _) = up.step(stage, DaemonEvent::Started(7));
    assert_eq!(
        up.step(stage, DaemonEvent::Looked(true, 1)),
        (UpStage::Over, DaemonAction::Succeed("tandem running, PID 7".to_string()))
    );
}

#[test]
fn each_stage_of_coming_up_can_fail() {
    let up = up();
    assert_eq!(
        up.step(UpStage::Asked, DaemonEvent::Status(Some(running()))),
        (UpStage::Over, said("tandem is already running (PID 42). Use `tandem down` first."))
    );
    for (stage, line) in [
        (UpStage::FindingProgram, "error: cannot determine executable path: why"),
        (UpStage::CreatingLog, "error: cannot create log file /log: why"),
        (UpStage::CloningLog, "error: cannot clone log file handle: why"),
        (UpStage::MakingToken, "error: cannot make an admin token: why"),
        (UpStage::Starting("tdm".to_string()), "error: failed to start daemon: why"),
    ] {
        assert_eq!(up.step(stage, why()), (UpStage::Over, said(line)));
    }
}

#[test]
fn a_daemon_goes_down_step_by_step() {
    let (stage, action) = DownStage::Asked.step(DaemonEvent::Status(Some(running())));
    assert_eq!((stage, action), (DownStage::AskedToStop(42), DaemonAction::AskToStop));
    assert_eq!(stage.step(why()).1, said("error: shutdown request failed: why"));
    let (stage, action) = stage.step(DaemonEvent::Did);
    assert_eq!(action, DaemonAction::LookWhetherGone(42));
    assert_eq!(stage.step(DaemonEvent::Looked(false, 1)), (stage, DaemonAction::Wait));
    assert_eq!(
        stage.step(DaemonEvent::Looked(true, 1)),
        (DownStage::Over, DaemonAction::Succeed("tandem stopped".to_string()))
    );
    assert_eq!(
        stage.step(DaemonEvent::Looked(false, DAEMON_TIMEOUT_MS + 1)),
        (DownStage::Over, said("warning: daemon did not exit within timeout"))
    );
    assert_eq!(
        DownStage::Asked.step(DaemonEvent::Status(None)),
        (DownStage::Over, said("tandem is not running"))
    );
}

#[test]
fn a_status_is_printed() {
    let status = running();
    assert!(status.running);
    assert_eq!(daemon_to_stop(&Some(running())), Some(42));
    assert_eq!(daemon_to_stop(&None), None);
    let mut integration = IntegrationStatus {
        enabled: true,
        last_status: "ok".to_string(),
        last_integration_commit: Some("abc".to_string()),
        last_error: Some("bad".to_string()),
    };
    let head = [
        "tandem is running",
        "  PID:      42",
        "  Uptime:   1h 2m",
        "  Repo:     /repo",
        "  Listen:   addr:1",
        "  Version:  0.1",
    ];
    let mut wanted = head.to_vec();
    wanted.extend([
        "  Integration workspace: enabled",
        "  Integration status: ok",
        "  Integration commit: abc",
        "  Integration error:  bad",
    ]);
    assert_eq!(status_lines(&status, &integration), wanted);
    integration.enabled = false;
    let mut wanted = head.to_vec();
    wanted.push("  Integration workspace: disabled");
    assert_eq!(status_lines(&status, &integration), wanted);
    assert_eq!(uptime_text(59), "59s");
    assert_eq!(uptime_text(61), "1m 1s");
    assert_eq!(not_running_text(true), "{\"running\":false}");
    assert_eq!(not_running_text(false), "tandem is not running");
    assert!(logs_ended_well("read: connection reset by peer"));
    assert!(!logs_ended_well("permission denied"));
}

#[test]
fn requests_on_the_control_socket_are_told_apart() {
    assert_eq!(read_request("{\"type\":\"status\"}"), Request::Status);
    assert_eq!(read_request(" {\"type\":\"shutdown\"}\n"), Request::Shutdown);
    assert_eq!(read_request("{\"type\":\"logs\",\"level\":\"WARN\"}"), Request::Logs(3));
    assert_eq!(read_request("{\"type\":\"logs\"}"), Request::Logs(2));
    assert_eq!(read_request("{\"type\":\"dance\"}"), Request::Unknown("dance".to_string()));
    assert_eq!(read_request("{\"type\":7}"), Request::Unknown(String::new()));
    assert_eq!(read_request("not json"), Request::Invalid);
    assert_eq!(read_request(" \n"), Request::Nothing);
    assert_eq!(classify_request("status", None), Request::Status);
    assert_eq!(unknown_request_message("dance"), "unknown request type: dance");
}

#[test]
fn what_a_client_asks_is_what_the_server_hears() {
    assert_eq!(request_line("status", None), "{\"type\":\"status\"}");
    assert_eq!(
        request_line("logs", Some("a\n\"b\"")),
        "{\"type\":\"logs\",\"level\":\"a\\n\\\"b\\\"\"}"
    );
    let line = request_line("logs", Some("error"));
    assert_eq!(read_request(&(line + "\n")), Request::Logs(4));
    let line = request_line("da\nce", None);
    assert_eq!(read_request(&(line + "\n")), Request::Unknown("da\nce".to_string()));
}

#[test]
fn every_request_has_its_answer() {
    assert_eq!(respond(Request::Nothing), ControlAction::Close);
    assert_eq!(respond(Request::Invalid), ControlAction::Refuse);
    assert_eq!(respond(Request::Status), ControlAction::Report);
    assert_eq!(respond(Request::Logs(3)), ControlAction::Stream(3));
    assert_eq!(
        respond(Request::Shutdown),
        ControlAction::AnswerAndStop("{\"type\":\"shutdown\",\"ok\":true}".to_string())
    );
    assert_eq!(
        respond(Request::Unknown("x".to_string())),
        ControlAction::Answer(
            "{\"type\":\"error\",\"msg\":\"unknown request type: x\"}".to_string()
        )
    );
    let logged = |level: &str| StreamEvent::Logged(level.to_string());
    assert_eq!(stream_step(&logged("warn"), 3), StreamAction::Send);
    assert_eq!(stream_step(&logged("info"), 3), StreamAction::Skip);
    assert_eq!(stream_step(&StreamEvent::Lagged, 0), StreamAction::Skip);
    assert_eq!(stream_step(&StreamEvent::Closed, 0), StreamAction::Stop);
    assert_eq!(stream_step(&StreamEvent::SendFailed, 0), StreamAction::Stop);
}

#[test]
fn a_stricter_level_lets_less_through() {
    let ranks: Vec<u8> =
        ["trace", "Debug", "info", "warn", "WARNING", "error", "loud"].map(level_rank).to_vec();
    assert_eq!(ranks, vec![0, 1, 2, 3, 3, 4, 2]);
    assert!(passes("error", level_rank("warn")));
    assert!(!passes("debug", level_rank("warn")));
    assert!(passes("warn", level_rank("warn")));
    let event = log_event(60, "info", "hello");
    assert_eq!((event.ts.as_str(), event.level.as_str(), event.msg.as_str()), ("60Z", "info", "hello"));
}

#[test]
fn log_lines_are_printed_raw_or_readable() {
    let event = || {
        Some(LogEvent { ts: "t".to_string(), level: "info".to_string(), msg: "hello".to_string() })
    };
    assert_eq!(printed_line("{raw}", true, event()), Some("{raw}".to_string()));
    assert_eq!(printed_line("{raw}", false, event()), Some("[info] t hello".to_string()));
    assert_eq!(printed_line("{raw}", false, None), Some("{raw}".to_string()));
    assert_eq!(printed_line(" ", true, None), None);
}

#[test]
fn the_rpc_side_speaks_the_same_kinds() {
    assert_eq!(capnp_kind(2), Ok(ObjectKind::File));
    assert_eq!(capnp_kind(9), Err("unknown object kind: 9".to_string()));
    assert_eq!(object_kind_str(ObjectKind::Symlink), "symlink");
    assert_eq!(from_capnp(Capability::WatchHeads), RepoCapability::WatchHeads);
    assert_eq!(
        prefix_answer(PrefixResolution::SingleMatch, vec![1]),
        (PrefixResult::SingleMatch, Some(vec![1]))
    );
    assert_eq!(
        prefix_answer(PrefixResolution::NoMatch, vec![1]),
        (PrefixResult::NoMatch, None)
    );
    let heads = workspace_heads_from_pairs(&vec![
        ("a".to_string(), vec![1]),
        ("a".to_string(), vec![2]),
    ]);
    assert_eq!(heads.get("a"), Some(&vec![2]));
    assert_eq!(timed_out_message("addr:1"), "connection timed out after 5s to addr:1");
}

#[test]
fn requests_in_flight_are_bounded() {
    assert!(env_truthy(Some("true")));
    assert!(!env_truthy(None));
    assert_eq!(rpc_max_inflight(None, None), DEFAULT_RPC_MAX_INFLIGHT);
    assert_eq!(rpc_max_inflight(Some("1"), Some("7")), 1);
    assert_eq!(rpc_max_inflight(None, Some("7")), 7);
}

#[test]
fn a_watch_prints_until_it_ends() {
    assert_eq!(
        notification_line(3, &vec![vec![0x0a], vec![0xff]]),
        "version=3 heads=0a,ff"
    );
    assert_eq!(notification_line(0, &vec![]), "version=0 heads=");
    assert_eq!(
        watch_step(WatchEvent::Line("l".to_string())),
        WatchAction::Print("l".to_string())
    );
    assert_eq!(watch_step(WatchEvent::Closed), WatchAction::Stop(None));
    assert_eq!(
        watch_step(WatchEvent::Ended(Some("gone".to_string()))),
        WatchAction::Stop(Some("rpc error: gone".to_string()))
    );
    assert_eq!(
        watch_step(WatchEvent::Panicked("p".to_string())),
        WatchAction::Stop(Some("rpc task panicked: p".to_string()))
    );
}

#[test]
fn a_new_workspace_starts_on_what_is_there() {
    assert_eq!(initial_parents(None, vec![0]), vec![vec![0]]);
    assert_eq!(initial_parents(Some(vec![]), vec![0]), vec![vec![0]]);
    assert_eq!(initial_parents(Some(vec![vec![1], vec![2]]), vec![0]), vec![vec![1], vec![2]]);
    assert_eq!(
        init_description("agent-a"),
        "create initial working-copy commit in workspace agent-a"
    );
    assert_eq!(
        initialized_message("agent-a", "/work", "addr:1"),
        "Initialized tandem workspace 'agent-a' at /work (server: addr:1)"
    );
}

fn stages_of(mut run: InitRun, learned: impl Fn(&InitStage) -> Learned) -> Vec<String> {
    let mut messages = Vec::new();
    while let Some(stage) = &run.stage {
        messages.push(stage.message());
        let learned = learned(stage);
        run = run.succeeded(learned);
    }
    messages
}

#[test]
fn an_init_goes_through_its_stages() {
    let start = [
        "cannot create workspace directory",
        "cannot resolve workspace path",
        "cannot create settings",
        "cannot create signer",
        "workspace init failed",
        "workspace init failed: cannot load repository head",
    ];
    let source = [
        "workspace init failed: cannot load source workspace commit",
        "workspace init failed: cannot load source workspace parent 01",
        "workspace init failed: cannot load source workspace parent 02",
    ];
    let end = [
        "workspace init failed: cannot merge source workspace parents",
        "workspace init failed: cannot create initial working-copy commit",
        "workspace init failed: cannot move workspace to source context",
        "workspace init failed: cannot rebase rewritten descendants",
        "workspace init failed: cannot publish initial operation",
        "workspace init failed: cannot update working copy checkout",
    ];
    let alone = stages_of(InitRun::new(), |_| Learned::Nothing);
    assert_eq!(alone, [&start[..], &end[..]].concat());
    let beside = stages_of(InitRun::new(), |stage| match stage {
        InitStage::LoadHead => Learned::DefaultWorkspace,
        InitStage::LoadSource => Learned::Parents(vec![vec![1], vec![2]]),
        _ => Learned::Nothing,
    });
    assert_eq!(beside, [&start[..], &source[..], &end[..]].concat());
}
