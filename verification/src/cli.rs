//! What the command line decides: which commands are tandem's own, how a daemon
//! is started, watched and stopped, and what is printed about it.
use vstd::prelude::*;
use vstd::string::*;

use crate::control::{IntegrationStatus, StatusResponse};
use crate::hex::nibble_char;
use crate::text::{
    chars_of, decimal, find, is_blank, is_yes, models, push_decimal, same_text, says_yes, stands_at,
    trim, trimmed, CharClass,
};

verus! {

pub const ENABLE_INTEGRATION_ENV: &'static str = "TANDEM_ENABLE_INTEGRATION_WORKSPACE";

/// How long a daemon may take to start or to stop, in milliseconds.
pub const DAEMON_TIMEOUT_MS: u64 = 10000;

/// How long to wait before looking again, in milliseconds.
pub const DAEMON_POLL_MS: u64 = 50;

// ─── Dispatch ─────────────────────────────────────────────────────────────────

/// Whether a first argument is one of tandem's own commands.
pub open spec fn is_own_command(arg: Seq<char>) -> bool {
    arg == "serve"@ || arg == "init"@ || arg == "watch"@ || arg == "up"@ || arg == "down"@ || arg
        == "server"@ || arg == "--help"@ || arg == "-h"@
}

/// Whether the command line goes to jj as it is. Everything that is not tandem's
/// own does: jj parses its own arguments, and its global flags may stand in front
/// of the subcommand.
pub fn routes_to_jj(first: Option<&str>) -> (r: bool)
    ensures
        r == (first matches Some(arg) && !is_own_command(arg@)),
        r == (first matches Some(arg) && arg@ != "serve"@ && arg@ != "init"@ && arg@ != "watch"@
            && arg@ != "up"@ && arg@ != "down"@ && arg@ != "server"@ && arg@ != "--help"@ && arg@
            != "-h"@),
{
    match first {
        None => false,
        Some(arg) => {
            let own = same_text(arg, "serve") || same_text(arg, "init") || same_text(arg, "watch")
                || same_text(arg, "up") || same_text(arg, "down") || same_text(arg, "server")
                || same_text(arg, "--help") || same_text(arg, "-h");
            !own
        },
    }
}

// ─── Settings ─────────────────────────────────────────────────────────────────

pub fn env_flag_enabled(value: Option<&str>) -> (r: bool)
    ensures
        r == (value matches Some(text) && says_yes(text@)),
{
    match value {
        Some(text) => is_yes(text),
        None => false,
    }
}

pub fn resolve_integration_workspace_enabled(flag: bool, value: Option<&str>) -> (r: bool)
    ensures
        r == (flag || (value matches Some(text) && says_yes(text@))),
{
    flag || env_flag_enabled(value)
}

/// The control socket: the one that was named, or else the usual one.
pub fn resolve_control_socket(explicit: Option<&str>, usual: String) -> (s: String)
    ensures
        s@ == (match explicit {
            Some(path) => path@,
            None => usual@,
        }),
{
    match explicit {
        Some(path) => path.to_owned(),
        None => usual,
    }
}

/// The name of a new workspace: the one that was given, unless it is blank, or
/// else the generated one.
pub fn resolve_init_workspace_name(explicit_or_env: Option<&str>, generated: String) -> (s: String)
    ensures
        s@ == (match explicit_or_env {
            Some(name) => if trimmed(name@, CharClass::White).len() > 0 {
                name@
            } else {
                generated@
            },
            None => generated@,
        }),
{
    match explicit_or_env {
        Some(name) => {
            let bare = trim(name, CharClass::White);
            if is_blank(bare.as_str()) {
                generated
            } else {
                name.to_owned()
            }
        },
        None => generated,
    }
}

/// The hex digit of a number below sixteen.
pub open spec fn hex_digit(d: nat) -> char {
    nibble_char(d)
}

/// A number in base sixteen, without leading zeros.
pub open spec fn hex_number(n: nat) -> Seq<char>
    decreases n,
{
    if n < 16 {
        seq![hex_digit(n)]
    } else {
        hex_number(n / 16).push(hex_digit(n % 16))
    }
}

fn push_hex(s: &mut String, n: u128)
    ensures
        final(s)@ == old(s)@ + hex_number(n as nat),
    decreases n,
{
    if n >= 16 {
        push_hex(s, n / 16);
    }
    let d: u8 = (n % 16) as u8;
    let c: char = if d < 10 {
        (48 + d) as char
    } else {
        (87 + d) as char
    };
    assert(c == hex_digit(n as nat % 16));
    let ghost before = s@;
    s.push(c);
    proof {
        if n >= 16 {
            assert(s@ =~= old(s)@ + hex_number(n as nat / 16).push(hex_digit(n as nat % 16)));
        } else {
            assert(s@ =~= old(s)@ + seq![hex_digit(n as nat)]);
        }
    }
}

pub open spec fn generated_name(pid: u32, now_ns: u128, counter: u64) -> Seq<char> {
    "ws-"@ + hex_number(pid as nat) + "-"@ + hex_number(now_ns as nat) + "-"@ + hex_number(
        counter as nat,
    )
}

/// A name for a workspace that was given none: from the process, the time, and a
/// counter that tells names of one moment apart.
pub fn generate_workspace_name(pid: u32, now_ns: u128, counter: u64) -> (s: String)
    ensures
        s@ == generated_name(pid, now_ns, counter),
{
    let mut s = "ws-".to_owned();
    push_hex(&mut s, pid as u128);
    s.append("-");
    push_hex(&mut s, now_ns);
    s.append("-");
    push_hex(&mut s, counter as u128);
    s
}

/// Two names of one process and one moment differ where their counters do.
pub proof fn counters_tell_names_apart(pid: u32, now_ns: u128, a: u64, b: u64)
    requires
        a != b,
    ensures
        generated_name(pid, now_ns, a) != generated_name(pid, now_ns, b),
{
    let front = "ws-"@ + hex_number(pid as nat) + "-"@ + hex_number(now_ns as nat) + "-"@;
    if generated_name(pid, now_ns, a) == generated_name(pid, now_ns, b) {
        let n = front.len() as int;
        assert(generated_name(pid, now_ns, a).skip(n) =~= hex_number(a as nat));
        assert(generated_name(pid, now_ns, b).skip(n) =~= hex_number(b as nat));
        lemma_hex_numbers_differ(a as nat, b as nat);
    }
}

/// The number that hex digits in lower case stand for.
pub open spec fn number_of_hex(s: Seq<char>) -> nat
    decreases s.len(),
{
    if s.len() == 0 {
        0
    } else if '0' <= s.last() <= '9' {
        16 * number_of_hex(s.drop_last()) + (s.last() as nat - 48) as nat
    } else {
        16 * number_of_hex(s.drop_last()) + (s.last() as nat - 87) as nat
    }
}

/// A number in hex reads back, has only digits and letters up to f, and has no zero in front
/// unless it is zero.
pub proof fn a_hex_number_reads_back(n: nat)
    ensures
        number_of_hex(hex_number(n)) == n,
        forall|i: int|
            0 <= i < hex_number(n).len() ==> '0' <= #[trigger] hex_number(n)[i] <= '9' || 'a'
                <= hex_number(n)[i] <= 'f',
        n > 0 ==> hex_number(n)[0] != '0',
        hex_number(n).len() > 0,
    decreases n,
{
    if n < 16 {
        assert(hex_number(n).drop_last() =~= Seq::<char>::empty());
        assert(number_of_hex(hex_number(n).drop_last()) == 0);
    } else {
        a_hex_number_reads_back(n / 16);
        assert(hex_number(n).drop_last() =~= hex_number(n / 16));
        assert(n == 16 * (n / 16) + n % 16);
    }
}

proof fn lemma_hex_numbers_differ(a: nat, b: nat)
    requires
        hex_number(a) == hex_number(b),
    ensures
        a == b,
    decreases a,
{
    assert(hex_number(a).last() == hex_digit(a % 16));
    assert(hex_number(b).last() == hex_digit(b % 16));
    assert(a % 16 == b % 16);
    assert(hex_number(a / 16).len() > 0 || a < 16);
    lemma_hex_number_grows(a);
    lemma_hex_number_grows(b);
    if a >= 16 && b >= 16 {
        assert(hex_number(a).drop_last() =~= hex_number(a / 16));
        assert(hex_number(b).drop_last() =~= hex_number(b / 16));
        lemma_hex_numbers_differ(a / 16, b / 16);
    }
}

proof fn lemma_hex_number_grows(a: nat)
    ensures
        hex_number(a).len() >= 1,
        a >= 16 ==> hex_number(a).len() >= 2,
    decreases a,
{
    if a >= 16 {
        lemma_hex_number_grows(a / 16);
    }
}

// ─── Up ───────────────────────────────────────────────────────────────────────

/// What is said where a daemon runs already.
pub fn already_running_message(pid: u32) -> (s: String)
    ensures
        s@ == "tandem is already running (PID "@ + decimal(pid as nat)
            + "). Use `tandem down` first."@,
{
    let mut s = "tandem is already running (PID ".to_owned();
    push_decimal(&mut s, pid as u64);
    s.append("). Use `tandem down` first.");
    s
}

/// The arguments of a daemon.
pub open spec fn daemon_args_of(
    listen: Seq<char>,
    repo: Seq<char>,
    log_level: Seq<char>,
    socket: Seq<char>,
    log_file: Seq<char>,
    integration: bool,
) -> Seq<Seq<char>> {
    let args = seq![
        "serve"@,
        "--listen"@,
        listen,
        "--repo"@,
        repo,
        "--log-level"@,
        log_level,
        "--control-socket"@,
        socket,
        "--log-file"@,
        log_file,
        "--daemon"@,
    ];
    if integration {
        args.push("--enable-integration-workspace"@)
    } else {
        args
    }
}

/// A daemon is told to serve, and gets each setting behind the flag of its name; the flag
/// for the integration workspace stands last, where it is asked for.
pub proof fn each_setting_stands_behind_its_flag(
    listen: Seq<char>,
    repo: Seq<char>,
    log_level: Seq<char>,
    socket: Seq<char>,
    log_file: Seq<char>,
    integration: bool,
)
    ensures
        ({
            let args = daemon_args_of(listen, repo, log_level, socket, log_file, integration);
            &&& args[0] == "serve"@
            &&& args.contains("--daemon"@)
            &&& exists|i: int|
                0 <= i < args.len() - 1 && #[trigger] args[i] == "--listen"@ && args[i + 1] == listen
            &&& exists|i: int|
                0 <= i < args.len() - 1 && #[trigger] args[i] == "--repo"@ && args[i + 1] == repo
            &&& exists|i: int|
                0 <= i < args.len() - 1 && #[trigger] args[i] == "--log-level"@ && args[i + 1]
                    == log_level
            &&& exists|i: int|
                0 <= i < args.len() - 1 && #[trigger] args[i] == "--control-socket"@ && args[i + 1]
                    == socket
            &&& exists|i: int|
                0 <= i < args.len() - 1 && #[trigger] args[i] == "--log-file"@ && args[i + 1]
                    == log_file
            &&& integration ==> args.len() == 13 && args.last()
                == "--enable-integration-workspace"@
            &&& !integration ==> args.len() == 12
        }),
{
    let args = daemon_args_of(listen, repo, log_level, socket, log_file, integration);
    assert(args[11] == "--daemon"@);
    assert(args[1] == "--listen"@ && args[1int + 1] == listen);
    assert(args[3] == "--repo"@ && args[3int + 1] == repo);
    assert(args[5] == "--log-level"@ && args[5int + 1] == log_level);
    assert(args[7] == "--control-socket"@ && args[7int + 1] == socket);
    assert(args[9] == "--log-file"@ && args[9int + 1] == log_file);
}

/// The arguments that `tandem up` starts a daemon with.
pub fn daemon_args(
    listen: &str,
    repo: &str,
    log_level: &str,
    socket: &str,
    log_file: &str,
    integration: bool,
) -> (args: Vec<String>)
    ensures
        models(args@) == daemon_args_of(listen@, repo@, log_level@, socket@, log_file@, integration),
{
    let mut args: Vec<String> = Vec::new();
    args.push("serve".to_owned());
    args.push("--listen".to_owned());
    args.push(listen.to_owned());
    args.push("--repo".to_owned());
    args.push(repo.to_owned());
    args.push("--log-level".to_owned());
    args.push(log_level.to_owned());
    args.push("--control-socket".to_owned());
    args.push(socket.to_owned());
    args.push("--log-file".to_owned());
    args.push(log_file.to_owned());
    args.push("--daemon".to_owned());
    if integration {
        args.push("--enable-integration-workspace".to_owned());
    }
    assert(models(args@) =~= daemon_args_of(
        listen@,
        repo@,
        log_level@,
        socket@,
        log_file@,
        integration,
    ));
    args
}

/// What follows a look at a daemon that is starting or stopping.
#[derive(Debug, Clone, Copy, PartialEq, Eq, Structural)]
pub enum DaemonWait {
    Done,
    TimedOut,
    Wait,
}

/// `settled`: the daemon answers that it runs, or its process is gone. It counts
/// even after the time is up.
pub fn daemon_wait(settled: bool, waited_ms: u64) -> (r: DaemonWait)
    ensures
        r == (if settled {
            DaemonWait::Done
        } else if waited_ms > DAEMON_TIMEOUT_MS {
            DaemonWait::TimedOut
        } else {
            DaemonWait::Wait
        }),
{
    if settled {
        DaemonWait::Done
    } else if waited_ms > DAEMON_TIMEOUT_MS {
        DaemonWait::TimedOut
    } else {
        DaemonWait::Wait
    }
}

/// What is said once the daemon runs.
pub fn running_message(pid: u32) -> (s: String)
    ensures
        s@ == "tandem running, PID "@ + decimal(pid as nat),
{
    let mut s = "tandem running, PID ".to_owned();
    push_decimal(&mut s, pid as u64);
    s
}

// ─── Down ─────────────────────────────────────────────────────────────────────

/// The process to stop, where the daemon answered that it runs.
pub fn daemon_to_stop(status: &Option<StatusResponse>) -> (r: Option<u32>)
    ensures
        r == (match status {
            Some(status) => if status.running {
                Some(status.pid)
            } else {
                None
            },
            None => None,
        }),
{
    match status {
        Some(status) => if status.running {
            Some(status.pid)
        } else {
            None
        },
        None => None,
    }
}

// ─── Status ───────────────────────────────────────────────────────────────────

/// A time in words: hours and minutes, minutes and seconds, or seconds.
pub open spec fn uptime_words(uptime: u64) -> Seq<char> {
    if uptime >= 3600 {
        decimal((uptime / 3600) as nat) + "h "@ + decimal(((uptime % 3600) / 60) as nat) + "m"@
    } else if uptime >= 60 {
        decimal((uptime / 60) as nat) + "m "@ + decimal((uptime % 60) as nat) + "s"@
    } else {
        decimal(uptime as nat) + "s"@
    }
}

/// A time is said in its two largest parts: hours and the minutes beside them, minutes and
/// the seconds beside them, or seconds alone.
pub proof fn a_time_is_said_in_its_parts(hours: nat, minutes: nat, seconds: nat, uptime: u64)
    requires
        uptime == 3600 * hours + 60 * minutes + seconds,
        minutes < 60,
        seconds < 60,
    ensures
        hours > 0 ==> uptime_words(uptime) == decimal(hours) + "h "@ + decimal(minutes) + "m"@,
        hours == 0 && minutes > 0 ==> uptime_words(uptime) == decimal(minutes) + "m "@ + decimal(
            seconds,
        ) + "s"@,
        hours == 0 && minutes == 0 ==> uptime_words(uptime) == decimal(seconds) + "s"@,
{
    assert(uptime / 3600 == hours && uptime % 3600 == 60 * minutes + seconds) by (nonlinear_arith)
        requires
            uptime == 3600 * hours + 60 * minutes + seconds,
            minutes < 60,
            seconds < 60,
    ;
    assert((60 * minutes + seconds) / 60 == minutes && (60 * minutes + seconds) % 60 == seconds)
        by (nonlinear_arith)
        requires
            seconds < 60,
    ;
}

pub fn uptime_text(uptime: u64) -> (s: String)
    ensures
        s@ == uptime_words(uptime),
{
    let mut s = "".to_owned();
    proof {
        reveal_strlit("");
        assert(s@ =~= Seq::<char>::empty());
    }
    if uptime >= 3600 {
        push_decimal(&mut s, uptime / 3600);
        assert(s@ =~= decimal((uptime / 3600) as nat));
        s.append("h ");
        push_decimal(&mut s, (uptime % 3600) / 60);
        s.append("m");
    } else if uptime >= 60 {
        push_decimal(&mut s, uptime / 60);
        assert(s@ =~= decimal((uptime / 60) as nat));
        s.append("m ");
        push_decimal(&mut s, uptime % 60);
        s.append("s");
    } else {
        push_decimal(&mut s, uptime);
        assert(s@ =~= decimal(uptime as nat));
        s.append("s");
    }
    s
}

/// The lines about the integration workspace.
pub open spec fn integration_lines(integration: IntegrationStatus) -> Seq<Seq<char>> {
    if integration.enabled {
        let head = seq![
            "  Integration workspace: enabled"@,
            "  Integration status: "@ + integration.last_status@,
        ];
        let commit = match integration.last_integration_commit {
            Some(commit) => head.push("  Integration commit: "@ + commit@),
            None => head,
        };
        match integration.last_error {
            Some(error) => commit.push("  Integration error:  "@ + error@),
            None => commit,
        }
    } else {
        seq!["  Integration workspace: disabled"@]
    }
}

/// What `tandem server status` prints of a daemon that runs.
pub open spec fn status_text(status: StatusResponse, integration: IntegrationStatus) -> Seq<
    Seq<char>,
> {
    seq![
        "tandem is running"@,
        "  PID:      "@ + decimal(status.pid as nat),
        "  Uptime:   "@ + uptime_words(status.uptime_secs),
        "  Repo:     "@ + status.repo@,
        "  Listen:   "@ + status.listen@,
        "  Version:  "@ + status.version@,
    ] + integration_lines(integration)
}

fn labelled(label: &str, text: &str) -> (s: String)
    ensures
        s@ == label@ + text@,
{
    let mut s = label.to_owned();
    s.append(text);
    s
}

/// What is printed of a daemon has each thing behind its own label, and of the integration
/// workspace its state, and its commit and its error where it has them.
pub proof fn each_thing_is_printed_behind_its_label(
    status: StatusResponse,
    integration: IntegrationStatus,
)
    ensures
        ({
            let lines = status_text(status, integration);
            &&& lines[0] == "tandem is running"@
            &&& lines.contains("  PID:      "@ + decimal(status.pid as nat))
            &&& lines.contains("  Uptime:   "@ + uptime_words(status.uptime_secs))
            &&& lines.contains("  Repo:     "@ + status.repo@)
            &&& lines.contains("  Listen:   "@ + status.listen@)
            &&& lines.contains("  Version:  "@ + status.version@)
            &&& !integration.enabled ==> lines.len() == 7 && lines.last()
                == "  Integration workspace: disabled"@
            &&& integration.enabled ==> lines.contains("  Integration workspace: enabled"@)
                && lines.contains("  Integration status: "@ + integration.last_status@)
            &&& integration.enabled ==> (integration.last_integration_commit matches Some(commit)
                ==> lines.contains("  Integration commit: "@ + commit@))
            &&& integration.enabled ==> (integration.last_error matches Some(error)
                ==> lines.contains("  Integration error:  "@ + error@))
            &&& integration.enabled && integration.last_integration_commit is None
                && integration.last_error is None ==> lines.len() == 8
        }),
{
    let lines = status_text(status, integration);
    assert(lines[1] == "  PID:      "@ + decimal(status.pid as nat));
    assert(lines[2] == "  Uptime:   "@ + uptime_words(status.uptime_secs));
    assert(lines[3] == "  Repo:     "@ + status.repo@);
    assert(lines[4] == "  Listen:   "@ + status.listen@);
    assert(lines[5] == "  Version:  "@ + status.version@);
    if integration.enabled {
        assert(lines[6] == "  Integration workspace: enabled"@);
        assert(lines[7] == "  Integration status: "@ + integration.last_status@);
        let at = if integration.last_integration_commit is Some {
            assert(lines[8] == "  Integration commit: "@ + integration.last_integration_commit->0@);
            9int
        } else {
            8
        };
        if integration.last_error is Some {
            assert(lines[at] == "  Integration error:  "@ + integration.last_error->0@);
        }
    }
}

pub fn status_lines(status: &StatusResponse, integration: &IntegrationStatus) -> (lines: Vec<
    String,
>)
    ensures
        models(lines@) == status_text(*status, *integration),
{
    let mut pid = "  PID:      ".to_owned();
    push_decimal(&mut pid, status.pid as u64);
    let mut lines: Vec<String> = Vec::new();
    lines.push("tandem is running".to_owned());
    lines.push(pid);
    lines.push(labelled("  Uptime:   ", uptime_text(status.uptime_secs).as_str()));
    lines.push(labelled("  Repo:     ", status.repo.as_str()));
    lines.push(labelled("  Listen:   ", status.listen.as_str()));
    lines.push(labelled("  Version:  ", status.version.as_str()));
    if integration.enabled {
        lines.push("  Integration workspace: enabled".to_owned());
        lines.push(labelled("  Integration status: ", integration.last_status.as_str()));
        match &integration.last_integration_commit {
            Some(commit) => lines.push(labelled("  Integration commit: ", commit.as_str())),
            None => {},
        }
        match &integration.last_error {
            Some(error) => lines.push(labelled("  Integration error:  ", error.as_str())),
            None => {},
        }
    } else {
        lines.push("  Integration workspace: disabled".to_owned());
    }
    assert(models(lines@) =~= status_text(*status, *integration));
    lines
}

/// What is printed of a daemon that does not run: to standard output where JSON
/// was asked for.
pub fn not_running_text(json: bool) -> (s: &'static str)
    ensures
        s@ == (if json {
            "{\"running\":false}"@
        } else {
            "tandem is not running"@
        }),
{
    if json {
        "{\"running\":false}"
    } else {
        "tandem is not running"
    }
}

// ─── Logs ─────────────────────────────────────────────────────────────────────

/// Whether `part` stands somewhere in `text`.
pub open spec fn holds_part(text: Seq<char>, part: Seq<char>) -> bool {
    exists|i: int| stands_at(text, part, i)
}

/// Whether the end of a log stream only says that the server went away, which is
/// no failure.
pub open spec fn is_disconnect(message: Seq<char>) -> bool {
    holds_part(message, "broken pipe"@) || holds_part(message, "connection reset"@) || holds_part(
        message,
        "end of file"@,
    ) || holds_part(message, "Connection reset"@)
}

fn contains(chars: &Vec<char>, part: &str) -> (r: bool)
    ensures
        r == holds_part(chars@, part@),
{
    match find(chars, part) {
        Some(i) => {
            assert(stands_at(chars@, part@, i as int));
            true
        },
        None => false,
    }
}

pub fn logs_ended_well(message: &str) -> (r: bool)
    ensures
        r == is_disconnect(message@),
        r <==> exists|i: int|
            #![trigger stands_at(message@, "broken pipe"@, i)]
            #![trigger stands_at(message@, "connection reset"@, i)]
            #![trigger stands_at(message@, "end of file"@, i)]
            #![trigger stands_at(message@, "Connection reset"@, i)]
            stands_at(message@, "broken pipe"@, i) || stands_at(message@, "connection reset"@, i)
                || stands_at(message@, "end of file"@, i) || stands_at(
                message@,
                "Connection reset"@,
                i,
            ),
{
    let chars = chars_of(message);
    contains(&chars, "broken pipe") || contains(&chars, "connection reset") || contains(
        &chars,
        "end of file",
    ) || contains(&chars, "Connection reset")
}

} // verus!
