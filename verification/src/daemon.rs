//! Starting and stopping a server in the background, one step at a time: what was
//! found out goes in, what to do next comes out.
use vstd::prelude::*;
use vstd::string::*;

use crate::cli::{
    already_running_message, daemon_args, daemon_args_of, daemon_to_stop, daemon_wait,
    running_message, DaemonWait, DAEMON_TIMEOUT_MS,
};
use crate::control::StatusResponse;
use crate::text::{decimal, models};

verus! {

/// What was found out.
#[derive(Debug)]
pub enum DaemonEvent {
    /// What the control socket answered, if it did.
    Status(Option<StatusResponse>),
    /// What was to be done was done.
    Did,
    /// An admin token was made.
    Token(String),
    /// The daemon was started as this process.
    Started(u32),
    /// What was to be done failed, for this reason.
    Failed(String),
    /// A look at the daemon: whether it has come as far as it should, and for how
    /// many milliseconds it was waited for.
    Looked(bool, u64),
}

/// What to do next.
#[derive(Debug, PartialEq, Eq)]
pub enum DaemonAction {
    /// Nothing is to be done.
    Nothing,
    /// Find the program to start.
    FindProgram,
    /// Create the log file at this path.
    CreateLog(String),
    /// Make a second handle of it, for the errors.
    CloneLog,
    /// Make an admin token.
    MakeToken,
    /// Start the program with these arguments, and with this admin token.
    Start(Vec<String>, String),
    /// Ask the daemon to stop.
    AskToStop,
    /// Look whether the daemon answers that it runs.
    LookWhetherItRuns,
    /// Look whether this process is gone.
    LookWhetherGone(u32),
    /// Wait a while and look again.
    Wait,
    /// Print the line and succeed.
    Succeed(String),
    /// Print the line to standard error and fail.
    Fail(String),
}

#[verifier::ext_equal]
pub enum ActionModel {
    Nothing,
    FindProgram,
    CreateLog(Seq<char>),
    CloneLog,
    MakeToken,
    Start(Seq<Seq<char>>, Seq<char>),
    AskToStop,
    LookWhetherItRuns,
    LookWhetherGone(u32),
    Wait,
    Succeed(Seq<char>),
    Fail(Seq<char>),
}

impl View for DaemonAction {
    type V = ActionModel;

    open spec fn view(&self) -> ActionModel {
        match self {
            DaemonAction::Nothing => ActionModel::Nothing,
            DaemonAction::FindProgram => ActionModel::FindProgram,
            DaemonAction::CreateLog(path) => ActionModel::CreateLog(path@),
            DaemonAction::CloneLog => ActionModel::CloneLog,
            DaemonAction::MakeToken => ActionModel::MakeToken,
            DaemonAction::Start(args, token) => ActionModel::Start(models(args@), token@),
            DaemonAction::AskToStop => ActionModel::AskToStop,
            DaemonAction::LookWhetherItRuns => ActionModel::LookWhetherItRuns,
            DaemonAction::LookWhetherGone(pid) => ActionModel::LookWhetherGone(*pid),
            DaemonAction::Wait => ActionModel::Wait,
            DaemonAction::Succeed(line) => ActionModel::Succeed(line@),
            DaemonAction::Fail(line) => ActionModel::Fail(line@),
        }
    }
}

/// The process that answered that it runs.
pub open spec fn running_pid(status: Option<StatusResponse>) -> Option<u32> {
    match status {
        Some(status) => if status.running {
            Some(status.pid)
        } else {
            None
        },
        None => None,
    }
}

/// A line made of what went wrong and why.
fn because(what: &str, why: &str) -> (r: String)
    ensures
        r@ == what@ + why@,
{
    let mut r = what.to_owned();
    r.append(why);
    r
}

// ─── Up ───────────────────────────────────────────────────────────────────────

/// How far `tandem up` has come: what it waits to hear of.
#[derive(Debug, Clone, PartialEq, Eq)]
pub enum UpStage {
    /// The control socket was asked for the status.
    Asked,
    FindingProgram,
    CreatingLog,
    CloningLog,
    MakingToken,
    /// The program is being started with this admin token.
    Starting(String),
    /// The daemon was started as this process, with this admin token.
    Waiting(u32, String),
    Over,
}

/// What `tandem up` was told.
#[derive(Debug, PartialEq, Eq)]
pub struct UpOptions {
    pub repo: String,
    pub listen: String,
    pub log_level: String,
    pub log_file: String,
    pub socket: String,
    pub integration: bool,
    /// The admin token, where one was supplied.
    pub token: Option<String>,
}

impl UpOptions {
    /// The arguments that the daemon gets.
    pub open spec fn args(self) -> Seq<Seq<char>> {
        daemon_args_of(
            self.listen@,
            self.repo@,
            self.log_level@,
            self.socket@,
            self.log_file@,
            self.integration,
        )
    }
}

/// What is printed once the daemon runs: its process, and its admin token where none
/// was supplied.
pub open spec fn running_text(options: UpOptions, pid: u32, token: Seq<char>) -> Seq<char> {
    "tandem running, PID "@ + decimal(pid as nat) + (if options.token is None {
        "\nadmin token: "@ + token
    } else {
        Seq::empty()
    })
}

/// What `tandem up` does at a stage about an event that it waits for, and nothing
/// about any other.
pub open spec fn up_step(options: UpOptions, stage: UpStage, event: DaemonEvent) -> (
    UpStage,
    ActionModel,
) {
    match (stage, event) {
        (UpStage::Asked, DaemonEvent::Status(status)) => match running_pid(status) {
            Some(pid) => (
                UpStage::Over,
                ActionModel::Fail(
                    "tandem is already running (PID "@ + decimal(pid as nat)
                        + "). Use `tandem down` first."@,
                ),
            ),
            None => (UpStage::FindingProgram, ActionModel::FindProgram),
        },
        (UpStage::FindingProgram, DaemonEvent::Did) => (
            UpStage::CreatingLog,
            ActionModel::CreateLog(options.log_file@),
        ),
        (UpStage::FindingProgram, DaemonEvent::Failed(why)) => (
            UpStage::Over,
            ActionModel::Fail("error: cannot determine executable path: "@ + why@),
        ),
        (UpStage::CreatingLog, DaemonEvent::Did) => (UpStage::CloningLog, ActionModel::CloneLog),
        (UpStage::CreatingLog, DaemonEvent::Failed(why)) => (
            UpStage::Over,
            ActionModel::Fail(
                "error: cannot create log file "@ + options.log_file@ + ": "@ + why@,
            ),
        ),
        (UpStage::CloningLog, DaemonEvent::Did) => match options.token {
            Some(token) => (UpStage::Starting(token), ActionModel::Start(options.args(), token@)),
            None => (UpStage::MakingToken, ActionModel::MakeToken),
        },
        (UpStage::CloningLog, DaemonEvent::Failed(why)) => (
            UpStage::Over,
            ActionModel::Fail("error: cannot clone log file handle: "@ + why@),
        ),
        (UpStage::MakingToken, DaemonEvent::Token(token)) => (
            UpStage::Starting(token),
            ActionModel::Start(options.args(), token@),
        ),
        (UpStage::MakingToken, DaemonEvent::Failed(why)) => (
            UpStage::Over,
            ActionModel::Fail("error: cannot make an admin token: "@ + why@),
        ),
        (UpStage::Starting(token), DaemonEvent::Started(pid)) => (
            UpStage::Waiting(pid, token),
            ActionModel::LookWhetherItRuns,
        ),
        (UpStage::Starting(_), DaemonEvent::Failed(why)) => (
            UpStage::Over,
            ActionModel::Fail("error: failed to start daemon: "@ + why@),
        ),
        (UpStage::Waiting(pid, token), DaemonEvent::Looked(runs, waited_ms)) => if runs {
            (UpStage::Over, ActionModel::Succeed(running_text(options, pid, token@)))
        } else if waited_ms > DAEMON_TIMEOUT_MS {
            (UpStage::Over, ActionModel::Fail("error: daemon failed to start within timeout"@))
        } else {
            (stage, ActionModel::Wait)
        },
        _ => (stage, ActionModel::Nothing),
    }
}

impl UpOptions {
    /// Start the daemon with an admin token.
    fn start(&self, token: String) -> (r: (UpStage, DaemonAction))
        ensures
            r.0 == UpStage::Starting(token),
            r.1@ == ActionModel::Start(self.args(), token@),
    {
        let args = daemon_args(
            self.listen.as_str(),
            self.repo.as_str(),
            self.log_level.as_str(),
            self.socket.as_str(),
            self.log_file.as_str(),
            self.integration,
        );
        (UpStage::Starting(token.clone()), DaemonAction::Start(args, token))
    }

    /// Take in what was found out, and say what to do next.
    pub fn step(&self, stage: UpStage, event: DaemonEvent) -> (r: (UpStage, DaemonAction))
        ensures
            (r.0, r.1@) == up_step(*self, stage, event),
    {
        match (stage, event) {
            (UpStage::Asked, DaemonEvent::Status(status)) => match daemon_to_stop(&status) {
                Some(pid) => (UpStage::Over, DaemonAction::Fail(already_running_message(pid))),
                None => (UpStage::FindingProgram, DaemonAction::FindProgram),
            },
            (UpStage::FindingProgram, DaemonEvent::Did) => (
                UpStage::CreatingLog,
                DaemonAction::CreateLog(self.log_file.clone()),
            ),
            (UpStage::FindingProgram, DaemonEvent::Failed(why)) => (
                UpStage::Over,
                DaemonAction::Fail(
                    because("error: cannot determine executable path: ", why.as_str()),
                ),
            ),
            (UpStage::CreatingLog, DaemonEvent::Did) => (
                UpStage::CloningLog,
                DaemonAction::CloneLog,
            ),
            (UpStage::CreatingLog, DaemonEvent::Failed(why)) => {
                let mut line = because("error: cannot create log file ", self.log_file.as_str());
                line.append(": ");
                line.append(why.as_str());
                (UpStage::Over, DaemonAction::Fail(line))
            },
            (UpStage::CloningLog, DaemonEvent::Did) => match &self.token {
                Some(token) => self.start(token.clone()),
                None => (UpStage::MakingToken, DaemonAction::MakeToken),
            },
            (UpStage::CloningLog, DaemonEvent::Failed(why)) => (
                UpStage::Over,
                DaemonAction::Fail(because("error: cannot clone log file handle: ", why.as_str())),
            ),
            (UpStage::MakingToken, DaemonEvent::Token(token)) => self.start(token),
            (UpStage::MakingToken, DaemonEvent::Failed(why)) => (
                UpStage::Over,
                DaemonAction::Fail(because("error: cannot make an admin token: ", why.as_str())),
            ),
            (UpStage::Starting(token), DaemonEvent::Started(pid)) => (
                UpStage::Waiting(pid, token),
                DaemonAction::LookWhetherItRuns,
            ),
            (UpStage::Starting(_), DaemonEvent::Failed(why)) => (
                UpStage::Over,
                DaemonAction::Fail(because("error: failed to start daemon: ", why.as_str())),
            ),
            (UpStage::Waiting(pid, token), DaemonEvent::Looked(runs, waited_ms)) => match daemon_wait(
                runs,
                waited_ms,
            ) {
                DaemonWait::Done => {
                    let mut line = running_message(pid);
                    if self.token.is_none() {
                        line.append("\nadmin token: ");
                        line.append(token.as_str());
                    }
                    assert(line@ =~= running_text(*self, pid, token@));
                    (UpStage::Over, DaemonAction::Succeed(line))
                },
                DaemonWait::TimedOut => (
                    UpStage::Over,
                    DaemonAction::Fail("error: daemon failed to start within timeout".to_owned()),
                ),
                DaemonWait::Wait => (UpStage::Waiting(pid, token), DaemonAction::Wait),
            },
            (stage, _) => (stage, DaemonAction::Nothing),
        }
    }
}

// ─── Down ─────────────────────────────────────────────────────────────────────

/// How far `tandem down` has come: what it waits to hear of.
#[derive(Debug, Clone, Copy, PartialEq, Eq, Structural)]
pub enum DownStage {
    /// The control socket was asked for the status.
    Asked,
    /// This process was asked to stop.
    AskedToStop(u32),
    Waiting(u32),
    Over,
}

/// What `tandem down` does at a stage about an event that it waits for, and nothing
/// about any other.
pub open spec fn down_step(stage: DownStage, event: DaemonEvent) -> (DownStage, ActionModel) {
    match (stage, event) {
        (DownStage::Asked, DaemonEvent::Status(status)) => match running_pid(status) {
            Some(pid) => (DownStage::AskedToStop(pid), ActionModel::AskToStop),
            None => (DownStage::Over, ActionModel::Fail("tandem is not running"@)),
        },
        (DownStage::AskedToStop(pid), DaemonEvent::Did) => (
            DownStage::Waiting(pid),
            ActionModel::LookWhetherGone(pid),
        ),
        (DownStage::AskedToStop(_), DaemonEvent::Failed(why)) => (
            DownStage::Over,
            ActionModel::Fail("error: shutdown request failed: "@ + why@),
        ),
        (DownStage::Waiting(_), DaemonEvent::Looked(gone, waited_ms)) => if gone {
            (DownStage::Over, ActionModel::Succeed("tandem stopped"@))
        } else if waited_ms > DAEMON_TIMEOUT_MS {
            (DownStage::Over, ActionModel::Fail("warning: daemon did not exit within timeout"@))
        } else {
            (stage, ActionModel::Wait)
        },
        _ => (stage, ActionModel::Nothing),
    }
}

impl DownStage {
    /// Take in what was found out, and say what to do next.
    pub fn step(self, event: DaemonEvent) -> (r: (DownStage, DaemonAction))
        ensures
            (r.0, r.1@) == down_step(self, event),
    {
        match (self, event) {
            (DownStage::Asked, DaemonEvent::Status(status)) => match daemon_to_stop(&status) {
                Some(pid) => (DownStage::AskedToStop(pid), DaemonAction::AskToStop),
                None => (DownStage::Over, DaemonAction::Fail("tandem is not running".to_owned())),
            },
            (DownStage::AskedToStop(pid), DaemonEvent::Did) => (
                DownStage::Waiting(pid),
                DaemonAction::LookWhetherGone(pid),
            ),
            (DownStage::AskedToStop(_), DaemonEvent::Failed(why)) => (
                DownStage::Over,
                DaemonAction::Fail(because("error: shutdown request failed: ", why.as_str())),
            ),
            (DownStage::Waiting(_), DaemonEvent::Looked(gone, waited_ms)) => match daemon_wait(
                gone,
                waited_ms,
            ) {
                DaemonWait::Done => (
                    DownStage::Over,
                    DaemonAction::Succeed("tandem stopped".to_owned()),
                ),
                DaemonWait::TimedOut => (
                    DownStage::Over,
                    DaemonAction::Fail("warning: daemon did not exit within timeout".to_owned()),
                ),
                DaemonWait::Wait => (self, DaemonAction::Wait),
            },
            _ => (self, DaemonAction::Nothing),
        }
    }
}

// ─── What a run promises ──────────────────────────────────────────────────────

/// How far `tandem up` is after some events, and how often it has started a daemon.
pub open spec fn up_run(options: UpOptions, events: Seq<DaemonEvent>) -> (UpStage, nat)
    decreases events.len(),
{
    if events.len() == 0 {
        (UpStage::Asked, 0)
    } else {
        let (stage, starts) = up_run(options, events.drop_last());
        let (next, action) = up_step(options, stage, events.last());
        (
            next,
            starts + if action is Start {
                1nat
            } else {
                0
            },
        )
    }
}

/// Whatever it hears, `tandem up` starts a daemon once at most, and none before the
/// program was found and the log file was there.
pub proof fn a_daemon_is_started_once(options: UpOptions, events: Seq<DaemonEvent>)
    ensures
        ({
            let (stage, starts) = up_run(options, events);
            &&& starts <= 1
            &&& stage is Asked || stage is FindingProgram || stage is CreatingLog
                || stage is CloningLog || stage is MakingToken ==> starts == 0
            &&& stage is Starting || stage is Waiting ==> starts == 1
        }),
    decreases events.len(),
{
    if events.len() > 0 {
        a_daemon_is_started_once(options, events.drop_last());
    }
}

/// Where the control socket answers that a daemon runs, `tandem up` starts none,
/// whatever it hears after that.
pub proof fn a_running_daemon_is_left_alone(options: UpOptions, events: Seq<DaemonEvent>)
    requires
        events.len() > 0,
        events[0] matches DaemonEvent::Status(status) && running_pid(status) is Some,
    ensures
        up_run(options, events) == (UpStage::Over, 0nat),
    decreases events.len(),
{
    if events.len() == 1 {
        assert(up_run(options, events.drop_last()) == (UpStage::Asked, 0nat));
        assert(events.last() == events[0]);
    } else {
        a_running_daemon_is_left_alone(options, events.drop_last());
    }
}

/// A daemon is started with the arguments of the options, and with the token that was
/// supplied, or else the one that was made for it; the token is the one that is shown later.
pub proof fn a_daemon_gets_its_arguments_and_its_token(
    options: UpOptions,
    stage: UpStage,
    event: DaemonEvent,
)
    ensures
        up_step(options, stage, event).1 matches ActionModel::Start(args, token) ==> {
            &&& args == daemon_args_of(
                options.listen@,
                options.repo@,
                options.log_level@,
                options.socket@,
                options.log_file@,
                options.integration,
            )
            &&& up_step(options, stage, event).0 matches UpStage::Starting(kept) && kept@ == token
            &&& match event {
                DaemonEvent::Token(made) => token == made@,
                _ => options.token matches Some(supplied) && token == supplied@,
            }
        },
        stage matches UpStage::Starting(token) ==> (event matches DaemonEvent::Started(pid)
            ==> up_step(options, stage, event).0 == UpStage::Waiting(pid, token)),
        stage is FindingProgram && event is Did ==> up_step(options, stage, event).1
            == ActionModel::CreateLog(options.log_file@),
        event is Failed && !(stage is Asked) && !(stage is Waiting) && !(stage is Over) ==> up_step(
            options,
            stage,
            event,
        ).0 is Over && up_step(options, stage, event).1 is Fail,
{
}

/// A daemon runs exactly where the control socket answered that it does. `tandem up` goes
/// on exactly where none runs and `tandem down` exactly where one does, and the process
/// that `tandem down` waits for is the one that answered.
pub proof fn the_process_that_answered_is_stopped(
    options: UpOptions,
    status: Option<StatusResponse>,
    pid: u32,
)
    ensures
        running_pid(status) == Some(pid) <==> (status matches Some(answer) && answer.running
            && answer.pid == pid),
        up_step(options, UpStage::Asked, DaemonEvent::Status(status)).1 is FindProgram
            <==> running_pid(status) is None,
        down_step(DownStage::Asked, DaemonEvent::Status(status)).1 is AskToStop <==> running_pid(
            status,
        ) is Some,
        running_pid(status) == Some(pid) ==> down_step(
            DownStage::Asked,
            DaemonEvent::Status(status),
        ).0 == DownStage::AskedToStop(pid),
        down_step(DownStage::AskedToStop(pid), DaemonEvent::Did) == (
            DownStage::Waiting(pid),
            ActionModel::LookWhetherGone(pid),
        ),
{
}

/// The admin token that the daemon was last started with, if it was.
pub open spec fn token_handed(options: UpOptions, events: Seq<DaemonEvent>) -> Option<Seq<char>>
    decreases events.len(),
{
    if events.len() == 0 {
        None
    } else {
        let stage = up_run(options, events.drop_last()).0;
        match up_step(options, stage, events.last()).1 {
            ActionModel::Start(_, token) => Some(token),
            _ => token_handed(options, events.drop_last()),
        }
    }
}

/// Whatever it hears, a `tandem up` that is waiting for its daemon knows the admin
/// token that the daemon has: the one that was supplied, where one was. Where none
/// was, what it prints once the daemon runs ends with that token, on a line of its
/// own.
pub proof fn an_admin_token_is_shown(
    options: UpOptions,
    events: Seq<DaemonEvent>,
    waited_ms: u64,
)
    requires
        up_run(options, events).0 is Waiting,
    ensures
        ({
            let handed = token_handed(options, events);
            let action = up_step(
                options,
                up_run(options, events).0,
                DaemonEvent::Looked(true, waited_ms),
            ).1;
            &&& handed is Some
            &&& options.token matches Some(supplied) ==> handed == Some(supplied@)
            &&& options.token is None ==> action == ActionModel::Succeed(
                "tandem running, PID "@ + decimal(up_run(options, events).0->Waiting_0 as nat)
                    + ("\nadmin token: "@ + handed->0),
            )
        }),
{
    lemma_token_is_known(options, events);
}

proof fn lemma_token_is_known(options: UpOptions, events: Seq<DaemonEvent>)
    ensures
        ({
            let known = match up_run(options, events).0 {
                UpStage::Starting(token) => Some(token),
                UpStage::Waiting(_, token) => Some(token),
                _ => None,
            };
            &&& up_run(options, events).0 is MakingToken ==> options.token is None
            &&& known matches Some(token) ==> {
                &&& token_handed(options, events) == Some(token@)
                &&& options.token matches Some(supplied) ==> supplied == token
            }
        }),
    decreases events.len(),
{
    if events.len() > 0 {
        lemma_token_is_known(options, events.drop_last());
    }
}

/// The waiting ends: at the latest once the time is up, and earlier where the daemon
/// has come as far as it should, which counts even then.
pub proof fn the_waiting_ends(
    options: UpOptions,
    pid: u32,
    token: String,
    settled: bool,
    waited_ms: u64,
)
    ensures
        up_step(options, UpStage::Waiting(pid, token), DaemonEvent::Looked(settled, waited_ms)).0
            == UpStage::Over <==> settled || waited_ms > DAEMON_TIMEOUT_MS,
        up_step(options, UpStage::Waiting(pid, token), DaemonEvent::Looked(settled, waited_ms)).1
            is Succeed <==> settled,
        up_step(options, UpStage::Waiting(pid, token), DaemonEvent::Looked(settled, waited_ms)).1
            is Wait <==> !settled && waited_ms <= 10_000,
        down_step(DownStage::Waiting(pid), DaemonEvent::Looked(settled, waited_ms)).0
            == DownStage::Over <==> settled || waited_ms > DAEMON_TIMEOUT_MS,
        down_step(DownStage::Waiting(pid), DaemonEvent::Looked(settled, waited_ms)).1
            is Succeed <==> settled,
{
}

} // verus!
