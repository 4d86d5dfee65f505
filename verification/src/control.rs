//! The control socket: newline-delimited JSON.
//!
//! A client sends one line: `{"type": "status"}`, `{"type": "shutdown"}` or
//! `{"type": "logs", "level": "debug"}`. The server answers with one line to the
//! first two, and streams log lines to the third until either side goes away.
use vstd::prelude::*;
use vstd::string::*;

use crate::json::{
    is_reserved, last_line_field, line_model, line_object, read_line_field, text_under, write_line,
    LineField, LineModel,
};
use crate::text::{
    back_trimmed, decimal, front_trimmed, is_blank, lower, lowered, maybe, maybe_text, push_decimal,
    same_text, trim, trimmed, CharClass,
};

verus! {

// ─── Protocol types ───────────────────────────────────────────────────────────

#[derive(Debug)]
pub struct StatusResponse {
    pub running: bool,
    pub pid: u32,
    pub uptime_secs: u64,
    pub repo: String,
    pub listen: String,
    pub version: String,
}

/// How the server-side recompute of the integration workspace stands.
#[derive(Debug)]
pub struct IntegrationStatus {
    pub enabled: bool,
    pub last_status: String,
    pub last_integration_commit: Option<String>,
    pub last_error: Option<String>,
}

#[derive(Debug, Clone)]
pub struct LogEvent {
    pub ts: String,
    pub level: String,
    pub msg: String,
}

/// The time of an event, in whole seconds since the epoch.
pub fn timestamp(epoch_secs: u64) -> (s: String)
    ensures
        s@ == decimal(epoch_secs as nat) + "Z"@,
{
    let mut s = "".to_owned();
    push_decimal(&mut s, epoch_secs);
    proof {
        reveal_strlit("");
        assert(s@ =~= decimal(epoch_secs as nat));
    }
    s.append("Z");
    s
}

/// An event that is logged now.
pub fn log_event(epoch_secs: u64, level: &str, msg: &str) -> (event: LogEvent)
    ensures
        event.ts@ == decimal(epoch_secs as nat) + "Z"@,
        event.level@ == level@,
        event.msg@ == msg@,
{
    LogEvent { ts: timestamp(epoch_secs), level: level.to_owned(), msg: msg.to_owned() }
}

// ─── Levels ───────────────────────────────────────────────────────────────────

/// How much a level matters. One that is not known counts as `info`.
pub open spec fn rank_of(level: Seq<char>) -> u8 {
    let word = lowered(level);
    if word == "trace"@ {
        0
    } else if word == "debug"@ {
        1
    } else if word == "info"@ {
        2
    } else if word == "warn"@ || word == "warning"@ {
        3
    } else if word == "error"@ {
        4
    } else {
        2
    }
}

pub fn level_rank(level: &str) -> (rank: u8)
    ensures
        rank == rank_of(level@),
{
    let word = lower(level);
    let word = word.as_str();
    if same_text(word, "trace") {
        0
    } else if same_text(word, "debug") {
        1
    } else if same_text(word, "info") {
        2
    } else if same_text(word, "warn") || same_text(word, "warning") {
        3
    } else if same_text(word, "error") {
        4
    } else {
        2
    }
}

/// Whether an event of `level` is sent to a client that asked for `min_rank` and
/// up.
pub fn passes(level: &str, min_rank: u8) -> (r: bool)
    ensures
        r == (rank_of(level@) >= min_rank),
{
    level_rank(level) >= min_rank
}

/// An event that passes a filter passes every lower one too, and an error passes
/// them all.
pub proof fn filters_are_nested(level: Seq<char>, filter: Seq<char>, lower_filter: Seq<char>)
    requires
        rank_of(lower_filter) <= rank_of(filter),
        rank_of(level) >= rank_of(filter),
    ensures
        rank_of(level) >= rank_of(lower_filter),
        rank_of("error"@) >= rank_of(filter),
{
    reveal_strlit("error");
    reveal_strlit("trace");
    reveal_strlit("debug");
    reveal_strlit("info");
    reveal_strlit("warn");
    reveal_strlit("warning");
    assert(lowered("error"@) =~= "error"@);
    assert("error"@[0] == 'e' && "trace"@[0] == 't' && "debug"@[0] == 'd' && "info"@[0] == 'i');
    assert("warn"@[0] == 'w' && "warning"@[0] == 'w');
}

/// The levels in their order: trace, debug, info, warn or warning, error, in any case; a
/// word that is none of these counts as info.
pub proof fn levels_rank_in_their_order(level: Seq<char>)
    ensures
        rank_of(level) == 0 <==> lowered(level) == "trace"@,
        rank_of(level) == 1 <==> lowered(level) == "debug"@,
        rank_of(level) == 3 <==> lowered(level) == "warn"@ || lowered(level) == "warning"@,
        rank_of(level) == 4 <==> lowered(level) == "error"@,
        rank_of(level) <= 4,
{
    reveal_strlit("trace");
    reveal_strlit("debug");
    reveal_strlit("info");
    reveal_strlit("warn");
    reveal_strlit("warning");
    reveal_strlit("error");
    assert("trace"@[0] == 't' && "debug"@[0] == 'd' && "error"@[0] == 'e' && "info"@[0] == 'i'
        && "warn"@[0] == 'w' && "warning"@[0] == 'w');
}

// ─── Requests ─────────────────────────────────────────────────────────────────

/// What a line on the socket asks for.
#[derive(Debug, PartialEq, Eq)]
pub enum Request {
    /// An empty line: the connection is closed without an answer.
    Nothing,
    /// The line is not JSON.
    Invalid,
    Status,
    Shutdown,
    /// Stream the events of this rank and up.
    Logs(u8),
    Unknown(String),
}

/// A request, as a mathematical value.
pub enum RequestModel {
    Nothing,
    Invalid,
    Status,
    Shutdown,
    Logs(u8),
    Unknown(Seq<char>),
}

impl View for Request {
    type V = RequestModel;

    open spec fn view(&self) -> RequestModel {
        match self {
            Request::Nothing => RequestModel::Nothing,
            Request::Invalid => RequestModel::Invalid,
            Request::Status => RequestModel::Status,
            Request::Shutdown => RequestModel::Shutdown,
            Request::Logs(rank) => RequestModel::Logs(*rank),
            Request::Unknown(kind) => RequestModel::Unknown(kind@),
        }
    }
}

/// What a request of this type asks for, with the level it names.
pub open spec fn request_kind(kind: Seq<char>, level: Option<Seq<char>>) -> RequestModel {
    if kind == "status"@ {
        RequestModel::Status
    } else if kind == "shutdown"@ {
        RequestModel::Shutdown
    } else if kind == "logs"@ {
        RequestModel::Logs(
            match level {
                Some(level) => rank_of(level),
                None => rank_of("info"@),
            },
        )
    } else {
        RequestModel::Unknown(kind)
    }
}

/// Which type asks for what: status, shutdown and logs, the last from the level that is
/// named and up, and from info up where none is. Any other is not known.
pub proof fn a_type_asks_for_what_it_says(kind: Seq<char>, level: Option<Seq<char>>)
    ensures
        request_kind(kind, level) is Status <==> kind == "status"@,
        request_kind(kind, level) is Shutdown <==> kind == "shutdown"@,
        request_kind(kind, level) is Logs <==> kind == "logs"@,
        request_kind(kind, level) matches RequestModel::Logs(rank) ==> rank == (match level {
            Some(level) => rank_of(level),
            None => 2,
        }),
        request_kind(kind, level) matches RequestModel::Unknown(said) ==> said == kind,
{
    reveal_strlit("status");
    reveal_strlit("shutdown");
    reveal_strlit("logs");
    assert("status"@.len() != "shutdown"@.len() && "status"@.len() != "logs"@.len()
        && "shutdown"@.len() != "logs"@.len());
    levels_rank_in_their_order("info"@);
    reveal_strlit("info");
    assert(lowered("info"@) =~= "info"@);
    reveal_strlit("trace");
    reveal_strlit("debug");
    reveal_strlit("warn");
    reveal_strlit("warning");
    reveal_strlit("error");
    assert("trace"@[0] == 't' && "debug"@[0] == 'd' && "error"@[0] == 'e' && "info"@[0] == 'i'
        && "warn"@[0] == 'w' && "warning"@[0] == 'w');
}

/// What a request of this type asks for. Logs are streamed from `info` up where
/// no level is named.
pub fn classify_request(kind: &str, level: Option<String>) -> (r: Request)
    ensures
        r@ == request_kind(kind@, maybe(level)),
{
    if same_text(kind, "status") {
        Request::Status
    } else if same_text(kind, "shutdown") {
        Request::Shutdown
    } else if same_text(kind, "logs") {
        match level {
            Some(level) => Request::Logs(level_rank(level.as_str())),
            None => Request::Logs(level_rank("info")),
        }
    } else {
        Request::Unknown(kind.to_owned())
    }
}

/// What a line asks for.
pub open spec fn request_of(line: Seq<char>) -> RequestModel {
    let text = trimmed(line, CharClass::White);
    if text.len() == 0 {
        RequestModel::Nothing
    } else {
        match last_line_field(text, "type"@) {
            None => RequestModel::Invalid,
            Some(kind) => request_kind(
                match kind {
                    Some(kind) => kind,
                    None => Seq::empty(),
                },
                match last_line_field(text, "level"@) {
                    Some(Some(level)) => Some(level),
                    _ => None,
                },
            ),
        }
    }
}

/// A line that is white space asks for nothing, and one that is not JSON is refused. Any
/// other asks for what its type says, with the level it names; one without a type is of a
/// type that is not known.
pub proof fn a_line_asks_for_what_its_type_says(line: Seq<char>)
    ensures
        ({
            let text = trimmed(line, CharClass::White);
            &&& request_of(line) is Nothing <==> text.len() == 0
            &&& text.len() > 0 ==> match last_line_field(text, "type"@) {
                None => request_of(line) is Invalid,
                Some(None) => request_of(line) == RequestModel::Unknown(Seq::empty()),
                Some(Some(kind)) => request_of(line) == request_kind(
                    kind,
                    match last_line_field(text, "level"@) {
                        Some(level) => level,
                        None => None,
                    },
                ),
            }
        }),
{
    reveal_strlit("status");
    reveal_strlit("shutdown");
    reveal_strlit("logs");
    assert("status"@.len() > 0 && "shutdown"@.len() > 0 && "logs"@.len() > 0);
    let text = trimmed(line, CharClass::White);
    if text.len() > 0 && last_line_field(text, "type"@) is Some {
        a_type_asks_for_what_it_says(
            match last_line_field(text, "type"@)->0 {
                Some(kind) => kind,
                None => Seq::empty(),
            },
            match last_line_field(text, "level"@) {
                Some(Some(level)) => Some(level),
                _ => None,
            },
        );
    }
}

/// Read a line from the socket.
pub fn read_request(line: &str) -> (r: Request)
    ensures
        r@ == request_of(line@),
{
    let text = trim(line, CharClass::White);
    let text = text.as_str();
    if is_blank(text) {
        return Request::Nothing;
    }
    let kind = match read_line_field(text, "type") {
        Ok(Some(kind)) => kind,
        Ok(None) => {
            proof {
                reveal_strlit("");
                assert(""@ =~= Seq::<char>::empty());
            }
            "".to_owned()
        },
        Err(_) => return Request::Invalid,
    };
    let level = match read_line_field(text, "level") {
        Ok(level) => level,
        Err(_) => None,
    };
    classify_request(kind.as_str(), level)
}

proof fn lemma_names()
    ensures
        "type"@ != "level"@,
        !is_reserved("type"@),
        !is_reserved("level"@),
        !is_reserved("ok"@),
        !is_reserved("msg"@),
{
    reveal_strlit("type");
    reveal_strlit("level");
    reveal_strlit("ok");
    reveal_strlit("msg");
    reveal_strlit("$serde_json::private::Number");
    reveal_strlit("$serde_json::private::RawValue");
    assert("type"@.len() == 4 && "level"@.len() == 5 && "ok"@.len() == 2 && "msg"@.len() == 3);
    assert("$serde_json::private::Number"@.len() > 5);
    assert("$serde_json::private::RawValue"@.len() > 5);
}

/// The fields of a request.
pub open spec fn request_fields(kind: Seq<char>, level: Option<Seq<char>>) -> Seq<
    (Seq<char>, LineModel),
> {
    match level {
        Some(level) => seq![
            ("type"@, LineModel::Text(kind)),
            ("level"@, LineModel::Text(level)),
        ],
        None => seq![("type"@, LineModel::Text(kind))],
    }
}

/// What a client sends to ask for something, without the end of the line. The server
/// hears what was asked for.
pub fn request_line(kind: &str, level: Option<&str>) -> (r: String)
    ensures
        r@ == line_object(request_fields(kind@, maybe_text(level))),
        !r@.contains('\n'),
        request_of(r@.push('\n')) == request_kind(kind@, maybe_text(level)),
{
    let mut fields: Vec<(String, LineField)> = Vec::new();
    fields.push(("type".to_owned(), LineField::Text(kind.to_owned())));
    match level {
        Some(level) => {
            fields.push(("level".to_owned(), LineField::Text(level.to_owned())));
        },
        None => {},
    }
    let ghost model = line_model(fields@);
    assert(model =~= request_fields(kind@, maybe_text(level)));
    proof {
        lemma_names();
    }
    let r = write_line(fields);
    proof {
        reveal_with_fuel(text_under, 3);
        assert(model.len() == if level is Some {
            2nat
        } else {
            1
        });
        assert(text_under(model, "type"@) == Some(kind@));
        assert(text_under(model, "level"@) == maybe_text(level));
        let sent = r@.push('\n');
        assert(sent.drop_last() =~= r@);
        assert(sent[0] == '{');
        assert(trimmed(sent, CharClass::White) == r@) by {
            reveal_with_fuel(back_trimmed, 2);
            reveal_with_fuel(front_trimmed, 2);
        }
    }
    r
}

/// The sentence for a type that is not known.
pub fn unknown_request_message(kind: &str) -> (s: String)
    ensures
        s@ == "unknown request type: "@ + kind@,
{
    let mut s = "unknown request type: ".to_owned();
    s.append(kind);
    s
}

/// What a server answers to a shutdown before it stops.
pub fn shutdown_line() -> (r: String)
    ensures
        r@ == line_object(
            seq![("type"@, LineModel::Text("shutdown"@)), ("ok"@, LineModel::Flag(true))],
        ),
{
    let mut fields: Vec<(String, LineField)> = Vec::new();
    fields.push(("type".to_owned(), LineField::Text("shutdown".to_owned())));
    fields.push(("ok".to_owned(), LineField::Flag(true)));
    proof {
        lemma_names();
    }
    assert(line_model(fields@) =~= seq![
        ("type"@, LineModel::Text("shutdown"@)),
        ("ok"@, LineModel::Flag(true)),
    ]);
    write_line(fields)
}

/// What a server answers to a request of a type that is not known.
pub fn error_line(kind: &str) -> (r: String)
    ensures
        r@ == line_object(
            seq![
                ("type"@, LineModel::Text("error"@)),
                ("msg"@, LineModel::Text("unknown request type: "@ + kind@)),
            ],
        ),
{
    let mut fields: Vec<(String, LineField)> = Vec::new();
    fields.push(("type".to_owned(), LineField::Text("error".to_owned())));
    fields.push(("msg".to_owned(), LineField::Text(unknown_request_message(kind))));
    proof {
        lemma_names();
    }
    assert(line_model(fields@) =~= seq![
        ("type"@, LineModel::Text("error"@)),
        ("msg"@, LineModel::Text("unknown request type: "@ + kind@)),
    ]);
    write_line(fields)
}

/// What a server does about a request.
#[derive(Debug, PartialEq, Eq)]
pub enum ControlAction {
    /// Close the connection without an answer.
    Close,
    /// Close the connection and report that the line is not JSON.
    Refuse,
    /// Send the status and close the connection.
    Report,
    /// Send the line and close the connection.
    Answer(String),
    /// Send the line, close the connection, and stop the server.
    AnswerAndStop(String),
    /// Send the log events of this rank and up as they come.
    Stream(u8),
}

pub fn respond(request: Request) -> (r: ControlAction)
    ensures
        match request@ {
            RequestModel::Nothing => r is Close,
            RequestModel::Invalid => r is Refuse,
            RequestModel::Status => r is Report,
            RequestModel::Shutdown => r matches ControlAction::AnswerAndStop(line) && line@
                == line_object(
                seq![("type"@, LineModel::Text("shutdown"@)), ("ok"@, LineModel::Flag(true))],
            ),
            RequestModel::Logs(rank) => r == ControlAction::Stream(rank),
            RequestModel::Unknown(kind) => r matches ControlAction::Answer(line) && line@
                == line_object(
                seq![
                    ("type"@, LineModel::Text("error"@)),
                    ("msg"@, LineModel::Text("unknown request type: "@ + kind)),
                ],
            ),
        },
{
    match request {
        Request::Nothing => ControlAction::Close,
        Request::Invalid => ControlAction::Refuse,
        Request::Status => ControlAction::Report,
        Request::Shutdown => ControlAction::AnswerAndStop(shutdown_line()),
        Request::Logs(rank) => ControlAction::Stream(rank),
        Request::Unknown(kind) => ControlAction::Answer(error_line(kind.as_str())),
    }
}

/// What a stream of log events meets.
#[derive(Debug, PartialEq, Eq)]
pub enum StreamEvent {
    /// An event of this level was logged.
    Logged(String),
    /// Some events were missed.
    Lagged,
    /// No event can come any more.
    Closed,
    /// A line could not be sent: the client is gone.
    SendFailed,
}

/// What the stream does about it.
#[derive(Debug, Clone, Copy, PartialEq, Eq, Structural)]
pub enum StreamAction {
    Send,
    Skip,
    Stop,
}

/// Events of the rank and up are sent until none can come or the client is gone.
pub fn stream_step(event: &StreamEvent, min_rank: u8) -> (r: StreamAction)
    ensures
        r == (match event {
            StreamEvent::Logged(level) => if rank_of(level@) >= min_rank {
                StreamAction::Send
            } else {
                StreamAction::Skip
            },
            StreamEvent::Lagged => StreamAction::Skip,
            StreamEvent::Closed | StreamEvent::SendFailed => StreamAction::Stop,
        }),
{
    match event {
        StreamEvent::Logged(level) => {
            if passes(level.as_str(), min_rank) {
                StreamAction::Send
            } else {
                StreamAction::Skip
            }
        },
        StreamEvent::Lagged => StreamAction::Skip,
        StreamEvent::Closed => StreamAction::Stop,
        StreamEvent::SendFailed => StreamAction::Stop,
    }
}

/// The answer to a status request.
pub fn status_response(
    pid: u32,
    uptime_secs: u64,
    repo: &str,
    listen: &str,
    version: &str,
) -> (r: StatusResponse)
    ensures
        r.running,
        r.pid == pid,
        r.uptime_secs == uptime_secs,
        r.repo@ == repo@,
        r.listen@ == listen@,
        r.version@ == version@,
{
    StatusResponse {
        running: true,
        pid,
        uptime_secs,
        repo: repo.to_owned(),
        listen: listen.to_owned(),
        version: version.to_owned(),
    }
}

// ─── The client's side of a log stream ────────────────────────────────────────

/// What is printed of a line of a log stream: nothing of an empty one, the line
/// as it is where JSON was asked for or where it is no event, and the event in
/// words otherwise.
pub open spec fn printed(line: Seq<char>, json_output: bool, event: Option<LogEvent>) -> Option<
    Seq<char>,
> {
    if trimmed(line, CharClass::White).len() == 0 {
        None
    } else if json_output {
        Some(line)
    } else {
        match event {
            Some(event) => Some("["@ + event.level@ + "] "@ + event.ts@ + " "@ + event.msg@),
            None => Some(line),
        }
    }
}

/// `event` is what the line says, where it could be read as one.
pub fn printed_line(line: &str, json_output: bool, event: Option<LogEvent>) -> (r: Option<String>)
    ensures
        maybe(r) == printed(line@, json_output, event),
{
    let bare = trim(line, CharClass::White);
    if is_blank(bare.as_str()) {
        return None;
    }
    if json_output {
        return Some(line.to_owned());
    }
    match event {
        Some(event) => {
            let mut s = "[".to_owned();
            s.append(event.level.as_str());
            s.append("] ");
            s.append(event.ts.as_str());
            s.append(" ");
            s.append(event.msg.as_str());
            Some(s)
        },
        None => Some(line.to_owned()),
    }
}

/// A line is printed as it came where JSON was asked for or where it is no event, and an
/// event with its level, its time and its message; nothing is printed of a blank line.
pub proof fn a_line_is_printed_as_it_was_asked_for(
    line: Seq<char>,
    json_output: bool,
    event: Option<LogEvent>,
)
    ensures
        printed(line, json_output, event) is None <==> trimmed(line, CharClass::White).len() == 0,
        trimmed(line, CharClass::White).len() > 0 && (json_output || event is None) ==> printed(
            line,
            json_output,
            event,
        ) == Some(line),
        trimmed(line, CharClass::White).len() > 0 && !json_output ==> (event matches Some(said)
            ==> printed(line, json_output, event) == Some(
            "["@ + said.level@ + "] "@ + said.ts@ + " "@ + said.msg@,
        )),
{
}

} // verus!
