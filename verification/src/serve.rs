//! How a server runs: it accepts connections until it is told to stop, gives the
//! connections that are open a while to finish, and stops.
use vstd::prelude::*;

verus! {

/// How a server is started.
#[derive(Debug, PartialEq, Eq)]
pub struct ServeOptions {
    pub listen_addr: String,
    pub repo_path: String,
    pub log_level: String,
    pub log_format: String,
    pub control_socket: Option<String>,
    pub daemon: bool,
    pub log_file: Option<String>,
    pub enable_integration_workspace: bool,
}

/// How long open connections are given to finish, in milliseconds.
pub const DRAIN_TIMEOUT_MS: u64 = 5000;

/// How long to wait before looking again, in milliseconds.
pub const DRAIN_POLL_MS: u64 = 50;

/// How far a server has come.
#[derive(Debug, Clone, Copy, PartialEq, Eq, Structural)]
pub enum ServePhase {
    Accepting,
    Draining,
    Stopped,
}

/// What happens to a server.
#[derive(Debug, Clone, Copy, PartialEq, Eq, Structural)]
pub enum ServeEvent {
    /// A client connected.
    Connected,
    /// A client's connection ended.
    Disconnected,
    /// SIGINT or SIGTERM.
    Signal,
    /// A shutdown was asked for over the control socket.
    ShutdownRequested,
    /// It is so many milliseconds since the draining began.
    Tick(u64),
}

/// What a server does about it.
#[derive(Debug, Clone, Copy, PartialEq, Eq, Structural)]
pub enum ServeAction {
    Nothing,
    /// Serve the new connection, under this number.
    Serve(u64),
    /// Look again in a while.
    Wait,
    /// Clean up and stop; the flag says whether connections were left open.
    Stop(bool),
    /// Exit at once.
    ForceExit,
}

/// A server, as far as its running is concerned.
#[derive(Debug, Clone, Copy, PartialEq, Eq, Structural)]
pub struct ServeState {
    pub phase: ServePhase,
    /// How many connections are open.
    pub inflight: u32,
    /// The number of the next connection.
    pub next_conn_id: u64,
    /// Whether a signal came in before.
    pub signalled: bool,
}

/// A server that has just begun to listen.
pub open spec fn listening() -> ServeState {
    ServeState { phase: ServePhase::Accepting, inflight: 0, next_conn_id: 1, signalled: false }
}

/// The server once it was told to stop: it stops at once where no connection is
/// open.
pub open spec fn told_to_stop(state: ServeState) -> (ServeState, ServeAction) {
    if state.inflight == 0 {
        (ServeState { phase: ServePhase::Stopped, ..state }, ServeAction::Stop(false))
    } else {
        (ServeState { phase: ServePhase::Draining, ..state }, ServeAction::Wait)
    }
}

/// What a server does about an event. A second signal forces it out, whatever it
/// is doing.
pub open spec fn serve_step(state: ServeState, event: ServeEvent) -> (ServeState, ServeAction) {
    match event {
        ServeEvent::Connected => if state.phase == ServePhase::Accepting {
            (
                ServeState {
                    inflight: (state.inflight + 1) as u32,
                    next_conn_id: (state.next_conn_id + 1) as u64,
                    ..state
                },
                ServeAction::Serve(state.next_conn_id),
            )
        } else {
            (state, ServeAction::Nothing)
        },
        ServeEvent::Disconnected => (
            ServeState {
                inflight: if state.inflight == 0 {
                    0
                } else {
                    (state.inflight - 1) as u32
                },
                ..state
            },
            ServeAction::Nothing,
        ),
        ServeEvent::Signal => if state.signalled {
            (state, ServeAction::ForceExit)
        } else if state.phase == ServePhase::Accepting {
            told_to_stop(ServeState { signalled: true, ..state })
        } else {
            (ServeState { signalled: true, ..state }, ServeAction::Nothing)
        },
        ServeEvent::ShutdownRequested => if state.phase == ServePhase::Accepting {
            told_to_stop(state)
        } else {
            (state, ServeAction::Nothing)
        },
        ServeEvent::Tick(waited) => if state.phase != ServePhase::Draining {
            (state, ServeAction::Nothing)
        } else if state.inflight == 0 {
            (ServeState { phase: ServePhase::Stopped, ..state }, ServeAction::Stop(false))
        } else if waited > DRAIN_TIMEOUT_MS {
            (ServeState { phase: ServePhase::Stopped, ..state }, ServeAction::Stop(true))
        } else {
            (state, ServeAction::Wait)
        },
    }
}

impl ServeState {
    pub fn new() -> (r: ServeState)
        ensures
            r == listening(),
    {
        ServeState {
            phase: ServePhase::Accepting,
            inflight: 0,
            next_conn_id: 1,
            signalled: false,
        }
    }

    fn stop(&mut self) -> (action: ServeAction)
        ensures
            (*final(self), action) == told_to_stop(*old(self)),
    {
        if self.inflight == 0 {
            self.phase = ServePhase::Stopped;
            ServeAction::Stop(false)
        } else {
            self.phase = ServePhase::Draining;
            ServeAction::Wait
        }
    }

    /// Take in an event, and say what to do about it.
    pub fn step(&mut self, event: ServeEvent) -> (action: ServeAction)
        requires
            event is Connected && old(self).phase == ServePhase::Accepting ==> old(self).inflight
                < u32::MAX && old(self).next_conn_id < u64::MAX,
        ensures
            (*final(self), action) == serve_step(*old(self), event),
    {
        match event {
            ServeEvent::Connected => {
                if self.phase == ServePhase::Accepting {
                    let id: u64 = self.next_conn_id;
                    self.next_conn_id = self.next_conn_id + 1;
                    self.inflight = self.inflight + 1;
                    ServeAction::Serve(id)
                } else {
                    ServeAction::Nothing
                }
            },
            ServeEvent::Disconnected => {
                if self.inflight > 0 {
                    self.inflight = self.inflight - 1;
                }
                ServeAction::Nothing
            },
            ServeEvent::Signal => {
                if self.signalled {
                    return ServeAction::ForceExit;
                }
                self.signalled = true;
                if self.phase == ServePhase::Accepting {
                    self.stop()
                } else {
                    ServeAction::Nothing
                }
            },
            ServeEvent::ShutdownRequested => {
                if self.phase == ServePhase::Accepting {
                    self.stop()
                } else {
                    ServeAction::Nothing
                }
            },
            ServeEvent::Tick(waited) => {
                if self.phase != ServePhase::Draining {
                    ServeAction::Nothing
                } else if self.inflight == 0 {
                    self.phase = ServePhase::Stopped;
                    ServeAction::Stop(false)
                } else if waited > DRAIN_TIMEOUT_MS {
                    self.phase = ServePhase::Stopped;
                    ServeAction::Stop(true)
                } else {
                    ServeAction::Wait
                }
            },
        }
    }
}

// ─── What a run promises ──────────────────────────────────────────────────────

/// A server after a run of events.
pub open spec fn served(events: Seq<ServeEvent>) -> ServeState
    decreases events.len(),
{
    if events.len() == 0 {
        listening()
    } else {
        serve_step(served(events.drop_last()), events.last()).0
    }
}

/// How many of some events are `event`.
pub open spec fn how_many(events: Seq<ServeEvent>, event: ServeEvent) -> nat
    decreases events.len(),
{
    if events.len() == 0 {
        0
    } else {
        how_many(events.drop_last(), event) + if events.last() == event {
            1nat
        } else {
            0
        }
    }
}

/// No connection is accepted once the server was told to stop, and a server that
/// has stopped does nothing more, unless a second signal forces it out.
pub proof fn a_stopping_server_accepts_nothing(state: ServeState, event: ServeEvent)
    requires
        state.phase != ServePhase::Accepting,
    ensures
        serve_step(state, event).0.phase != ServePhase::Accepting,
        !(serve_step(state, event).1 is Serve),
        state.phase == ServePhase::Stopped ==> serve_step(state, event).0.phase
            == ServePhase::Stopped && (serve_step(state, event).1 == ServeAction::Nothing
            || serve_step(state, event).1 == ServeAction::ForceExit),
{
}

/// The open connections are counted: one more for each that a server accepts, one less for
/// each that ends, and nothing else changes how many there are.
pub proof fn open_connections_are_counted(state: ServeState, event: ServeEvent)
    requires
        state.inflight < u32::MAX,
        state.next_conn_id < u64::MAX,
    ensures
        ({
            let after = serve_step(state, event).0;
            &&& event is Connected && state.phase is Accepting ==> after.inflight == state.inflight
                + 1
            &&& event is Disconnected && state.inflight > 0 ==> after.inflight == state.inflight - 1
            &&& !(event is Disconnected) && !(event is Connected && state.phase is Accepting)
                ==> after.inflight == state.inflight
            &&& serve_step(state, event).1 is Serve <==> event is Connected && state.phase
                is Accepting
        }),
{
}

/// A server that is told to stop, by a signal or over the control socket, stops at once
/// where no connection is open, and else waits for those that are. A signal is remembered.
pub proof fn a_server_that_is_told_to_stop_does(state: ServeState, event: ServeEvent)
    requires
        state.phase is Accepting,
        event is ShutdownRequested || (event is Signal && !state.signalled),
    ensures
        state.inflight == 0 ==> serve_step(state, event).0.phase is Stopped && serve_step(
            state,
            event,
        ).1 == ServeAction::Stop(false),
        state.inflight > 0 ==> serve_step(state, event).0.phase is Draining && serve_step(
            state,
            event,
        ).1 is Wait,
        event is Signal ==> serve_step(state, event).0.signalled,
        event is ShutdownRequested ==> serve_step(state, event).0.signalled == state.signalled,
{
}

/// Draining ends: at the latest once the time is up, and earlier where every
/// connection has ended.
pub proof fn draining_ends(state: ServeState, waited: u64)
    requires
        state.phase == ServePhase::Draining,
    ensures
        waited > DRAIN_TIMEOUT_MS || state.inflight == 0 ==> serve_step(
            state,
            ServeEvent::Tick(waited),
        ).0.phase == ServePhase::Stopped,
        serve_step(state, ServeEvent::Tick(waited)).1 == ServeAction::Stop(true) <==> (waited
            > DRAIN_TIMEOUT_MS && state.inflight > 0),
        serve_step(state, ServeEvent::Tick(waited)).1 == ServeAction::Wait <==> waited <= 5_000
            && state.inflight > 0,
{
}

/// A second signal gets a server out, whatever happened in between.
pub proof fn a_second_signal_forces_the_exit(events: Seq<ServeEvent>)
    requires
        how_many(events, ServeEvent::Signal) > 0,
    ensures
        serve_step(served(events), ServeEvent::Signal).1 == ServeAction::ForceExit,
    decreases events.len(),
{
    assert(served(events).signalled) by {
        lemma_signalled(events);
    }
}

proof fn lemma_signalled(events: Seq<ServeEvent>)
    ensures
        served(events).signalled <==> how_many(events, ServeEvent::Signal) > 0,
    decreases events.len(),
{
    if events.len() > 0 {
        lemma_signalled(events.drop_last());
    }
}

/// Connections are numbered from one, each number once: as long as a server
/// accepts, the next number is one more than the connections it has taken.
pub proof fn connections_are_numbered(events: Seq<ServeEvent>)
    requires
        events.len() < u32::MAX,
        served(events).phase == ServePhase::Accepting,
    ensures
        served(events).next_conn_id == how_many(events, ServeEvent::Connected) + 1,
        serve_step(served(events), ServeEvent::Connected).1 == ServeAction::Serve(
            (how_many(events, ServeEvent::Connected) + 1) as u64,
        ),
    decreases events.len(),
{
    lemma_numbered(events);
}

proof fn lemma_numbered(events: Seq<ServeEvent>)
    requires
        events.len() < u32::MAX,
    ensures
        served(events).phase == ServePhase::Accepting ==> served(events).next_conn_id == how_many(
            events,
            ServeEvent::Connected,
        ) + 1,
        how_many(events, ServeEvent::Connected) <= events.len(),
        served(events).next_conn_id <= events.len() + 1,
        served(events).inflight <= events.len(),
    decreases events.len(),
{
    if events.len() > 0 {
        lemma_numbered(events.drop_last());
    }
}

} // verus!
