//! The life of a client: attempts, the waits between them, and how it ends.

use super::step::{Events, EventsState};
use super::{
    Client, ClientEvent, ConnectionStage, ConnectionState, EventState, LoginError, RunOptions,
};
use crate::outside;
use std::collections::VecDeque;
use vstd::prelude::*;
use vstd::string::StringExecFns;

verus! {

/// How one attempt ended.
#[derive(Debug)]
pub enum AttemptEnd {
    /// The session closed as it was meant to.
    Completed,
    /// The event handler failed.
    Delivery(String),
    /// The credentials were rejected.
    Login(LoginError),
    /// Anything else, by its description.
    Failed(String),
}

/// How a run ended.
#[derive(Debug)]
pub enum RunEnd {
    Stopped,
    Delivery(String),
    Login(LoginError),
    Failed(String),
    ClockRange,
}

/// The meaning of a `RunEnd`.
#[verifier::ext_equal]
pub enum RunEndState {
    Stopped,
    Delivery(Seq<char>),
    Login(LoginError),
    Failed(Seq<char>),
    ClockRange,
}

impl View for RunEnd {
    type V = RunEndState;

    open spec fn view(&self) -> RunEndState {
        match self {
            RunEnd::Stopped => RunEndState::Stopped,
            RunEnd::Delivery(message) => RunEndState::Delivery(message@),
            RunEnd::Login(e) => RunEndState::Login(*e),
            RunEnd::Failed(message) => RunEndState::Failed(message@),
            RunEnd::ClockRange => RunEndState::ClockRange,
        }
    }
}

impl RunEndState {
    /// The wording of each end, where it is an error.
    pub open spec fn text(self) -> Option<Seq<char>> {
        match self {
            RunEndState::Stopped => None,
            RunEndState::Delivery(message) => Some("deliver client event: "@ + message),
            RunEndState::Login(_) => Some("Login account or password was rejected"@),
            RunEndState::Failed(message) => Some(message),
            RunEndState::ClockRange => Some("reconnect delay exceeds clock range"@),
        }
    }
}

impl RunEnd {
    /// Describe the error to a user, where the run ended with one.
    pub fn message(&self) -> (text: Option<String>)
        ensures
            match text {
                Some(t) => self@.text() == Some(t@),
                None => self@.text() is None,
            },
    {
        match self {
            RunEnd::Stopped => None,
            RunEnd::Delivery(message) => Some(
                "deliver client event: ".to_owned().concat(message.as_str()),
            ),
            RunEnd::Login(e) => Some(e.message().to_owned()),
            RunEnd::Failed(message) => Some(message.clone()),
            RunEnd::ClockRange => Some("reconnect delay exceeds clock range".to_owned()),
        }
    }
}

/// What the host does next.
#[derive(Debug)]
pub enum RunAction {
    /// Hand an event to the handler and report back with `delivered`.
    Deliver(ClientEvent),
    /// Make an attempt and report back with `ended`.
    Connect,
    /// Sleep for some nanoseconds.
    Sleep(u64),
    Finish,
}

/// The meaning of a `RunAction`.
#[verifier::ext_equal]
pub enum RunAct {
    Deliver(EventState),
    Connect,
    Sleep(u64),
    Finish,
}

impl View for RunAction {
    type V = RunAct;

    open spec fn view(&self) -> RunAct {
        match self {
            RunAction::Deliver(event) => RunAct::Deliver(event@),
            RunAction::Connect => RunAct::Connect,
            RunAction::Sleep(nanos) => RunAct::Sleep(*nanos),
            RunAction::Finish => RunAct::Finish,
        }
    }
}

/// Where a run stands once its events are delivered.
#[derive(Debug)]
pub enum Phase {
    Begin,
    Connect,
    Retry,
    Wait(u64),
    End(RunEnd),
}

/// The meaning of a `Phase`.
#[verifier::ext_equal]
pub enum PhaseState {
    Begin,
    Connect,
    Retry,
    Wait(u64),
    End(RunEndState),
}

impl View for Phase {
    type V = PhaseState;

    open spec fn view(&self) -> PhaseState {
        match self {
            Phase::Begin => PhaseState::Begin,
            Phase::Connect => PhaseState::Connect,
            Phase::Retry => PhaseState::Retry,
            Phase::Wait(until) => PhaseState::Wait(*until),
            Phase::End(end) => PhaseState::End(end@),
        }
    }
}

/// One run of a client.
#[derive(Debug)]
pub struct Run {
    pub events: Events,
    pub queue: VecDeque<ClientEvent>,
    pub phase: Phase,
    pub reconnect: bool,
    pub reconnect_delay: u64,
    /// Whether the host has a queue of commands.
    pub takes_commands: bool,
}

/// The meaning of a `Run`.
#[verifier::ext_equal]
pub struct RunState {
    pub events: EventsState,
    pub queue: Seq<EventState>,
    pub phase: PhaseState,
    pub reconnect: bool,
    pub reconnect_delay: u64,
    pub takes_commands: bool,
}

pub open spec fn queued(events: Seq<ClientEvent>) -> Seq<EventState> {
    events.map_values(|e: ClientEvent| e@)
}

impl View for Run {
    type V = RunState;

    open spec fn view(&self) -> RunState {
        RunState {
            events: self.events@,
            queue: queued(self.queue@),
            phase: self.phase@,
            reconnect: self.reconnect,
            reconnect_delay: self.reconnect_delay,
            takes_commands: self.takes_commands,
        }
    }
}

impl RunState {
    /// A run of which nothing has happened.
    pub open spec fn initial(client: Client, options: RunOptions, takes_commands: bool) -> RunState {
        RunState {
            events: EventsState { session_id: Seq::empty(), zone: Seq::empty(), messages: 0 },
            queue: Seq::empty(),
            phase: PhaseState::Begin,
            reconnect: options.reconnect,
            reconnect_delay: client.config.reconnect_delay,
            takes_commands,
        }
    }

    /// Announce a state.
    pub open spec fn announced(self, state: ConnectionState, seconds: i64) -> RunState {
        RunState { queue: self.queue.push(self.events.status(state, 0, None, seconds)), ..self }
    }

    /// The start of an attempt under a new session id, unless the run is
    /// cancelled.
    pub open spec fn begun(self, id: u64, cancelled: bool, seconds: i64) -> RunState {
        if cancelled {
            RunState {
                phase: PhaseState::End(RunEndState::Stopped),
                ..self.announced(ConnectionState::Stopped, seconds)
            }
        } else {
            let fresh = RunState { events: EventsState::fresh(id), ..self };
            let told = fresh.announced(ConnectionState::Connecting, seconds);
            RunState {
                queue: told.queue.push(EventState::Progress(ConnectionStage::ConnectingLogin)),
                phase: PhaseState::Connect,
                ..told
            }
        }
    }

    /// Hand out the next event.
    pub open spec fn delivering(self) -> (RunState, RunAct) {
        (RunState { queue: self.queue.skip(1), ..self }, RunAct::Deliver(self.queue[0]))
    }

    /// What to do while an attempt is due at `until`.
    pub open spec fn waiting(
        self,
        until: u64,
        id: u64,
        cancelled: bool,
        now: u64,
        seconds: i64,
    ) -> (RunState, RunAct) {
        if now < until && !cancelled {
            (
                RunState { phase: PhaseState::Wait(until), ..self },
                RunAct::Sleep(
                    if until - now < 200_000_000 {
                        (until - now) as u64
                    } else {
                        200_000_000
                    },
                ),
            )
        } else {
            self.begun(id, cancelled, seconds).delivering()
        }
    }

    /// The next action of the host.
    pub open spec fn stepped(self, id: u64, cancelled: bool, now: u64, seconds: i64) -> (
        RunState,
        RunAct,
    ) {
        if self.queue.len() > 0 {
            self.delivering()
        } else {
            match self.phase {
                PhaseState::Begin => self.begun(id, cancelled, seconds).delivering(),
                PhaseState::Connect => (self, RunAct::Connect),
                PhaseState::Retry => if now + self.reconnect_delay > u64::MAX {
                    (
                        RunState { phase: PhaseState::End(RunEndState::ClockRange), ..self },
                        RunAct::Finish,
                    )
                } else {
                    self.waiting(
                        (now + self.reconnect_delay) as u64,
                        id,
                        cancelled,
                        now,
                        seconds,
                    )
                },
                PhaseState::Wait(until) => self.waiting(until, id, cancelled, now, seconds),
                PhaseState::End(_) => (self, RunAct::Finish),
            }
        }
    }

    /// The handler's answer to an event.
    pub open spec fn told(self, failure: Option<Seq<char>>) -> RunState {
        match failure {
            None => self,
            Some(message) => RunState {
                queue: Seq::empty(),
                phase: PhaseState::End(RunEndState::Delivery(message)),
                ..self
            },
        }
    }

    /// The end of an attempt.
    pub open spec fn after(self, end: AttemptState, cancelled: bool, seconds: i64) -> RunState {
        match end {
            AttemptState::Delivery(message) => RunState {
                phase: PhaseState::End(RunEndState::Delivery(message)),
                ..self
            },
            _ => if end is Completed || cancelled {
                RunState {
                    phase: PhaseState::End(RunEndState::Stopped),
                    ..self.announced(ConnectionState::Stopped, seconds)
                }
            } else {
                let gone = self.announced(ConnectionState::Disconnected, seconds);
                match end {
                    AttemptState::Login(e) => RunState {
                        phase: PhaseState::End(RunEndState::Login(e)),
                        ..gone
                    },
                    AttemptState::Failed(message) => if !self.reconnect {
                        RunState { phase: PhaseState::End(RunEndState::Failed(message)), ..gone }
                    } else {
                        RunState {
                            queue: gone.queue.push(
                                EventState::Reconnecting {
                                    error: message,
                                    delay_seconds: self.reconnect_delay / 1_000_000_000,
                                },
                            ),
                            phase: PhaseState::Retry,
                            ..gone
                        }
                    },
                    _ => gone,
                }
            },
        }
    }
}

/// The meaning of an `AttemptEnd`.
#[verifier::ext_equal]
pub enum AttemptState {
    Completed,
    Delivery(Seq<char>),
    Login(LoginError),
    Failed(Seq<char>),
}

impl View for AttemptEnd {
    type V = AttemptState;

    open spec fn view(&self) -> AttemptState {
        match self {
            AttemptEnd::Completed => AttemptState::Completed,
            AttemptEnd::Delivery(message) => AttemptState::Delivery(message@),
            AttemptEnd::Login(e) => AttemptState::Login(*e),
            AttemptEnd::Failed(message) => AttemptState::Failed(message@),
        }
    }
}

impl Client {
    /// Connect and deliver events until completion or cancellation.
    ///
    /// The host repeats `next` and does what it says. A confirmed credential
    /// rejection ends the run without reconnecting. A handler error ends the
    /// run, without reconnecting or invoking the handler again.
    pub fn run(&self, options: RunOptions) -> (run: Run)
        ensures
            run@ == RunState::initial(*self, options, false),
    {
        self.start(options, false)
    }

    /// Connect as `run` does and take commands from a host-owned queue. They are
    /// consumed only after zone admission and may remain queued while a
    /// reconnect is in progress.
    pub fn run_with_commands(&self, options: RunOptions) -> (run: Run)
        ensures
            run@ == RunState::initial(*self, options, true),
    {
        self.start(options, true)
    }

    fn start(&self, options: RunOptions, takes_commands: bool) -> (run: Run)
        ensures
            run@ == RunState::initial(*self, options, takes_commands),
    {
        let run = Run {
            events: Events::new(),
            queue: VecDeque::new(),
            phase: Phase::Begin,
            reconnect: options.reconnect,
            reconnect_delay: self.config.reconnect_delay,
            takes_commands,
        };
        assert(run@.queue =~= Seq::empty());
        run
    }
}

impl Run {
    fn enqueue(&mut self, event: ClientEvent)
        ensures
            final(self)@ == (RunState { queue: old(self)@.queue.push(event@), ..old(self)@ }),
    {
        self.queue.push_back(event);
        assert(self@.queue =~= old(self)@.queue.push(event@));
    }

    fn announce(&mut self, state: ConnectionState, seconds: i64)
        ensures
            final(self)@ == old(self)@.announced(state, seconds),
    {
        let event = self.events.status(state, 0, None, seconds);
        self.enqueue(event);
    }

    fn begin(&mut self, id: u64, cancelled: bool, seconds: i64)
        ensures
            final(self)@ == old(self)@.begun(id, cancelled, seconds),
    {
        if cancelled {
            self.announce(ConnectionState::Stopped, seconds);
            self.phase = Phase::End(RunEnd::Stopped);
        } else {
            self.events.reset_with(id);
            self.announce(ConnectionState::Connecting, seconds);
            self.enqueue(ClientEvent::Progress(ConnectionStage::ConnectingLogin));
            self.phase = Phase::Connect;
        }
    }

    /// Hand out the next event, where there is one.
    fn deliver(&mut self) -> (action: Option<RunAction>)
        ensures
            match action {
                Some(a) => old(self)@.queue.len() > 0 && old(self)@.delivering() == (
                    final(self)@,
                    a@,
                ),
                None => old(self)@.queue.len() == 0 && final(self)@ == old(self)@,
            },
    {
        match self.queue.pop_front() {
            Some(event) => {
                assert(self@.queue =~= old(self)@.queue.skip(1));
                Some(RunAction::Deliver(event))
            },
            None => None,
        }
    }

    fn wait(&mut self, until: u64, id: u64, cancelled: bool, now: u64, seconds: i64) -> (action:
        RunAction)
        ensures
            old(self)@.waiting(until, id, cancelled, now, seconds) == (final(self)@, action@),
    {
        if now < until && !cancelled {
            self.phase = Phase::Wait(until);
            let left: u64 = until - now;
            return RunAction::Sleep(
                if left < 200_000_000 {
                    left
                } else {
                    200_000_000
                },
            );
        }
        self.begin(id, cancelled, seconds);
        match self.deliver() {
            Some(action) => action,
            None => RunAction::Finish,
        }
    }

    /// The next action of the host, with a given id for a new session.
    pub fn next_with(&mut self, id: u64, cancelled: bool, now: u64, seconds: i64) -> (action:
        RunAction)
        ensures
            old(self)@.stepped(id, cancelled, now, seconds) == (final(self)@, action@),
    {
        if let Some(action) = self.deliver() {
            return action;
        }
        match &self.phase {
            Phase::Begin => {},
            Phase::Connect => {
                return RunAction::Connect;
            },
            Phase::Retry => {
                let delay: u64 = self.reconnect_delay;
                if delay > u64::MAX - now {
                    self.phase = Phase::End(RunEnd::ClockRange);
                    return RunAction::Finish;
                }
                return self.wait(now + delay, id, cancelled, now, seconds);
            },
            Phase::Wait(until) => {
                let until: u64 = *until;
                return self.wait(until, id, cancelled, now, seconds);
            },
            Phase::End(_) => {
                return RunAction::Finish;
            },
        }
        self.begin(id, cancelled, seconds);
        match self.deliver() {
            Some(action) => action,
            None => RunAction::Finish,
        }
    }

    /// The next action of the host. A new session gets a fresh random id.
    pub fn next(&mut self, cancelled: bool, now: u64, seconds: i64) -> (action: RunAction)
        ensures
            exists|id: u64| #[trigger]
                old(self)@.stepped(id, cancelled, now, seconds) == (final(self)@, action@),
    {
        let id = outside::random_u64();
        self.next_with(id, cancelled, now, seconds)
    }

    /// Take the handler's answer to an event, with its error if it failed.
    pub fn delivered(&mut self, failure: Option<String>)
        ensures
            final(self)@ == old(self)@.told(
                match failure {
                    Some(message) => Some(message@),
                    None => None,
                },
            ),
    {
        if let Some(message) = failure {
            self.queue.clear();
            self.phase = Phase::End(RunEnd::Delivery(message));
            assert(self@.queue =~= Seq::empty());
        }
    }

    /// Take the end of an attempt.
    pub fn ended(&mut self, end: AttemptEnd, cancelled: bool, seconds: i64)
        ensures
            final(self)@ == old(self)@.after(end@, cancelled, seconds),
    {
        match end {
            AttemptEnd::Delivery(message) => {
                self.phase = Phase::End(RunEnd::Delivery(message));
            },
            AttemptEnd::Completed => {
                self.announce(ConnectionState::Stopped, seconds);
                self.phase = Phase::End(RunEnd::Stopped);
            },
            AttemptEnd::Login(e) => {
                if cancelled {
                    self.announce(ConnectionState::Stopped, seconds);
                    self.phase = Phase::End(RunEnd::Stopped);
                } else {
                    self.announce(ConnectionState::Disconnected, seconds);
                    self.phase = Phase::End(RunEnd::Login(e));
                }
            },
            AttemptEnd::Failed(message) => {
                if cancelled {
                    self.announce(ConnectionState::Stopped, seconds);
                    self.phase = Phase::End(RunEnd::Stopped);
                } else {
                    self.announce(ConnectionState::Disconnected, seconds);
                    if self.reconnect {
                        let delay_seconds: u64 = self.reconnect_delay / 1_000_000_000;
                        self.enqueue(ClientEvent::Reconnecting { error: message, delay_seconds });
                        self.phase = Phase::Retry;
                    } else {
                        self.phase = Phase::End(RunEnd::Failed(message));
                    }
                }
            },
        }
    }
}

/// Whether a run is over: it delivers nothing more and makes no attempt.
pub open spec fn over(s: RunState, end: RunEndState) -> bool {
    s.queue.len() == 0 && s.phase == PhaseState::End(end)
}

/// A run that is over stays over: its only action is to finish.
pub proof fn law_ended_run_stays_ended(
    s: RunState,
    end: RunEndState,
    id: u64,
    cancelled: bool,
    now: u64,
    seconds: i64,
)
    requires
        over(s, end),
    ensures
        s.stepped(id, cancelled, now, seconds) == (s, RunAct::Finish),
{
}

/// A failure of the event handler ends the run with that failure, whether it
/// comes between attempts or during one: there is no retry, and the handler is
/// not called again.
pub proof fn law_handler_failure_ends_the_run(
    s: RunState,
    message: Seq<char>,
    cancelled: bool,
    seconds: i64,
)
    ensures
        over(s.told(Some(message)), RunEndState::Delivery(message)),
        s.queue.len() == 0 ==> over(
            s.after(AttemptState::Delivery(message), cancelled, seconds),
            RunEndState::Delivery(message),
        ),
{
}

/// Rejected credentials end the run, whatever the options: what is delivered is
/// the disconnected state, and no attempt follows.
pub proof fn law_rejected_credentials_never_retry(
    s: RunState,
    e: LoginError,
    seconds: i64,
    id: u64,
    cancelled: bool,
    now: u64,
    later: i64,
)
    requires
        s.queue.len() == 0,
    ensures
        ({
            let gone = s.after(AttemptState::Login(e), false, seconds);
            let (next, act) = gone.stepped(id, cancelled, now, later);
            &&& act == RunAct::Deliver(
                s.events.status(ConnectionState::Disconnected, 0, None, seconds),
            )
            &&& over(next, RunEndState::Login(e))
        }),
{
    let gone = s.after(AttemptState::Login(e), false, seconds);
    assert(gone.queue.skip(1) =~= Seq::empty());
}

/// A run that is cancelled before it starts delivers the stopped state and
/// finishes, without an attempt.
pub proof fn law_cancelled_run_never_connects(
    client: Client,
    options: RunOptions,
    commands: bool,
    id: u64,
    now: u64,
    seconds: i64,
)
    ensures
        ({
            let s = RunState::initial(client, options, commands);
            let (next, act) = s.stepped(id, true, now, seconds);
            &&& act == RunAct::Deliver(
                s.events.status(ConnectionState::Stopped, 0, None, seconds),
            )
            &&& over(next, RunEndState::Stopped)
        }),
{
    let s = RunState::initial(client, options, commands);
    let begun = s.begun(id, true, seconds);
    assert(begun.queue.skip(1) =~= Seq::empty());
}

/// Without reconnecting, the failure of an attempt is the end of the run; with
/// it, another attempt follows after the delay, unless the run is cancelled.
pub proof fn law_failures_retry_only_when_asked(
    s: RunState,
    message: Seq<char>,
    seconds: i64,
    id: u64,
    cancelled: bool,
    now: u64,
)
    requires
        s.queue.len() == 0,
    ensures
        ({
            let gone = s.after(AttemptState::Failed(message), false, seconds);
            &&& !s.reconnect ==> gone.queue.len() == 1 && gone.phase == PhaseState::End(
                RunEndState::Failed(message),
            )
            &&& s.reconnect ==> gone.queue.len() == 2 && gone.phase == PhaseState::Retry
        }),
        ({
            let retry = RunState { phase: PhaseState::Retry, ..s };
            let (next, act) = retry.stepped(id, cancelled, now, seconds);
            &&& s.reconnect_delay > 0 && now + s.reconnect_delay <= u64::MAX && !cancelled ==> act
                is Sleep && next.phase == PhaseState::Wait((now + s.reconnect_delay) as u64)
            &&& now + s.reconnect_delay <= u64::MAX && cancelled ==> act == RunAct::Deliver(
                s.events.status(ConnectionState::Stopped, 0, None, seconds),
            ) && over(next, RunEndState::Stopped)
        }),
{
    let retry = RunState { phase: PhaseState::Retry, ..s };
    let begun = retry.begun(id, true, seconds);
    assert(begun.queue.skip(1) =~= Seq::empty());
}

/// A wait sleeps in short pieces, never past its end, and not at all once the
/// run is cancelled.
pub proof fn law_waits_are_short(
    s: RunState,
    until: u64,
    id: u64,
    cancelled: bool,
    now: u64,
    seconds: i64,
)
    requires
        s.queue.len() == 0,
        s.phase == PhaseState::Wait(until),
    ensures
        match s.stepped(id, cancelled, now, seconds).1 {
            RunAct::Sleep(nanos) => !cancelled && 0 < nanos <= 200_000_000 && now + nanos <= until,
            _ => cancelled || now >= until,
        },
{
}

} // verus!
