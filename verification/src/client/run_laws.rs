//! What a client tells, and how its attempts follow each other.

use super::run::{AttemptState, PhaseState, RunAct, RunEndState, RunState};
use super::step::{received_text, traffic_text, EventsState, NoticeState};
use super::{
    Client, ClientConfig, ConnectionStage, ConnectionState, EventState, LoginError,
    RecordEventState, RunOptions,
};
use crate::outside;
use crate::text;
use vstd::prelude::*;

verus! {

/// A session begins without a zone and without records, under its id in sixteen
/// hexadecimal digits.
pub proof fn law_sessions_begin(id: u64, high: Seq<u8>, low: Seq<u8>)
    requires
        high.len() == 4,
        low.len() == 4,
        id == 0x1_0000_0000 * (0x100_0000 * high[0] + 0x1_0000 * high[1] + 0x100 * high[2] + high[3])
            + 0x100_0000 * low[0] + 0x1_0000 * low[1] + 0x100 * low[2] + low[3],
    ensures
        EventsState::fresh(id) == (EventsState {
            session_id: outside::hex_of(high + low),
            zone: Seq::empty(),
            messages: 0,
        }),
{
    let a = 0x100_0000 * high[0] + 0x1_0000 * high[1] + 0x100 * high[2] + high[3];
    let b = 0x100_0000 * low[0] + 0x1_0000 * low[1] + 0x100 * low[2] + low[3];
    assert(id / 0x1_0000_0000 == a && id % 0x1_0000_0000 == b);
    lemma_four_bytes(a as u32, high);
    lemma_four_bytes(b as u32, low);
}

proof fn lemma_four_bytes(v: u32, s: Seq<u8>)
    requires
        s.len() == 4,
        v == 0x100_0000 * s[0] + 0x1_0000 * s[1] + 0x100 * s[2] + s[3],
    ensures
        crate::bytes::be32(v) == s,
{
    let (a, b, c) = (s[0] as int, s[1] as int, s[2] as int);
    assert(v / 0x100_0000 == a);
    assert(v / 0x1_0000 == 0x100 * a + b);
    assert(v / 256 == 0x1_0000 * a + 0x100 * b + c);
    assert(crate::bytes::be32(v) =~= s);
}

/// What is told of a packet ends with its opcode in hexadecimal and its length, and what
/// is told of a session with its packets and records.
pub proof fn law_texts_tell_their_numbers(
    heading: Seq<char>,
    opcode: u16,
    length: nat,
    packets: u64,
    messages: u64,
)
    ensures
        received_text(heading, opcode, length) == heading + (text::hex4(opcode) + (" ("@ + (
        text::decimal(length) + " bytes)"@))),
        traffic_text(heading, packets, messages) == heading + (text::decimal(packets as nat) + (
        " application packets, "@ + (text::decimal(messages as nat) + " communication records"@))),
{
    assert(received_text(heading, opcode, length) =~= heading + (text::hex4(opcode) + (" ("@ + (
    text::decimal(length) + " bytes)"@))));
    assert(traffic_text(heading, packets, messages) =~= heading + (text::decimal(packets as nat) + (
    " application packets, "@ + (text::decimal(messages as nat) + " communication records"@))));
}

/// A status says what the session is: its id, its zone and its records, at the time it is
/// told.
pub proof fn law_statuses_describe_the_session(
    events: EventsState,
    config: ClientConfig,
    state: ConnectionState,
    packets: u64,
    last_received_seconds: Option<u64>,
    seconds: i64,
    time: Seq<char>,
)
    ensures
        events.noticed(
            config,
            NoticeState::Status { state, packets, last_received_seconds },
            seconds,
            time,
        ) == (
            events,
            Some(
                EventState::Status {
                    state,
                    timestamp: seconds,
                    session_id: events.session_id,
                    zone: events.zone,
                    messages: events.messages,
                    packets,
                    last_received_seconds,
                },
            ),
        ),
{
}

/// Progress and diagnostics are told as they are, traffic with the records so far, and a
/// zone is only kept.
pub proof fn law_notices_are_told(
    events: EventsState,
    config: ClientConfig,
    stage: ConnectionStage,
    message: Seq<char>,
    count: u64,
    seconds: i64,
    time: Seq<char>,
)
    ensures
        events.noticed(config, NoticeState::Progress(stage), seconds, time) == (
            events,
            Some(EventState::Progress(stage)),
        ),
        events.noticed(config, NoticeState::Diagnostic(message), seconds, time) == (
            events,
            Some(EventState::Diagnostic(message)),
        ),
        events.noticed(config, NoticeState::Traffic { heading: message, count }, seconds, time) == (
            events,
            Some(EventState::Diagnostic(traffic_text(message, count, events.messages))),
        ),
        events.noticed(config, NoticeState::Zone(message), seconds, time) == (
            EventsState { zone: message, ..events },
            None::<EventState>,
        ),
{
}

/// A record of a channel that is kept, and of what could not be decoded, is told with its
/// place and the next number. One of another channel is not, and uses up no number.
pub proof fn law_records_are_told(
    events: EventsState,
    config: ClientConfig,
    zone: Seq<char>,
    event: RecordEventState,
    seconds: i64,
    time: Seq<char>,
)
    requires
        events.messages < u64::MAX,
    ensures
        ({
            let kept = event matches RecordEventState::Chat(chat) ==> config.keeps(
                chat.channel_name,
            );
            let number = (events.messages + 1) as u64;
            events.noticed(config, NoticeState::Record { zone, event }, seconds, time) == if kept {
                (
                    EventsState { messages: number, ..events },
                    Some(
                        EventState::Record {
                            time,
                            server: config.server@,
                            character: config.character@,
                            zone,
                            session_id: events.session_id,
                            message_id: number,
                            event,
                        },
                    ),
                )
            } else {
                (events, None::<EventState>)
            }
        }),
{
}

/// A run begins with nothing told, with the options and the delay of its client.
pub proof fn law_runs_begin(client: Client, options: RunOptions, takes_commands: bool)
    ensures
        ({
            let run = RunState::initial(client, options, takes_commands);
            &&& run.queue.len() == 0
            &&& run.phase == PhaseState::Begin
            &&& run.reconnect == options.reconnect
            &&& run.reconnect_delay == client.config.reconnect_delay
            &&& run.takes_commands == takes_commands
            &&& run.events.session_id.len() == 0 && run.events.zone.len() == 0
                && run.events.messages == 0
        }),
{
}

/// What waits is delivered first, one event at a time and in order.
pub proof fn law_events_are_delivered_in_order(
    run: RunState,
    id: u64,
    cancelled: bool,
    now: u64,
    seconds: i64,
)
    requires
        run.queue.len() > 0,
    ensures
        ({
            let (next, act) = run.stepped(id, cancelled, now, seconds);
            &&& act matches RunAct::Deliver(event) && run.queue == seq![event] + next.queue
            &&& next == (RunState { queue: next.queue, ..run })
        }),
{
    assert(run.queue =~= seq![run.queue[0]] + run.queue.skip(1));
}

/// An attempt begins with a session of its own: it is told that it connects, and then it
/// does. A run that is cancelled is told to have stopped instead, and ends.
pub proof fn law_attempts_begin(
    run: RunState,
    id: u64,
    cancelled: bool,
    now: u64,
    seconds: i64,
)
    requires
        run.queue.len() == 0,
        run.phase is Begin,
    ensures
        ({
            let (next, act) = run.stepped(id, cancelled, now, seconds);
            let fresh = EventsState::fresh(id);
            let status = |events: EventsState, state: ConnectionState|
                EventState::Status {
                    state,
                    timestamp: seconds,
                    session_id: events.session_id,
                    zone: events.zone,
                    messages: events.messages,
                    packets: 0,
                    last_received_seconds: None,
                };
            &&& cancelled ==> act == RunAct::Deliver(status(run.events, ConnectionState::Stopped))
                && next == (RunState { phase: PhaseState::End(RunEndState::Stopped), ..run })
            &&& !cancelled ==> act == RunAct::Deliver(status(fresh, ConnectionState::Connecting))
                && next == (RunState {
                events: fresh,
                queue: seq![EventState::Progress(ConnectionStage::ConnectingLogin)],
                phase: PhaseState::Connect,
                ..run
            })
        }),
{
    let (next, act) = run.stepped(id, cancelled, now, seconds);
    if cancelled {
        assert(next.queue =~= run.queue);
    } else {
        assert(next.queue =~= seq![EventState::Progress(ConnectionStage::ConnectingLogin)]);
    }
}

/// A run that has told all connects, waits or finishes, as its phase says. A wait begins
/// with the delay, sleeps in pieces of at most a fifth of a second up to its end, and
/// leads to the next attempt.
pub proof fn law_runs_go_by_their_phase(
    run: RunState,
    until: u64,
    id: u64,
    cancelled: bool,
    now: u64,
    seconds: i64,
)
    requires
        run.queue.len() == 0,
    ensures
        ({
            let (next, act) = run.stepped(id, cancelled, now, seconds);
            let end = now + run.reconnect_delay;
            let again = RunState { phase: PhaseState::Begin, ..run }.stepped(
                id,
                cancelled,
                now,
                seconds,
            );
            &&& run.phase is Connect ==> next == run && act is Connect
            &&& run.phase is End ==> next == run && act is Finish
            &&& run.phase is Retry && end > u64::MAX ==> act is Finish && next == (RunState {
                phase: PhaseState::End(RunEndState::ClockRange),
                ..run
            })
            &&& run.phase is Retry && end <= u64::MAX ==> (next, act) == (RunState {
                phase: PhaseState::Wait(end as u64),
                ..run
            }).stepped(id, cancelled, now, seconds)
            &&& run.phase == PhaseState::Wait(until) && now < until && !cancelled ==> {
                &&& next == run
                &&& act matches RunAct::Sleep(nanos) && nanos <= 200_000_000 && (nanos == until - now
                    || nanos == 200_000_000 && until - now > 200_000_000)
            }
            &&& run.phase == PhaseState::Wait(until) && (now >= until || cancelled) ==> (next, act)
                == again
        }),
{
}

/// A failure to deliver ends the run, and what was to be delivered is dropped.
pub proof fn law_undelivered_events_end_the_run(run: RunState, message: Seq<char>)
    ensures
        run.told(None) == run,
        run.told(Some(message)) == (RunState {
            queue: Seq::empty(),
            phase: PhaseState::End(RunEndState::Delivery(message)),
            ..run
        }),
{
}

/// What follows an attempt. A completed one, and any other of a cancelled run, stops it;
/// rejected credentials end it; a failure ends it or is tried again after the delay, as
/// the options say. Each is told by its status.
pub proof fn law_attempts_end(
    run: RunState,
    message: Seq<char>,
    error: LoginError,
    cancelled: bool,
    seconds: i64,
)
    ensures
        ({
            let status = |state: ConnectionState|
                EventState::Status {
                    state,
                    timestamp: seconds,
                    session_id: run.events.session_id,
                    zone: run.events.zone,
                    messages: run.events.messages,
                    packets: 0,
                    last_received_seconds: None,
                };
            let stopped = RunState {
                queue: run.queue.push(status(ConnectionState::Stopped)),
                phase: PhaseState::End(RunEndState::Stopped),
                ..run
            };
            let gone = run.queue.push(status(ConnectionState::Disconnected));
            &&& run.after(AttemptState::Completed, cancelled, seconds) == stopped
            &&& run.after(AttemptState::Delivery(message), cancelled, seconds) == (RunState {
                phase: PhaseState::End(RunEndState::Delivery(message)),
                ..run
            })
            &&& cancelled ==> run.after(AttemptState::Login(error), cancelled, seconds) == stopped
            &&& cancelled ==> run.after(AttemptState::Failed(message), cancelled, seconds) == stopped
            &&& !cancelled ==> run.after(AttemptState::Login(error), cancelled, seconds) == (
            RunState { queue: gone, phase: PhaseState::End(RunEndState::Login(error)), ..run })
            &&& !cancelled && !run.reconnect ==> run.after(
                AttemptState::Failed(message),
                cancelled,
                seconds,
            ) == (RunState {
                queue: gone,
                phase: PhaseState::End(RunEndState::Failed(message)),
                ..run
            })
            &&& !cancelled && run.reconnect ==> run.after(
                AttemptState::Failed(message),
                cancelled,
                seconds,
            ) == (RunState {
                queue: gone.push(
                    EventState::Reconnecting {
                        error: message,
                        delay_seconds: run.reconnect_delay / 1_000_000_000,
                    },
                ),
                phase: PhaseState::Retry,
                ..run
            })
        }),
{
}

/// How a run ended is told with the reason that ended it, and not at all where it was
/// stopped.
pub proof fn law_ends_tell_their_reason(message: Seq<char>, error: LoginError)
    ensures
        RunEndState::Stopped.text() is None,
        RunEndState::Failed(message).text() == Some(message),
        RunEndState::Delivery(message).text() == Some("deliver client event: "@ + message),
        RunEndState::Login(error).text() == Some("Login account or password was rejected"@),
        RunEndState::ClockRange.text() == Some("reconnect delay exceeds clock range"@),
{
}

} // verus!
