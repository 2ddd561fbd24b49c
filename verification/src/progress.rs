//! Following a transfer from its events.
//!
//! The events of a transfer arrive in order. Each one moves a small state
//! forward: the phase of the transfer, an overall counter over the items of
//! a collection, and a counter over the bytes of the item that is being
//! received. Nothing here draws or prints: the caller shows the state.
use vstd::prelude::*;
use vstd::string::*;

verus! {

/// A span of time: whole seconds and the nanoseconds beyond them.
#[derive(Clone, Copy, Debug, PartialEq, Eq)]
pub struct Elapsed {
    pub secs: u64,
    pub subsec_nanos: u32,
}

/// One moment of a transfer.
#[derive(Clone, Debug)]
pub enum TransferEvent {
    /// The connection stands.
    Connected,
    /// What is received is a collection of `item_count` items.
    CollectionDiscovered { item_count: u64 },
    /// The item `index` starts; it is `declared_size` bytes long.
    ItemStarted { index: u64, declared_size: u64 },
    /// `bytes_so_far` bytes of the item `index` are here.
    ItemProgress { index: u64, bytes_so_far: u64 },
    /// The item `index` is complete.
    ItemDone { index: u64 },
    /// Everything was received.
    TransferDone { total_bytes: u64, elapsed: Elapsed },
    /// The transfer was given up.
    Aborted { cause: String },
    /// An event of a kind that is not known here.
    Unknown,
}

/// Where a transfer stands.
#[derive(Clone, Copy, Debug, PartialEq, Eq)]
pub enum TransferPhase {
    Connecting,
    Requesting,
    /// The request is answered and it is open whether one item or a
    /// collection follows. No event leads here; a state in this phase is
    /// moved on as one in `Requesting` is.
    EnumeratingOrSingleItem,
    ReceivingCollection { index: u64, of: u64 },
    ReceivingSingleItem,
    Finished,
    Aborted,
}

/// The counter over the items of a collection.
#[derive(Clone, Copy, Debug, PartialEq, Eq)]
pub struct Overall {
    pub position: u64,
    pub length: u64,
}

/// The counter over the bytes of one item.
#[derive(Clone, Copy, Debug, PartialEq, Eq)]
pub struct ItemGauge {
    pub index: u64,
    pub position: u64,
    pub target: u64,
}

/// What is reported once at the end of a transfer.
#[derive(Clone, Copy, Debug, PartialEq, Eq)]
pub struct Summary {
    pub total_bytes: u64,
    pub elapsed: Elapsed,
    pub bytes_per_second: u64,
}

/// What is shown of a transfer.
#[derive(Clone, Copy, Debug, PartialEq, Eq)]
pub struct TransferState {
    pub phase: TransferPhase,
    /// The overall counter, once a collection was discovered.
    pub overall: Option<Overall>,
    /// The counter of the item that is being received, if one is.
    pub current: Option<ItemGauge>,
    /// The summary, once the transfer is finished.
    pub summary: Option<Summary>,
}

/// What one event did.
#[derive(Clone, Copy, Debug, PartialEq, Eq)]
pub enum Outcome {
    /// The state moved on.
    Updated,
    /// The transfer is finished, with this summary.
    Finished(Summary),
    /// The transfer was given up: the whole operation fails.
    Aborted,
    /// The event does not fit the state; the state is unchanged.
    ProtocolViolation,
    /// The event is of an unknown kind; the state is unchanged.
    Ignored,
}

/// The failure of a transfer that was given up.
#[derive(Clone, Debug)]
pub struct TransferAborted {
    pub cause: String,
}

/// The length of a span in nanoseconds.
pub open spec fn total_nanos(elapsed: Elapsed) -> int {
    elapsed.secs * 1_000_000_000 + elapsed.subsec_nanos
}

/// Bytes per second, rounded down and capped at the largest `u64`. Over no
/// time at all, no bytes are 0 bytes per second and any other count is the
/// largest `u64`.
pub open spec fn spec_throughput(total_bytes: u64, elapsed: Elapsed) -> u64 {
    let nanos = total_nanos(elapsed);
    if nanos == 0 {
        if total_bytes == 0 {
            0
        } else {
            u64::MAX
        }
    } else {
        let per_second = total_bytes * 1_000_000_000 / nanos;
        if per_second > u64::MAX {
            u64::MAX
        } else {
            per_second as u64
        }
    }
}

/// The summary of a finished transfer.
pub open spec fn spec_summary(total_bytes: u64, elapsed: Elapsed) -> Summary {
    Summary { total_bytes, elapsed, bytes_per_second: spec_throughput(total_bytes, elapsed) }
}

/// The state before any event.
pub open spec fn initial() -> TransferState {
    TransferState { phase: TransferPhase::Connecting, overall: None, current: None, summary: None }
}

/// Whether nothing can follow this state.
pub open spec fn is_terminal(s: TransferState) -> bool {
    s.phase is Finished || s.phase is Aborted
}

/// Whether the event names the item that is being received.
pub open spec fn names_current(s: TransferState, index: u64) -> bool {
    s.current is Some && s.current->Some_0.index == index
}

/// Whether the phase and the counters of a state agree.
pub open spec fn well_formed(s: TransferState) -> bool {
    &&& s.summary is Some <==> s.phase is Finished
    &&& match s.phase {
        TransferPhase::ReceivingCollection { index, of } => s.overall == Some(
            Overall { position: index, length: of },
        ),
        TransferPhase::ReceivingSingleItem => s.overall is None,
        TransferPhase::Connecting
        | TransferPhase::Requesting
        | TransferPhase::EnumeratingOrSingleItem => s.overall is None && s.current is None,
        TransferPhase::Finished => s.current is None && (s.overall is Some
            ==> s.overall->Some_0.position == s.overall->Some_0.length),
        TransferPhase::Aborted => s.current is None,
    }
}

/// The state after one event.
pub open spec fn step(s: TransferState, e: TransferEvent) -> TransferState {
    if is_terminal(s) {
        s
    } else {
        match e {
            TransferEvent::Connected => if s.phase is Connecting {
                TransferState { phase: TransferPhase::Requesting, ..s }
            } else {
                s
            },
            TransferEvent::CollectionDiscovered { item_count } => TransferState {
                phase: TransferPhase::ReceivingCollection { index: 0, of: item_count },
                overall: Some(Overall { position: 0, length: item_count }),
                ..s
            },
            TransferEvent::ItemStarted { index, declared_size } => {
                let current = Some(ItemGauge { index, position: 0, target: declared_size });
                match s.overall {
                    Some(o) => TransferState {
                        phase: TransferPhase::ReceivingCollection { index, of: o.length },
                        overall: Some(Overall { position: index, length: o.length }),
                        current,
                        ..s
                    },
                    None => TransferState {
                        phase: TransferPhase::ReceivingSingleItem,
                        current,
                        ..s
                    },
                }
            },
            TransferEvent::ItemProgress { index, bytes_so_far } => if names_current(s, index) {
                TransferState {
                    current: Some(
                        ItemGauge { position: bytes_so_far, ..s.current->Some_0 },
                    ),
                    ..s
                }
            } else {
                s
            },
            TransferEvent::ItemDone { index } => if names_current(s, index) {
                TransferState { current: None, ..s }
            } else {
                s
            },
            TransferEvent::TransferDone { total_bytes, elapsed } => TransferState {
                phase: TransferPhase::Finished,
                overall: match s.overall {
                    Some(o) => Some(Overall { position: o.length, length: o.length }),
                    None => None,
                },
                current: None,
                summary: Some(spec_summary(total_bytes, elapsed)),
            },
            TransferEvent::Aborted { cause } => TransferState {
                phase: TransferPhase::Aborted,
                current: None,
                ..s
            },
            TransferEvent::Unknown => s,
        }
    }
}

/// What one event is reported as.
pub open spec fn outcome(s: TransferState, e: TransferEvent) -> Outcome {
    if is_terminal(s) {
        Outcome::ProtocolViolation
    } else {
        match e {
            TransferEvent::Connected => if s.phase is Connecting {
                Outcome::Updated
            } else {
                Outcome::ProtocolViolation
            },
            TransferEvent::CollectionDiscovered { item_count } => Outcome::Updated,
            TransferEvent::ItemStarted { index, declared_size } => Outcome::Updated,
            TransferEvent::ItemProgress { index, bytes_so_far } => if names_current(s, index) {
                Outcome::Updated
            } else {
                Outcome::ProtocolViolation
            },
            TransferEvent::ItemDone { index } => if names_current(s, index) {
                Outcome::Updated
            } else {
                Outcome::ProtocolViolation
            },
            TransferEvent::TransferDone { total_bytes, elapsed } => Outcome::Finished(
                spec_summary(total_bytes, elapsed),
            ),
            TransferEvent::Aborted { cause } => Outcome::Aborted,
            TransferEvent::Unknown => Outcome::Ignored,
        }
    }
}

/// The state after the events, taken in order from the state `s`.
pub open spec fn run_from(s: TransferState, events: Seq<TransferEvent>) -> TransferState
    decreases events.len(),
{
    if events.len() == 0 {
        s
    } else {
        step(run_from(s, events.drop_last()), events.last())
    }
}

/// The state after the events of a transfer, taken in order.
pub open spec fn run(events: Seq<TransferEvent>) -> TransferState {
    run_from(initial(), events)
}

/// Bytes per second over a span of time.
pub fn throughput(total_bytes: u64, elapsed: Elapsed) -> (r: u64)
    ensures
        r == spec_throughput(total_bytes, elapsed),
{
    let nanos: u128 = (elapsed.secs as u128) * 1_000_000_000u128 + (elapsed.subsec_nanos as u128);
    if nanos == 0 {
        if total_bytes == 0 {
            0
        } else {
            u64::MAX
        }
    } else {
        let per_second: u128 = (total_bytes as u128) * 1_000_000_000u128 / nanos;
        if per_second > u64::MAX as u128 {
            u64::MAX
        } else {
            per_second as u64
        }
    }
}

/// The text that `indicatif::HumanBytes` shows for a count of bytes.
pub uninterp spec fn human_bytes_text(bytes: u64) -> Seq<char>;

/// The text that `indicatif::HumanDuration` shows for a span of so many
/// whole seconds and so many nanoseconds beyond them, where `usize` has 64
/// bits: the count that it prints goes through a `usize`.
pub uninterp spec fn human_duration_text(secs: u64, subsec_nanos: u32) -> Seq<char>;

/// Formats a count of bytes with `indicatif::HumanBytes`. The text depends
/// on the count alone; nothing more is claimed of it.
#[verifier::external_body]
fn human_bytes(bytes: u64) -> (text: String)
    ensures
        text@ == human_bytes_text(bytes),
{
    format!("{}", indicatif::HumanBytes(bytes))
}

/// Formats a span of time with `indicatif::HumanDuration`, in its plain
/// form. The text depends on the span alone; nothing more is claimed of it.
/// The nanoseconds stay below one second, so that building the span cannot
/// overflow.
#[verifier::external_body]
fn human_duration(secs: u64, subsec_nanos: u32) -> (text: String)
    requires
        subsec_nanos < 1_000_000_000,
    ensures
        text@ == human_duration_text(secs, subsec_nanos),
{
    format!("{}", indicatif::HumanDuration(std::time::Duration::new(secs, subsec_nanos)))
}

/// The whole seconds of a span, with the seconds that its nanoseconds hold
/// carried over, capped at the largest `u64`.
pub open spec fn whole_secs(elapsed: Elapsed) -> u64 {
    let secs = elapsed.secs + elapsed.subsec_nanos / 1_000_000_000;
    if secs > u64::MAX {
        u64::MAX
    } else {
        secs as u64
    }
}

/// The nanoseconds of a span beyond its whole seconds.
pub open spec fn rest_nanos(elapsed: Elapsed) -> u32 {
    (elapsed.subsec_nanos % 1_000_000_000) as u32
}

/// The line that sums a transfer up, from the three texts that it holds.
pub open spec fn summary_text(total: Seq<char>, time: Seq<char>, rate: Seq<char>) -> Seq<char> {
    "Transferred "@ + total + " in "@ + time + ", "@ + rate + "/s"@
}

/// The line that sums a transfer up.
pub open spec fn spec_summary_line(summary: Summary) -> Seq<char> {
    summary_text(
        human_bytes_text(summary.total_bytes),
        human_duration_text(whole_secs(summary.elapsed), rest_nanos(summary.elapsed)),
        human_bytes_text(summary.bytes_per_second),
    )
}

impl Elapsed {
    /// The same span with less than a second's worth of nanoseconds: the
    /// whole seconds among them are carried over, up to the largest `u64`.
    pub fn normalized(self) -> (r: Elapsed)
        ensures
            r.secs == whole_secs(self),
            r.subsec_nanos == rest_nanos(self),
            r.subsec_nanos < 1_000_000_000,
    {
        let carry: u64 = (self.subsec_nanos / 1_000_000_000) as u64;
        let secs: u64 = if self.secs > u64::MAX - carry {
            u64::MAX
        } else {
            self.secs + carry
        };
        Elapsed { secs, subsec_nanos: self.subsec_nanos % 1_000_000_000 }
    }
}

/// Sets the three texts into the line that sums a transfer up.
pub fn compose_summary(total: &str, time: &str, rate: &str) -> (line: String)
    ensures
        line@ == summary_text(total@, time@, rate@),
{
    let mut line = String::new();
    line.append("Transferred ");
    line.append(total);
    line.append(" in ");
    line.append(time);
    line.append(", ");
    line.append(rate);
    line.append("/s");
    assert(line@ =~= summary_text(total@, time@, rate@));
    line
}

/// The line that sums a transfer up: the bytes, the time they took and the
/// bytes per second, each in its short form for a reader.
pub fn summary_line(summary: &Summary) -> (line: String)
    ensures
        line@ == spec_summary_line(*summary),
{
    let elapsed = summary.elapsed.normalized();
    let total = human_bytes(summary.total_bytes);
    let time = human_duration(elapsed.secs, elapsed.subsec_nanos);
    let rate = human_bytes(summary.bytes_per_second);
    compose_summary(total.as_str(), time.as_str(), rate.as_str())
}

impl TransferState {
    /// The state before any event.
    pub fn new() -> (s: TransferState)
        ensures
            s == initial(),
            well_formed(s),
    {
        TransferState {
            phase: TransferPhase::Connecting,
            overall: None,
            current: None,
            summary: None,
        }
    }

    /// Whether nothing can follow this state.
    pub fn is_terminal(&self) -> (r: bool)
        ensures
            r == is_terminal(*self),
    {
        match self.phase {
            TransferPhase::Finished => true,
            TransferPhase::Aborted => true,
            _ => false,
        }
    }

    /// The position of the overall counter, if a collection was discovered.
    pub fn overall_position(&self) -> (r: Option<u64>)
        ensures
            r == match self.overall {
                Some(o) => Some(o.position),
                None => None::<u64>,
            },
    {
        match self.overall {
            Some(o) => Some(o.position),
            None => None,
        }
    }

    /// Whether the event names the item that is being received.
    fn names_current(&self, index: u64) -> (r: bool)
        ensures
            r == names_current(*self, index),
    {
        match self.current {
            Some(g) => g.index == index,
            None => false,
        }
    }

    /// Moves the state on by one event and says what the event did.
    ///
    /// After `Finished` or `Aborted`, and on an event that does not fit, the
    /// state stays as it is and the event is reported as a violation.
    pub fn advance(self, event: &TransferEvent) -> (r: (TransferState, Outcome))
        ensures
            r.0 == step(self, *event),
            r.1 == outcome(self, *event),
    {
        if self.is_terminal() {
            return (self, Outcome::ProtocolViolation);
        }
        match event {
            TransferEvent::Connected => {
                match self.phase {
                    TransferPhase::Connecting => (
                        TransferState {
                            phase: TransferPhase::Requesting,
                            overall: self.overall,
                            current: self.current,
                            summary: self.summary,
                        },
                        Outcome::Updated,
                    ),
                    _ => (self, Outcome::ProtocolViolation),
                }
            },
            TransferEvent::CollectionDiscovered { item_count } => (
                TransferState {
                    phase: TransferPhase::ReceivingCollection { index: 0, of: *item_count },
                    overall: Some(Overall { position: 0, length: *item_count }),
                    current: self.current,
                    summary: self.summary,
                },
                Outcome::Updated,
            ),
            TransferEvent::ItemStarted { index, declared_size } => {
                let current = Some(
                    ItemGauge { index: *index, position: 0, target: *declared_size },
                );
                match self.overall {
                    Some(o) => (
                        TransferState {
                            phase: TransferPhase::ReceivingCollection {
                                index: *index,
                                of: o.length,
                            },
                            overall: Some(Overall { position: *index, length: o.length }),
                            current,
                            summary: self.summary,
                        },
                        Outcome::Updated,
                    ),
                    None => (
                        TransferState {
                            phase: TransferPhase::ReceivingSingleItem,
                            overall: self.overall,
                            current,
                            summary: self.summary,
                        },
                        Outcome::Updated,
                    ),
                }
            },
            TransferEvent::ItemProgress { index, bytes_so_far } => {
                match self.current {
                    Some(g) => {
                        if g.index == *index {
                            (
                                TransferState {
                                    phase: self.phase,
                                    overall: self.overall,
                                    current: Some(
                                        ItemGauge {
                                            index: g.index,
                                            position: *bytes_so_far,
                                            target: g.target,
                                        },
                                    ),
                                    summary: self.summary,
                                },
                                Outcome::Updated,
                            )
                        } else {
                            (self, Outcome::ProtocolViolation)
                        }
                    },
                    None => (self, Outcome::ProtocolViolation),
                }
            },
            TransferEvent::ItemDone { index } => {
                if self.names_current(*index) {
                    (
                        TransferState {
                            phase: self.phase,
                            overall: self.overall,
                            current: None,
                            summary: self.summary,
                        },
                        Outcome::Updated,
                    )
                } else {
                    (self, Outcome::ProtocolViolation)
                }
            },
            TransferEvent::TransferDone { total_bytes, elapsed } => {
                let summary = Summary {
                    total_bytes: *total_bytes,
                    elapsed: *elapsed,
                    bytes_per_second: throughput(*total_bytes, *elapsed),
                };
                let overall = match self.overall {
                    Some(o) => Some(Overall { position: o.length, length: o.length }),
                    None => None,
                };
                (
                    TransferState {
                        phase: TransferPhase::Finished,
                        overall,
                        current: None,
                        summary: Some(summary),
                    },
                    Outcome::Finished(summary),
                )
            },
            TransferEvent::Aborted { cause } => (
                TransferState {
                    phase: TransferPhase::Aborted,
                    overall: self.overall,
                    current: None,
                    summary: self.summary,
                },
                Outcome::Aborted,
            ),
            TransferEvent::Unknown => (self, Outcome::Ignored),
        }
    }
}

/// The states that a transfer goes through: the state before any event,
/// then the state after each event, in order.
pub fn trace(events: &Vec<TransferEvent>) -> (states: Vec<TransferState>)
    ensures
        states@.len() == events@.len() + 1,
        forall|i: int| 0 <= i <= events@.len() ==> states@[i] == run(events@.take(i)),
{
    let mut states: Vec<TransferState> = Vec::new();
    let mut state = TransferState::new();
    let mut i: usize = 0;
    assert(events@.take(0) =~= Seq::<TransferEvent>::empty());
    states.push(state);
    while i < events.len()
        invariant
            i <= events.len(),
            states@.len() == i + 1,
            state == run(events@.take(i as int)),
            forall|j: int| 0 <= j <= i ==> states@[j] == run(events@.take(j)),
        decreases events.len() - i,
    {
        proof {
            assert(events@.take(i + 1).drop_last() =~= events@.take(i as int));
        }
        let moved = state.advance(&events[i]);
        state = moved.0;
        states.push(state);
        i = i + 1;
    }
    states
}

/// Follows a transfer to its end: the last state, or the failure where the
/// transfer was given up.
///
/// The failure carries the cause of the one `Aborted` event that reached a
/// state which was not yet terminal.
pub fn follow(events: &Vec<TransferEvent>) -> (r: Result<TransferState, TransferAborted>)
    ensures
        match r {
            Ok(s) => s == run(events@) && !(s.phase is Aborted),
            Err(a) => run(events@).phase is Aborted && exists|k: int|
                0 <= k < events@.len() && !is_terminal(run(events@.take(k)))
                    && (#[trigger] events@[k]) is Aborted && events@[k]->cause@ == a.cause@,
        },
{
    let mut state = TransferState::new();
    let mut i: usize = 0;
    assert(events@.take(0) =~= Seq::<TransferEvent>::empty());
    while i < events.len()
        invariant
            i <= events.len(),
            state == run(events@.take(i as int)),
            !(state.phase is Aborted),
        decreases events.len() - i,
    {
        proof {
            assert(events@.take(i + 1).drop_last() =~= events@.take(i as int));
        }
        let moved = state.advance(&events[i]);
        match moved.1 {
            Outcome::Aborted => {
                match &events[i] {
                    TransferEvent::Aborted { cause } => {
                        proof {
                            lemma_terminal_absorbs(moved.0, events@.subrange(
                                i + 1,
                                events@.len() as int,
                            ));
                            lemma_run_parts(initial(), events@, i + 1);
                        }
                        return Err(TransferAborted { cause: cause.clone() });
                    },
                    _ => {},
                }
            },
            _ => {},
        }
        state = moved.0;
        i = i + 1;
    }
    assert(events@.take(events@.len() as int) =~= events@);
    Ok(state)
}

/// Running over a sequence is running over its first `k` events and then
/// over the rest.
pub proof fn lemma_run_parts(s: TransferState, events: Seq<TransferEvent>, k: int)
    requires
        0 <= k <= events.len(),
    ensures
        run_from(s, events) == run_from(
            run_from(s, events.take(k)),
            events.subrange(k, events.len() as int),
        ),
    decreases events.len(),
{
    let rest = events.subrange(k, events.len() as int);
    if k == events.len() {
        assert(events.take(k) =~= events);
    } else {
        lemma_run_parts(s, events.drop_last(), k);
        assert(events.drop_last().take(k) =~= events.take(k));
        assert(events.drop_last().subrange(k, events.len() - 1) =~= rest.drop_last());
        assert(rest.last() == events.last());
    }
}

/// Nothing moves a state that is finished or aborted, whatever follows.
pub proof fn lemma_terminal_absorbs(s: TransferState, events: Seq<TransferEvent>)
    requires
        is_terminal(s),
    ensures
        run_from(s, events) == s,
    decreases events.len(),
{
    if events.len() > 0 {
        lemma_terminal_absorbs(s, events.drop_last());
    }
}

/// An `Aborted` event that reaches a transfer which is not yet finished
/// ends it: the phase is `Aborted`, the event is reported as the abort, and
/// no later event changes the state.
pub proof fn lemma_abort_is_final(
    s: TransferState,
    abort: TransferEvent,
    later: Seq<TransferEvent>,
)
    requires
        abort is Aborted,
        !is_terminal(s),
    ensures
        step(s, abort).phase is Aborted,
        outcome(s, abort) == Outcome::Aborted,
        run_from(step(s, abort), later) == step(s, abort),
{
    lemma_terminal_absorbs(step(s, abort), later);
}

/// Every event keeps the phase and the counters in agreement.
pub proof fn lemma_step_keeps_well_formed(s: TransferState, e: TransferEvent)
    requires
        well_formed(s),
    ensures
        well_formed(step(s, e)),
{
}

/// The state after any events of a transfer is well formed.
pub proof fn lemma_run_well_formed(events: Seq<TransferEvent>)
    ensures
        well_formed(run(events)),
    decreases events.len(),
{
    if events.len() > 0 {
        lemma_run_well_formed(events.drop_last());
        lemma_step_keeps_well_formed(run(events.drop_last()), events.last());
    }
}

} // verus!
