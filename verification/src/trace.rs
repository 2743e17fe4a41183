//! Execution trace: an ordered, append-only record of everything observed
//! during one contract invocation. Once finalized, a trace is immutable:
//! every further mutation attempt fails with `AlreadyFinalized`.

use vstd::prelude::*;

use crate::state::SimulatorError;

verus! {

/// Final outcome of one invocation.
#[derive(Debug, PartialEq, Eq)]
pub enum Outcome {
    Success(String),
    Failure(String),
}

/// One observed event, in chronological order of occurrence.
#[derive(Debug, PartialEq, Eq)]
pub enum Event {
    FunctionEntry { name: String, args: Option<String> },
    FunctionExit { name: String, return_value: Option<String> },
    StorageRead { key: String, value: Option<String> },
    StorageWrite { key: String, old_value: Option<String>, new_value: String },
    ResourceSample { cpu_used: u64, cpu_limit: u64, memory_used: u64, memory_limit: u64 },
    DiagnosticEvent { topic: String, payload: String },
}

pub enum OutcomeModel {
    Success(Seq<char>),
    Failure(Seq<char>),
}

pub enum EventModel {
    FunctionEntry { name: Seq<char>, args: Option<Seq<char>> },
    FunctionExit { name: Seq<char>, return_value: Option<Seq<char>> },
    StorageRead { key: Seq<char>, value: Option<Seq<char>> },
    StorageWrite { key: Seq<char>, old_value: Option<Seq<char>>, new_value: Seq<char> },
    ResourceSample { cpu_used: u64, cpu_limit: u64, memory_used: u64, memory_limit: u64 },
    DiagnosticEvent { topic: Seq<char>, payload: Seq<char> },
}

/// View of an optional string as an optional character sequence.
pub open spec fn opt_view(o: Option<String>) -> Option<Seq<char>> {
    match o {
        Option::Some(s) => Option::Some(s@),
        Option::None => Option::None,
    }
}

impl View for Outcome {
    type V = OutcomeModel;

    open spec fn view(&self) -> OutcomeModel {
        match self {
            Outcome::Success(v) => OutcomeModel::Success(v@),
            Outcome::Failure(r) => OutcomeModel::Failure(r@),
        }
    }
}

impl View for Event {
    type V = EventModel;

    open spec fn view(&self) -> EventModel {
        match self {
            Event::FunctionEntry { name, args } => EventModel::FunctionEntry {
                name: name@,
                args: opt_view(*args),
            },
            Event::FunctionExit { name, return_value } => EventModel::FunctionExit {
                name: name@,
                return_value: opt_view(*return_value),
            },
            Event::StorageRead { key, value } => EventModel::StorageRead {
                key: key@,
                value: opt_view(*value),
            },
            Event::StorageWrite { key, old_value, new_value } => EventModel::StorageWrite {
                key: key@,
                old_value: opt_view(*old_value),
                new_value: new_value@,
            },
            Event::ResourceSample { cpu_used, cpu_limit, memory_used, memory_limit } =>
                EventModel::ResourceSample {
                cpu_used: *cpu_used,
                cpu_limit: *cpu_limit,
                memory_used: *memory_used,
                memory_limit: *memory_limit,
            },
            Event::DiagnosticEvent { topic, payload } => EventModel::DiagnosticEvent {
                topic: topic@,
                payload: payload@,
            },
        }
    }
}

/// The structured record of one invocation: identifier, a back-reference to
/// the starting snapshot (by name, never an ownership link), the event
/// sequence, and — once finalized — the outcome.
#[derive(Debug)]
pub struct ExecutionTrace {
    pub invocation_id: String,
    pub snapshot_ref: String,
    events: Vec<Event>,
    finalized: bool,
    outcome: Option<Outcome>,
}

pub struct TraceModel {
    pub invocation_id: Seq<char>,
    pub snapshot_ref: Seq<char>,
    pub events: Seq<EventModel>,
    pub finalized: bool,
    pub outcome: Option<OutcomeModel>,
}

impl View for ExecutionTrace {
    type V = TraceModel;

    closed spec fn view(&self) -> TraceModel {
        TraceModel {
            invocation_id: self.invocation_id@,
            snapshot_ref: self.snapshot_ref@,
            events: self.events@.map_values(|e: Event| e@),
            finalized: self.finalized,
            outcome: match self.outcome {
                Option::Some(o) => Option::Some(o@),
                Option::None => Option::None,
            },
        }
    }
}

impl ExecutionTrace {
    /// The outcome is present exactly on a finalized trace.
    pub open spec fn wf(&self) -> bool {
        self@.finalized <==> self@.outcome is Some
    }

    /// An empty, unfinalized trace.
    pub fn new(invocation_id: String, snapshot_ref: String) -> (t: ExecutionTrace)
        ensures
            t@.invocation_id == invocation_id@,
            t@.snapshot_ref == snapshot_ref@,
            t@.events == Seq::<EventModel>::empty(),
            !t@.finalized,
            t@.outcome is None,
            t.wf(),
    {
        let t = ExecutionTrace {
            invocation_id,
            snapshot_ref,
            events: Vec::new(),
            finalized: false,
            outcome: None,
        };
        proof {
            assert(t@.events =~= Seq::<EventModel>::empty());
        }
        t
    }

    /// Appends one event. Fails with `AlreadyFinalized` — and leaves the
    /// trace unchanged, its event count included — once the trace has been
    /// finalized.
    pub fn record_event(&mut self, event: Event) -> (r: Result<(), SimulatorError>)
        ensures
            old(self)@.finalized ==> r == Err::<(), SimulatorError>(
                SimulatorError::AlreadyFinalized,
            ) && final(self)@ == old(self)@,
            !old(self)@.finalized ==> r == Ok::<(), SimulatorError>(()) && final(self)@ == (
            TraceModel { events: old(self)@.events.push(event@), ..old(self)@ }),
    {
        if self.finalized {
            return Err(SimulatorError::AlreadyFinalized);
        }
        self.events.push(event);
        proof {
            assert(self@.events =~= old(self)@.events.push(self.events@.last()@));
        }
        Ok(())
    }

    /// Fixes the event sequence and the outcome; the trace becomes
    /// immutable. Fails with `AlreadyFinalized` when called twice.
    pub fn finalize(&mut self, outcome: Outcome) -> (r: Result<(), SimulatorError>)
        ensures
            old(self)@.finalized ==> r == Err::<(), SimulatorError>(
                SimulatorError::AlreadyFinalized,
            ) && final(self)@ == old(self)@,
            !old(self)@.finalized ==> r == Ok::<(), SimulatorError>(()) && final(self)@ == (
            TraceModel {
                finalized: true,
                outcome: Option::Some(outcome@),
                ..old(self)@
            }) && final(self).wf(),
    {
        if self.finalized {
            return Err(SimulatorError::AlreadyFinalized);
        }
        self.finalized = true;
        self.outcome = Some(outcome);
        Ok(())
    }

    pub fn is_finalized(&self) -> (r: bool)
        ensures
            r == self@.finalized,
    {
        self.finalized
    }

    pub fn events_len(&self) -> (n: usize)
        ensures
            n == self@.events.len(),
    {
        self.events.len()
    }

    pub fn event_at(&self, i: usize) -> (e: &Event)
        requires
            i < self@.events.len(),
        ensures
            e@ == self@.events[i as int],
    {
        &self.events[i]
    }

    pub fn outcome(&self) -> (o: &Option<Outcome>)
        ensures
            match o {
                Option::Some(oc) => self@.outcome == Option::Some(oc@),
                Option::None => self@.outcome is None,
            },
    {
        &self.outcome
    }
}

} // verus!
