//! One inference request in flight: identity, owning model session,
//! origin, absolute deadline, input/output tensor payloads, and the causal
//! timestamp trail carried from the request's origin.

use crate::common::ModelSession;
use crate::common::NodeId;
use crate::common::QueryId;
use crate::common::TimestampNs;
use vstd::prelude::*;

verus! {

/// One hop of a causal trail: where a query was handled, and when.
#[derive(Clone, Copy, Debug, PartialEq, Eq, Structural)]
pub struct ClockEntry {
    pub location: NodeId,
    pub timestamp: TimestampNs,
}

/// The causal timestamp trail of a query: an ordered, append-only log of
/// (hop, timestamp) pairs. This node only appends entries of its own and
/// forwards what upstream hops recorded, unchanged and in order.
#[derive(Debug)]
pub struct PunchClock {
    pub entries: Vec<ClockEntry>,
}

impl View for PunchClock {
    type V = Seq<ClockEntry>;

    open spec fn view(&self) -> Seq<ClockEntry> {
        self.entries@
    }
}

impl PunchClock {
    /// An empty trail, for a query born on this node.
    pub fn new() -> (r: PunchClock)
        ensures
            r@ == Seq::<ClockEntry>::empty(),
    {
        PunchClock { entries: Vec::new() }
    }

    /// Appends one hop record; everything already recorded stays in place.
    pub fn punch(&mut self, location: NodeId, timestamp: TimestampNs)
        ensures
            final(self)@ == old(self)@.push(ClockEntry { location, timestamp }),
    {
        self.entries.push(ClockEntry { location, timestamp });
    }

    /// How many hops are recorded.
    pub fn len(&self) -> (r: usize)
        ensures
            r == self@.len(),
    {
        self.entries.len()
    }
}

/// One inference request: consumed once its result is emitted or its
/// deadline has passed. The deadline is absolute; comparing it across
/// nodes assumes synchronized clocks (a documented limitation, not
/// validated here). Tensor payloads are opaque 32-bit words; the embedding
/// program converts its floating-point values to and from them.
#[derive(Debug)]
pub struct Query {
    pub query_id: QueryId,
    pub model_session: ModelSession,
    pub frontend_id: NodeId,
    pub deadline: TimestampNs,
    pub model_input: Vec<u32>,
    pub model_output: Vec<u32>,
    pub source_clock: PunchClock,
}

impl Query {
    /// Whether the deadline lies strictly in the past of `now`.
    pub fn expired(&self, now: TimestampNs) -> (r: bool)
        ensures
            r == (now.0 > self.deadline.0),
    {
        now.0 > self.deadline.0
    }
}

/// Relies on `chrono::Utc::now` and `DateTime::timestamp_nanos_opt`: the
/// current wall clock as nanoseconds since the Unix epoch, `None` when the
/// instant does not fit an `i64`. The reading depends on the machine's
/// clock, so nothing is promised of the value. `Utc::now` itself requires
/// a system clock at or after the Unix epoch.
#[verifier::external_body]
fn chrono_now_ns() -> (r: Option<i64>) {
    chrono::Utc::now().timestamp_nanos_opt()
}

/// The current wall-clock instant, when the clock can express it. The
/// value is a clock reading: nothing holds of it beyond its presence, so
/// deadline decisions take it as an explicit argument.
pub fn current_time() -> (r: Option<TimestampNs>) {
    match chrono_now_ns() {
        Some(ns) => Some(TimestampNs(ns)),
        None => None,
    }
}

} // verus!
