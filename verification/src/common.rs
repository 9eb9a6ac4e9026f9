//! Identifiers shared across the backend, and the model-session identity.

use vstd::prelude::*;

verus! {

/// Identity of one node in the serving cluster.
#[derive(Clone, Copy, Debug, Hash, PartialEq, Eq, Structural)]
pub struct NodeId(pub u64);

/// Identity of one execution plan.
#[derive(Clone, Copy, Debug, Hash, PartialEq, Eq, Structural)]
pub struct PlanId(pub u64);

/// Identity of one inference request.
#[derive(Clone, Copy, Debug, Hash, PartialEq, Eq, Structural)]
pub struct QueryId(pub u64);

/// An absolute wall-clock instant, in nanoseconds since the Unix epoch.
/// Deadlines are absolute, so comparing them across nodes assumes the
/// nodes' clocks are synchronized; nothing here validates that assumption.
#[derive(Clone, Copy, Debug, Hash, PartialEq, Eq, Structural)]
pub struct TimestampNs(pub i64);

/// Identity of a trained model configuration requested by a client:
/// a framework name, a model name, and the service-level-objective latency
/// target in milliseconds. Equality is defined over all three fields.
#[derive(Debug, Hash)]
pub struct ModelSession {
    pub framework: String,
    pub model: String,
    pub slo_ms: u32,
}

impl ModelSession {
    /// The mathematical identity of this session: the (framework, model, slo)
    /// triple that keys the executor registry.
    pub open spec fn key(&self) -> (Seq<char>, Seq<char>, u32) {
        (self.framework@, self.model@, self.slo_ms)
    }
}

impl PartialEq for ModelSession {
    fn eq(&self, other: &ModelSession) -> (r: bool) {
        self.framework == other.framework && self.model == other.model
            && self.slo_ms == other.slo_ms
    }
}

impl Eq for ModelSession {}

impl vstd::std_specs::cmp::PartialEqSpecImpl for ModelSession {
    open spec fn obeys_eq_spec() -> bool {
        true
    }

    open spec fn eq_spec(&self, other: &ModelSession) -> bool {
        self.key() == other.key()
    }
}

} // verus!
