//! The protocol dispatcher: the single entry point into the backend from
//! the control plane. It classifies each typed message by tag and routes
//! it to the load handler (register a model executor) or the images
//! handler (serve a batch of queries); an unrecognized tag is a
//! protocol-schema error that never disturbs registered executors.
//!
//! The native engine's answers (the load report, one forward outcome per
//! query) are events supplied by the embedding program, which performs the
//! engine calls; every decision around them is made and verified here.

use crate::common::ModelSession;
use crate::common::NodeId;
use crate::common::QueryId;
use crate::common::TimestampNs;
use crate::error::BackendError;
use crate::model_executor::ModelExecutor;
use crate::query::ClockEntry;
use crate::query::PunchClock;
use crate::query::Query;
use crate::tfwrapper::shape_product_ok;
use crate::tfwrapper::spec_shape_product;
use crate::tfwrapper::zero_rows;
use crate::tfwrapper::EngineReport;
use crate::tfwrapper::Error;
use crate::tfwrapper::ErrorModel;
use crate::tfwrapper::ForwardOutcome;
use crate::tfwrapper::SessionConfig;
use vstd::prelude::*;

verus! {

/// The load command: the session identity to register and the engine
/// configuration to open its execution context with.
#[derive(Debug)]
pub struct LoadModelSessionCommand {
    pub model_session: ModelSession,
    pub config: SessionConfig,
}

/// A batch-of-inputs-ready notification: the queries whose input payloads
/// are ready to serve.
#[derive(Debug)]
pub struct ReadImagesReply {
    pub queries: Vec<Query>,
}

/// A decoded control/data message, dispatched by tag. A tag outside the
/// known schema arrives as `Unrecognized`.
#[derive(Debug)]
pub enum BackendMessage {
    Load(LoadModelSessionCommand),
    Images(ReadImagesReply),
    Unrecognized(u16),
}

/// What one query ultimately yielded: exactly one of a result row, a
/// missing executor, a passed deadline, or an engine/bridge failure.
#[derive(Debug)]
pub enum QueryOutcome {
    Output(Vec<u32>),
    ModelNotLoaded,
    DeadlineExceeded,
    Failed(Error),
}

/// The mathematical value of a query outcome.
pub enum QueryOutcomeModel {
    Output(Seq<u32>),
    ModelNotLoaded,
    DeadlineExceeded,
    Failed(ErrorModel),
}

impl View for QueryOutcome {
    type V = QueryOutcomeModel;

    open spec fn view(&self) -> QueryOutcomeModel {
        match self {
            QueryOutcome::Output(row) => QueryOutcomeModel::Output(row@),
            QueryOutcome::ModelNotLoaded => QueryOutcomeModel::ModelNotLoaded,
            QueryOutcome::DeadlineExceeded => QueryOutcomeModel::DeadlineExceeded,
            QueryOutcome::Failed(e) => QueryOutcomeModel::Failed(e@),
        }
    }
}

/// The emitted answer for one query: its identity, the causal trail with
/// this node's entry appended, and the outcome.
#[derive(Debug)]
pub struct QueryResult {
    pub query_id: QueryId,
    pub clock: PunchClock,
    pub outcome: QueryOutcome,
}

/// The backend: this node's identity and the registered executors, at most
/// one per model-session key.
#[derive(Debug)]
pub struct Backend {
    pub node_id: NodeId,
    pub executors: Vec<ModelExecutor>,
}

/// Index of the executor registered under `key`, or the length if none.
pub open spec fn spec_find_session(execs: Seq<ModelExecutor>, key: (Seq<char>, Seq<char>, u32)) -> int
    decreases execs.len(),
{
    if execs.len() == 0 {
        0
    } else if execs[0].model_session.key() == key {
        0
    } else {
        1 + spec_find_session(execs.skip(1), key)
    }
}

pub proof fn lemma_find_session_props(execs: Seq<ModelExecutor>, key: (Seq<char>, Seq<char>, u32))
    ensures
        0 <= spec_find_session(execs, key) <= execs.len(),
        spec_find_session(execs, key) < execs.len() ==> execs[spec_find_session(
            execs,
            key,
        )].model_session.key() == key,
        forall|i: int|
            0 <= i < spec_find_session(execs, key) ==> (#[trigger] execs[i]).model_session.key()
                != key,
    decreases execs.len(),
{
    if execs.len() > 0 && execs[0].model_session.key() != key {
        lemma_find_session_props(execs.skip(1), key);
        assert forall|i: int| 0 <= i < spec_find_session(execs, key) implies (
        #[trigger] execs[i]).model_session.key() != key by {
            if i > 0 {
                assert(execs.skip(1)[i - 1] == execs[i]);
            }
        }
    }
}

proof fn lemma_find_session_skip(execs: Seq<ModelExecutor>, key: (Seq<char>, Seq<char>, u32), k: int)
    requires
        0 <= k <= execs.len(),
        forall|i: int| 0 <= i < k ==> (#[trigger] execs[i]).model_session.key() != key,
    ensures
        spec_find_session(execs, key) == k + spec_find_session(execs.skip(k), key),
    decreases k,
{
    if k == 0 {
        assert(execs.skip(0) =~= execs);
    } else {
        lemma_find_session_skip(execs.skip(1), key, k - 1);
        assert(execs.skip(1).skip(k - 1) =~= execs.skip(k));
        assert(forall|i: int| 0 <= i < k - 1 ==> execs.skip(1)[i] == execs[i + 1]);
    }
}

/// Finds the executor registered under the key of `s`, or the length.
pub fn find_session_index(execs: &Vec<ModelExecutor>, s: &ModelSession) -> (r: usize)
    ensures
        r == spec_find_session(execs@, s.key()),
{
    let n: usize = execs.len();
    let mut i: usize = 0;
    while i < n
        invariant
            0 <= i <= n,
            n == execs@.len(),
            forall|j: int| 0 <= j < i ==> (#[trigger] execs@[j]).model_session.key() != s.key(),
        decreases n - i,
    {
        if execs[i].model_session == *s {
            proof {
                lemma_find_session_skip(execs@, s.key(), i as int);
                assert(execs@.skip(i as int)[0] == execs@[i as int]);
            }
            return i;
        }
        i = i + 1;
    }
    proof {
        lemma_find_session_skip(execs@, s.key(), n as int);
        assert(execs@.skip(n as int) =~= Seq::<ModelExecutor>::empty());
    }
    n
}

impl Backend {
    /// Well-formedness: at most one executor per session key, and every
    /// executor's context is intact.
    pub open spec fn wf(&self) -> bool {
        &&& forall|i: int, j: int|
            0 <= i < j < self.executors@.len() ==> (
            #[trigger] self.executors@[i]).model_session.key() != (
            #[trigger] self.executors@[j]).model_session.key()
        &&& forall|i: int|
            0 <= i < self.executors@.len() ==> (#[trigger] self.executors@[i]).tf_session.wf()
    }

    /// A backend with no executor registered.
    pub fn new(node_id: NodeId) -> (r: Backend)
        ensures
            r.node_id == node_id,
            r.executors@.len() == 0,
            r.wf(),
    {
        Backend { node_id, executors: Vec::new() }
    }
}

/// A freshly loaded executor for `cmd`: it carries the command's session
/// identity and an execution context opened per the command's
/// configuration, its staging area zeroed.
pub open spec fn fresh_executor(ex: ModelExecutor, cmd: LoadModelSessionCommand) -> bool {
    &&& ex.model_session == cmd.model_session
    &&& ex.tf_session.config == cmd.config
    &&& ex.tf_session.wf()
    &&& ex.tf_session.input@ == zero_rows(
        cmd.config.max_batch as nat,
        spec_shape_product(cmd.config.input_shape@),
    )
}

/// How a successful load changes the registry: the executor under the
/// command's key is replaced in place, or a new one is appended when the
/// key was free; every other executor stays untouched.
pub open spec fn load_effect(
    olds: Seq<ModelExecutor>,
    news: Seq<ModelExecutor>,
    cmd: LoadModelSessionCommand,
) -> bool {
    let i = spec_find_session(olds, cmd.model_session.key());
    if i < olds.len() {
        &&& news.len() == olds.len()
        &&& forall|j: int| 0 <= j < olds.len() && j != i ==> news[j] == olds[j]
        &&& fresh_executor(news[i], cmd)
    } else {
        &&& news.len() == olds.len() + 1
        &&& news.take(olds.len() as int) == olds
        &&& fresh_executor(news.last(), cmd)
    }
}

impl Backend {
    /// Registers a model executor for the command's session, judged from
    /// the engine's load report. The prior executor under the same key is
    /// replaced only after the new load succeeded: on any failure the
    /// registry is exactly what it was, so the prior executor, if any,
    /// stays in service.
    pub fn handle_load(&mut self, cmd: LoadModelSessionCommand, report: EngineReport) -> (r:
        Result<(), BackendError>)
        requires
            old(self).wf(),
        ensures
            final(self).wf(),
            final(self).node_id == old(self).node_id,
            r is Ok <==> (report is Loaded && shape_product_ok(cmd.config.input_shape@)),
            r is Ok ==> load_effect(old(self).executors@, final(self).executors@, cmd),
            r is Err ==> *final(self) == *old(self),
            match report {
                EngineReport::Failed(m) => r == Err::<(), BackendError>(
                    BackendError::TensorFlow(Error::TensorFlow(m)),
                ),
                EngineReport::Loaded => !shape_product_ok(cmd.config.input_shape@) ==> r == Err::<
                    (),
                    BackendError,
                >(BackendError::TensorFlow(Error::ShapeTooLarge)),
            },
    {
        let idx = find_session_index(&self.executors, &cmd.model_session);
        proof {
            lemma_find_session_props(self.executors@, cmd.model_session.key());
        }
        let LoadModelSessionCommand { model_session, config } = cmd;
        let ex = match ModelExecutor::new(model_session, config, report) {
            Ok(e) => e,
            Err(err) => {
                return Err(err);
            },
        };
        if idx < self.executors.len() {
            self.executors.set(idx, ex);
        } else {
            self.executors.push(ex);
            proof {
                assert(final(self).executors@.take(old(self).executors@.len() as int) =~= old(
                    self,
                ).executors@);
            }
        }
        proof {
            assert forall|i: int, j: int|
                0 <= i < j < final(self).executors@.len() implies (
            #[trigger] final(self).executors@[i]).model_session.key() != (
            #[trigger] final(self).executors@[j]).model_session.key() by {
                if i != idx && j != idx {
                    assert(final(self).executors@[i] == old(self).executors@[i]);
                    assert(final(self).executors@[j] == old(self).executors@[j]);
                }
            }
        }
        Ok(())
    }
}

/// What one query yields, given the registry, the staging-time clock
/// reading, and the engine's answer: a missing executor fails the query
/// with `ModelNotLoaded`; a deadline already passed at staging time drops
/// it as `DeadlineExceeded` without any engine work; a payload that does
/// not fit the executor's input shape is a shape mismatch; otherwise the
/// query is staged and run as a batch of one, and the engine's answer
/// becomes its result row or its failure.
pub open spec fn spec_query_outcome(
    execs: Seq<ModelExecutor>,
    q: Query,
    now: TimestampNs,
    oc: ForwardOutcome,
) -> QueryOutcomeModel {
    let j = spec_find_session(execs, q.model_session.key());
    if j == execs.len() {
        QueryOutcomeModel::ModelNotLoaded
    } else if now.0 > q.deadline.0 {
        QueryOutcomeModel::DeadlineExceeded
    } else {
        let ex = execs[j];
        let rs = spec_shape_product(ex.tf_session.config.input_shape@);
        if q.model_input@.len() != rs {
            QueryOutcomeModel::Failed(
                ErrorModel::ShapeMismatch {
                    expected: rs as int,
                    got: q.model_input@.len() as int,
                },
            )
        } else if ex.tf_session.config.max_batch < 1 {
            QueryOutcomeModel::Failed(
                ErrorModel::BatchOutOfRange {
                    limit: ex.tf_session.config.max_batch as int,
                    got: 1,
                },
            )
        } else {
            match oc {
                ForwardOutcome::Failure(m) => QueryOutcomeModel::Failed(
                    ErrorModel::TensorFlow(m@),
                ),
                ForwardOutcome::Rows(rows) => {
                    if rows@.len() == 1 {
                        QueryOutcomeModel::Output(rows.deep_view()[0])
                    } else {
                        QueryOutcomeModel::Failed(
                            ErrorModel::ShapeMismatch { expected: 1, got: rows@.len() as int },
                        )
                    }
                },
            }
        }
    }
}

/// How serving a batch may change the registry: no executor appears,
/// disappears, changes identity or configuration, or loses its context's
/// well-formedness; only staging buffers are written.
pub open spec fn images_state(olds: Seq<ModelExecutor>, news: Seq<ModelExecutor>) -> bool {
    &&& news.len() == olds.len()
    &&& forall|k: int|
        0 <= k < olds.len() ==> (#[trigger] news[k]).model_session == olds[k].model_session
            && news[k].tf_session.config == olds[k].tf_session.config
}

/// The emitted results of a batch: one per query, in order, each carrying
/// the query's identity, its trail extended by exactly this node's entry,
/// and the outcome `spec_query_outcome` assigns it.
pub open spec fn images_results(
    execs: Seq<ModelExecutor>,
    node_id: NodeId,
    queries: Seq<Query>,
    now: TimestampNs,
    outcomes: Seq<ForwardOutcome>,
    results: Seq<QueryResult>,
) -> bool {
    &&& results.len() == queries.len()
    &&& forall|i: int|
        0 <= i < queries.len() ==> {
            &&& (#[trigger] results[i]).query_id == queries[i].query_id
            &&& results[i].clock@ == queries[i].source_clock@.push(
                ClockEntry { location: node_id, timestamp: now },
            )
            &&& results[i].outcome@ == spec_query_outcome(execs, queries[i], now, outcomes[i])
        }
}

impl Backend {
    /// Serves one batch: resolves each query's executor by session key,
    /// drops queries already past their deadline at staging time, stages
    /// the rest and runs each as a batch of one over the engine's answer,
    /// and emits exactly one result per query. `now` is the staging-time
    /// clock reading; `outcomes` holds the engine's answer for each query
    /// in order (unused for queries that are dropped or fail earlier).
    #[verifier::loop_isolation(false)]
    #[verifier::rlimit(100)]
    pub fn handle_images(&mut self, batch: ReadImagesReply, now: TimestampNs, outcomes: Vec<
        ForwardOutcome,
    >) -> (r: Vec<QueryResult>)
        requires
            old(self).wf(),
            outcomes@.len() == batch.queries@.len(),
        ensures
            final(self).wf(),
            final(self).node_id == old(self).node_id,
            images_state(old(self).executors@, final(self).executors@),
            images_results(
                old(self).executors@,
                old(self).node_id,
                batch.queries@,
                now,
                outcomes@,
                r@,
            ),
    {
        let ghost all_queries = batch.queries@;
        let ghost all_outcomes = outcomes@;
        let mut queries = batch.queries;
        let mut outcomes_v = outcomes;
        let mut results: Vec<QueryResult> = Vec::new();
        let n: usize = queries.len();
        let mut i: usize = 0;
        proof {
            assert(queries@ =~= all_queries.skip(0));
            assert(outcomes_v@ =~= all_outcomes.skip(0));
        }
        while i < n
            invariant
                0 <= i <= n,
                queries@ == all_queries.skip(i as int),
                outcomes_v@ == all_outcomes.skip(i as int),
                results@.len() == i,
                self.node_id == old(self).node_id,
                self.wf(),
                images_state(old(self).executors@, self.executors@),
                forall|t: int|
                    0 <= t < i ==> {
                        &&& (#[trigger] results@[t]).query_id == all_queries[t].query_id
                        &&& results@[t].clock@ == all_queries[t].source_clock@.push(
                            ClockEntry { location: old(self).node_id, timestamp: now },
                        )
                        &&& results@[t].outcome@ == spec_query_outcome(
                            old(self).executors@,
                            all_queries[t],
                            now,
                            all_outcomes[t],
                        )
                    },
            decreases n - i,
        {
            let ghost pre_queries = queries@;
            let q = queries.remove(0);
            let oc = outcomes_v.remove(0);
            proof {
                assert(q == all_queries[i as int]);
                assert(oc == all_outcomes[i as int]);
                assert(queries@ =~= all_queries.skip(i + 1));
                assert(outcomes_v@ =~= all_outcomes.skip(i + 1));
                // The search sees the same keys the entry registry had.
                lemma_find_keys_stable(old(self).executors@, self.executors@, q.model_session.key());
            }
            let j = find_session_index(&self.executors, &q.model_session);
            proof {
                lemma_find_session_props(self.executors@, q.model_session.key());
            }
            let outcome: QueryOutcome;
            if j == self.executors.len() {
                outcome = QueryOutcome::ModelNotLoaded;
            } else if q.expired(now) {
                outcome = QueryOutcome::DeadlineExceeded;
            } else {
                let ghost pre_execs = self.executors@;
                let mut ex = self.executors.remove(j);
                let row_len = ex.tf_session.row_len();
                if q.model_input.len() != row_len {
                    outcome = QueryOutcome::Failed(
                        Error::ShapeMismatch { expected: row_len, got: q.model_input.len() },
                    );
                } else if ex.tf_session.config.max_batch < 1 {
                    outcome = QueryOutcome::Failed(
                        Error::BatchOutOfRange { limit: ex.tf_session.config.max_batch, got: 1 },
                    );
                } else {
                    match ex.tf_session.stage_row(0, &q.model_input) {
                        Ok(_) => (),
                        Err(_) => {
                            // Unreachable: the payload's length was just
                            // checked against the session's row length.
                            proof {
                                assert(false);
                            }
                            return results;
                        },
                    }
                    match ex.tf_session.forward(1, oc) {
                        Ok(t) => {
                            outcome = QueryOutcome::Output(t.read());
                        },
                        Err(e) => {
                            outcome = QueryOutcome::Failed(e);
                        },
                    }
                }
                self.executors.insert(j, ex);
                proof {
                    assert(self.executors@ =~= pre_execs.update(j as int, ex));
                }
            }
            let mut clock = q.source_clock;
            clock.punch(self.node_id, now);
            results.push(QueryResult { query_id: q.query_id, clock, outcome });
            i = i + 1;
        }
        results
    }
}

/// Two registries with pointwise equal session keys agree on every key
/// search.
proof fn lemma_find_keys_stable(
    olds: Seq<ModelExecutor>,
    news: Seq<ModelExecutor>,
    key: (Seq<char>, Seq<char>, u32),
)
    requires
        news.len() == olds.len(),
        forall|k: int|
            0 <= k < olds.len() ==> (#[trigger] news[k]).model_session.key()
                == olds[k].model_session.key(),
    ensures
        spec_find_session(news, key) == spec_find_session(olds, key),
    decreases olds.len(),
{
    if olds.len() > 0 {
        assert(news[0].model_session.key() == olds[0].model_session.key());
        lemma_find_keys_stable(olds.skip(1), news.skip(1), key);
        assert(forall|k: int| 0 <= k < olds.len() - 1 ==> news.skip(1)[k] == news[k + 1]);
        assert(forall|k: int| 0 <= k < olds.len() - 1 ==> olds.skip(1)[k] == olds[k + 1]);
    }
}

impl Backend {
    /// Routes one decoded message to exactly one handler by its tag. A
    /// load command registers an executor per `report`; an image batch is
    /// served per `now` and `outcomes`; an unrecognized tag is a
    /// protocol-schema error that leaves the backend exactly as it was —
    /// no registered executor's state is touched.
    pub fn handle_backend_message(
        &mut self,
        msg: BackendMessage,
        now: TimestampNs,
        report: EngineReport,
        outcomes: Vec<ForwardOutcome>,
    ) -> (r: Result<Vec<QueryResult>, BackendError>)
        requires
            old(self).wf(),
            msg matches BackendMessage::Images(b) ==> outcomes@.len() == b.queries@.len(),
        ensures
            final(self).wf(),
            final(self).node_id == old(self).node_id,
            match msg {
                BackendMessage::Unrecognized(tag) => r == Err::<Vec<QueryResult>, BackendError>(
                    BackendError::ProtocolSchema(tag),
                ) && *final(self) == *old(self),
                BackendMessage::Load(cmd) => {
                    &&& r is Ok <==> (report is Loaded && shape_product_ok(
                        cmd.config.input_shape@,
                    ))
                    &&& r matches Ok(v) ==> v@.len() == 0 && load_effect(
                        old(self).executors@,
                        final(self).executors@,
                        cmd,
                    )
                    &&& r is Err ==> *final(self) == *old(self)
                    &&& match report {
                        EngineReport::Failed(m) => r == Err::<Vec<QueryResult>, BackendError>(
                            BackendError::TensorFlow(Error::TensorFlow(m)),
                        ),
                        EngineReport::Loaded => !shape_product_ok(cmd.config.input_shape@)
                            ==> r == Err::<Vec<QueryResult>, BackendError>(
                            BackendError::TensorFlow(Error::ShapeTooLarge),
                        ),
                    }
                },
                BackendMessage::Images(b) => r matches Ok(results) && images_state(
                    old(self).executors@,
                    final(self).executors@,
                ) && images_results(
                    old(self).executors@,
                    old(self).node_id,
                    b.queries@,
                    now,
                    outcomes@,
                    results@,
                ),
            },
    {
        match msg {
            BackendMessage::Load(cmd) => {
                match self.handle_load(cmd, report) {
                    Ok(_) => Ok(Vec::new()),
                    Err(e) => Err(e),
                }
            },
            BackendMessage::Images(batch) => Ok(self.handle_images(batch, now, outcomes)),
            BackendMessage::Unrecognized(tag) => Err(BackendError::ProtocolSchema(tag)),
        }
    }
}

} // verus!
