//! A model executor: the pairing of one model-session identity with one
//! runnable native execution context. An executor serves exactly one
//! session for its whole lifetime; swapping models means creating a new
//! executor and discarding the old one.

use crate::common::ModelSession;
use crate::error::BackendError;
use crate::tfwrapper::shape_product_ok;
use crate::tfwrapper::spec_shape_product;
use crate::tfwrapper::zero_rows;
use crate::tfwrapper::EngineReport;
use crate::tfwrapper::Error;
use crate::tfwrapper::Session;
use crate::tfwrapper::SessionConfig;
use vstd::prelude::*;

verus! {

/// One loaded, runnable model: the session identity and the native
/// execution context bound to it. The executor exclusively owns its
/// context; destroying the executor releases it.
#[derive(Debug)]
pub struct ModelExecutor {
    pub model_session: ModelSession,
    pub tf_session: Session,
}

impl ModelExecutor {
    /// Creates an executor by opening an execution context per `config`,
    /// judged from the engine's load report, and pairing it with
    /// `model_session`. An engine failure yields an engine error and no
    /// executor.
    pub fn new(model_session: ModelSession, config: SessionConfig, report: EngineReport) -> (r:
        Result<ModelExecutor, BackendError>)
        ensures
            match report {
                EngineReport::Failed(m) => r matches Err(e) && e == BackendError::TensorFlow(
                    Error::TensorFlow(m),
                ),
                EngineReport::Loaded => {
                    if shape_product_ok(config.input_shape@) {
                        r matches Ok(ex) && ex.model_session == model_session
                            && ex.tf_session.config == config && ex.tf_session.wf()
                            && ex.tf_session.input@ == zero_rows(
                            config.max_batch as nat,
                            spec_shape_product(config.input_shape@),
                        )
                    } else {
                        r matches Err(e) && e == BackendError::TensorFlow(Error::ShapeTooLarge)
                    }
                },
            },
    {
        match Session::new(config, report) {
            Ok(tf_session) => Ok(ModelExecutor { model_session, tf_session }),
            Err(e) => Err(BackendError::TensorFlow(e)),
        }
    }
}

} // verus!
