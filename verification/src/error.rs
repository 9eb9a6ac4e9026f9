//! The backend's error taxonomy for device binding, engine work, and
//! protocol dispatch. Per-query outcomes that are expected in normal
//! operation (a missing executor, a passed deadline) are not errors; they
//! live in the query result type.

use vstd::prelude::*;

verus! {

/// A failure of the backend itself.
#[derive(Debug)]
pub enum BackendError {
    /// The native tensor engine failed; carries the bridge error.
    TensorFlow(crate::tfwrapper::Error),
    /// The device driver refused a bind or a property query; carries the
    /// driver's human-readable message.
    Cuda(String),
    /// A control message carried a tag outside the known schema; carries
    /// the tag. Non-recoverable for that message, but it must not disturb
    /// any registered executor.
    ProtocolSchema(u16),
}

/// The mathematical value of a backend error.
pub enum BackendErrorModel {
    TensorFlow(crate::tfwrapper::ErrorModel),
    Cuda(Seq<char>),
    ProtocolSchema(u16),
}

impl View for BackendError {
    type V = BackendErrorModel;

    open spec fn view(&self) -> BackendErrorModel {
        match self {
            BackendError::TensorFlow(e) => BackendErrorModel::TensorFlow(e@),
            BackendError::Cuda(m) => BackendErrorModel::Cuda(m@),
            BackendError::ProtocolSchema(t) => BackendErrorModel::ProtocolSchema(*t),
        }
    }
}

} // verus!
