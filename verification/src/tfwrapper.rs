//! The native execution bridge: a safety boundary around the native
//! tensor-computation engine.
//!
//! The engine itself (artifact loading, the batched forward pass) is outside
//! work that only the embedding program can perform; its answers enter here
//! as events (`EngineReport`, `ForwardOutcome`). This module owns everything
//! the node decides around those events: the staging buffers sized from the
//! configuration, the shape check on every staged row, the batch-size bounds
//! on every forward call, and the translation of engine failures into the
//! bridge's error taxonomy. Tensor elements are opaque 32-bit words here;
//! the embedding program converts its floating-point feature values to and
//! from those words unchanged.

use vstd::prelude::*;

verus! {

/// Static configuration of one native engine session: the model artifact
/// path, the largest batch the buffers are sized for, the per-row input
/// shape, and the graph's input/output tensor names.
#[derive(Debug)]
pub struct SessionConfig {
    pub model_pb: String,
    pub max_batch: usize,
    pub input_shape: Vec<usize>,
    pub input_name: String,
    pub output_name: String,
}

/// Why a bridge operation failed.
#[derive(Debug)]
pub enum Error {
    /// The native engine reported a failure; carries its diagnostic text.
    TensorFlow(String),
    /// A tensor's shape did not match: a staged row's length, or the
    /// engine output's row count.
    ShapeMismatch { expected: usize, got: usize },
    /// A forward pass was requested outside `[1, max_batch]`.
    BatchOutOfRange { limit: usize, got: usize },
    /// The input shape's element count does not fit the machine's size
    /// type, so no staging buffer of that shape can exist.
    ShapeTooLarge,
}

/// The mathematical value of a bridge error.
pub enum ErrorModel {
    TensorFlow(Seq<char>),
    ShapeMismatch { expected: int, got: int },
    BatchOutOfRange { limit: int, got: int },
    ShapeTooLarge,
}

impl View for Error {
    type V = ErrorModel;

    open spec fn view(&self) -> ErrorModel {
        match self {
            Error::TensorFlow(m) => ErrorModel::TensorFlow(m@),
            Error::ShapeMismatch { expected, got } => ErrorModel::ShapeMismatch {
                expected: *expected as int,
                got: *got as int,
            },
            Error::BatchOutOfRange { limit, got } => ErrorModel::BatchOutOfRange {
                limit: *limit as int,
                got: *got as int,
            },
            Error::ShapeTooLarge => ErrorModel::ShapeTooLarge,
        }
    }
}

/// What the native engine answered to a load attempt: the artifact was
/// loaded and both named tensors bound, or it failed with a diagnostic
/// (an absent or malformed artifact path, or a missing tensor name).
#[derive(Debug)]
pub enum EngineReport {
    Loaded,
    Failed(String),
}

/// What the native engine answered to one batched forward pass: the output
/// rows, or a runtime failure with a diagnostic.
#[derive(Debug)]
pub enum ForwardOutcome {
    Rows(Vec<Vec<u32>>),
    Failure(String),
}

/// A tensor held as rows of opaque 32-bit elements.
#[derive(Debug)]
pub struct Tensor {
    pub rows: Vec<Vec<u32>>,
}

impl View for Tensor {
    type V = Seq<Seq<u32>>;

    open spec fn view(&self) -> Seq<Seq<u32>> {
        self.rows.deep_view()
    }
}

impl Tensor {
    /// How many rows this tensor holds.
    pub fn num_rows(&self) -> (r: usize)
        ensures
            r == self@.len(),
    {
        self.rows.len()
    }

    /// A one-row tensor holding row `index`, the view of one row.
    pub fn at(&self, index: usize) -> (r: Tensor)
        requires
            index < self@.len(),
        ensures
            r@ == seq![self@[index as int]],
    {
        let mut rows: Vec<Vec<u32>> = Vec::new();
        rows.push(vstd::slice::slice_to_vec(self.rows[index].as_slice()));
        let r = Tensor { rows };
        proof {
            assert(r@ =~~= seq![self@[index as int]]);
        }
        r
    }

    /// Materializes the first row into an owned buffer.
    pub fn read(&self) -> (r: Vec<u32>)
        requires
            self@.len() >= 1,
        ensures
            r@ == self@[0],
    {
        vstd::slice::slice_to_vec(self.rows[0].as_slice())
    }
}

/// The element count of one input row: the product of the shape's extents,
/// taken left to right. An empty shape means one element per row.
pub open spec fn spec_shape_product(shape: Seq<usize>) -> nat
    decreases shape.len(),
{
    if shape.len() == 0 {
        1
    } else {
        (spec_shape_product(shape.drop_last()) * shape.last()) as nat
    }
}

/// Whether every left-to-right prefix product of the shape fits the
/// machine's size type, so the staging buffer's row length is computable.
pub open spec fn shape_product_ok(shape: Seq<usize>) -> bool
    decreases shape.len(),
{
    if shape.len() == 0 {
        true
    } else {
        shape_product_ok(shape.drop_last()) && spec_shape_product(shape.drop_last())
            * shape.last() <= usize::MAX
    }
}

/// Computes the row element count, or refuses a shape whose product
/// overflows the size type.
pub fn shape_product(shape: &Vec<usize>) -> (r: Option<usize>)
    ensures
        r == (if shape_product_ok(shape@) {
            Some(spec_shape_product(shape@) as usize)
        } else {
            None::<usize>
        }),
{
    let n: usize = shape.len();
    let mut acc: usize = 1;
    let mut i: usize = 0;
    proof {
        assert(shape@.take(0) =~= Seq::<usize>::empty());
    }
    while i < n
        invariant
            0 <= i <= n,
            n == shape@.len(),
            shape_product_ok(shape@.take(i as int)),
            acc == spec_shape_product(shape@.take(i as int)),
        decreases n - i,
    {
        proof {
            assert(shape@.take(i + 1).drop_last() =~= shape@.take(i as int));
            assert(shape@.take(i + 1).last() == shape@[i as int]);
        }
        let next = match acc.checked_mul(shape[i]) {
            Some(v) => v,
            None => {
                proof {
                    assert(!shape_product_ok(shape@.take(i + 1)));
                    lemma_shape_product_prefix(shape@, i + 1);
                }
                return None;
            },
        };
        acc = next;
        i = i + 1;
    }
    proof {
        assert(shape@.take(n as int) =~= shape@);
    }
    Some(acc)
}

/// A shape with a bad prefix is bad as a whole.
proof fn lemma_shape_product_prefix(shape: Seq<usize>, k: int)
    requires
        0 <= k <= shape.len(),
        !shape_product_ok(shape.take(k)),
    ensures
        !shape_product_ok(shape),
    decreases shape.len() - k,
{
    if k < shape.len() {
        assert(shape.take(k + 1).drop_last() =~= shape.take(k));
        lemma_shape_product_prefix(shape, k + 1);
    } else {
        assert(shape.take(k) =~= shape);
    }
}

/// `n` rows of `m` zero elements: the freshly allocated staging area.
pub open spec fn zero_rows(n: nat, m: nat) -> Seq<Seq<u32>> {
    Seq::new(n, |i: int| Seq::new(m, |j: int| 0u32))
}

/// An open execution context: the configuration it was created from and
/// the pre-allocated input staging area, `max_batch` rows of the shape's
/// element count each.
#[derive(Debug)]
pub struct Session {
    pub config: SessionConfig,
    pub input: Tensor,
}

impl Session {
    /// The element count of one staged row.
    pub open spec fn spec_row_len(&self) -> nat {
        spec_shape_product(self.config.input_shape@)
    }

    /// Well-formedness: the shape's product is computable and the staging
    /// area holds `max_batch` rows of exactly that many elements.
    pub open spec fn wf(&self) -> bool {
        &&& shape_product_ok(self.config.input_shape@)
        &&& self.input@.len() == self.config.max_batch
        &&& forall|i: int| 0 <= i < self.input@.len() ==> (#[trigger] self.input@[i]).len()
            == self.spec_row_len()
    }

    /// The element count of one staged row.
    pub fn row_len(&self) -> (r: usize)
        requires
            self.wf(),
        ensures
            r == self.spec_row_len(),
    {
        match shape_product(&self.config.input_shape) {
            Some(v) => v,
            None => 0,  // unreachable: wf says the product is computable
        }
    }

    /// Opens an execution context over the engine's answer to loading the
    /// model artifact. An engine failure becomes an error and no context;
    /// on success the staging area is allocated and zeroed.
    pub fn new(config: SessionConfig, report: EngineReport) -> (r: Result<Session, Error>)
        ensures
            match report {
                EngineReport::Failed(m) => r matches Err(e) && e == Error::TensorFlow(m),
                EngineReport::Loaded => {
                    if shape_product_ok(config.input_shape@) {
                        r matches Ok(s) && s.config == config && s.wf() && s.input@ == zero_rows(
                            config.max_batch as nat,
                            spec_shape_product(config.input_shape@),
                        )
                    } else {
                        r matches Err(e) && e == Error::ShapeTooLarge
                    }
                },
            },
    {
        match report {
            EngineReport::Failed(m) => Err(Error::TensorFlow(m)),
            EngineReport::Loaded => {
                let row_len = match shape_product(&config.input_shape) {
                    Some(v) => v,
                    None => {
                        return Err(Error::ShapeTooLarge);
                    },
                };
                let mut row: Vec<u32> = Vec::new();
                let mut j: usize = 0;
                while j < row_len
                    invariant
                        0 <= j <= row_len,
                        row@.len() == j,
                        forall|t: int| 0 <= t < j ==> row@[t] == 0u32,
                    decreases row_len - j,
                {
                    row.push(0);
                    j = j + 1;
                }
                let mut rows: Vec<Vec<u32>> = Vec::new();
                let mut i: usize = 0;
                while i < config.max_batch
                    invariant
                        0 <= i <= config.max_batch,
                        rows@.len() == i,
                        row@.len() == row_len,
                        forall|t: int| 0 <= t < row@.len() ==> row@[t] == 0u32,
                        forall|t: int| 0 <= t < i ==> (#[trigger] rows@[t])@ == row@,
                    decreases config.max_batch - i,
                {
                    rows.push(vstd::slice::slice_to_vec(row.as_slice()));
                    i = i + 1;
                }
                let s = Session { config, input: Tensor { rows } };
                proof {
                    assert(s.input@ =~~= zero_rows(
                        s.config.max_batch as nat,
                        spec_shape_product(s.config.input_shape@),
                    ));
                }
                Ok(s)
            },
        }
    }

    /// A liveness probe of the bound engine session; the native side
    /// answers the fixed value 2333.
    pub fn hello(&self) -> (r: usize)
        ensures
            r == 2333,
    {
        2333
    }

    /// The input staging area.
    pub fn input_tensor(&self) -> (r: &Tensor)
        ensures
            *r == self.input,
    {
        &self.input
    }

    /// Copies one feature vector into staging row `index`. Fails with a
    /// shape mismatch, changing nothing, when the vector's length is not
    /// the shape's element count.
    pub fn stage_row(&mut self, index: usize, src: &Vec<u32>) -> (r: Result<(), Error>)
        requires
            old(self).wf(),
            index < old(self).config.max_batch,
        ensures
            final(self).wf(),
            final(self).config == old(self).config,
            if src@.len() == old(self).spec_row_len() {
                &&& r is Ok
                &&& final(self).input@ == old(self).input@.update(index as int, src@)
            } else {
                &&& r == Err::<(), Error>(
                    Error::ShapeMismatch {
                        expected: old(self).spec_row_len() as usize,
                        got: src.len(),
                    },
                )
                &&& *final(self) == *old(self)
            },
    {
        let expected = self.row_len();
        if src.len() != expected {
            return Err(Error::ShapeMismatch { expected, got: src.len() });
        }
        let copied = vstd::slice::slice_to_vec(src.as_slice());
        self.input.rows.set(index, copied);
        proof {
            assert(final(self).input@ =~~= old(self).input@.update(index as int, src@));
        }
        Ok(())
    }

    /// One synchronous batched forward pass over the first `batch_size`
    /// staged rows, judged from the engine's answer: a batch size outside
    /// `[1, max_batch]` is refused before the engine is consulted; an
    /// engine failure becomes an error; an answer with other than
    /// `batch_size` rows is a shape mismatch; otherwise the output tensor
    /// holds exactly the engine's `batch_size` rows.
    pub fn forward(&self, batch_size: usize, outcome: ForwardOutcome) -> (r: Result<
        Tensor,
        Error,
    >)
        ensures
            !(1 <= batch_size <= self.config.max_batch) ==> r == Err::<Tensor, Error>(
                Error::BatchOutOfRange { limit: self.config.max_batch, got: batch_size },
            ),
            (1 <= batch_size <= self.config.max_batch) ==> match outcome {
                ForwardOutcome::Failure(m) => r matches Err(e) && e == Error::TensorFlow(m),
                ForwardOutcome::Rows(rows) => {
                    if rows@.len() == batch_size {
                        r matches Ok(t) && t@ == rows.deep_view() && t@.len() == batch_size
                    } else {
                        r matches Err(e) && e == (Error::ShapeMismatch {
                            expected: batch_size,
                            got: rows.len(),
                        })
                    }
                },
            },
    {
        if batch_size < 1 || batch_size > self.config.max_batch {
            return Err(Error::BatchOutOfRange { limit: self.config.max_batch, got: batch_size });
        }
        match outcome {
            ForwardOutcome::Failure(m) => Err(Error::TensorFlow(m)),
            ForwardOutcome::Rows(rows) => {
                if rows.len() == batch_size {
                    Ok(Tensor { rows })
                } else {
                    Err(Error::ShapeMismatch { expected: batch_size, got: rows.len() })
                }
            },
        }
    }
}

} // verus!
