use symphony::backend::Backend;
use symphony::backend::BackendMessage;
use symphony::backend::LoadModelSessionCommand;
use symphony::backend::QueryOutcome;
use symphony::backend::ReadImagesReply;
use symphony::common::ModelSession;
use symphony::common::NodeId;
use symphony::common::QueryId;
use symphony::common::TimestampNs;
use symphony::cuda_device::CudaDevice;
use symphony::cuda_device::DeviceProbe;
use symphony::error::BackendError;
use symphony::model_executor::ModelExecutor;
use symphony::query::PunchClock;
use symphony::query::Query;
use symphony::tfwrapper::EngineReport;
use symphony::tfwrapper::Error;
use symphony::tfwrapper::ForwardOutcome;
use symphony::tfwrapper::Session;
use symphony::tfwrapper::SessionConfig;

fn mnist_config() -> SessionConfig {
    SessionConfig {
        model_pb: "resources/mnist/mnist.pb".to_owned(),
        max_batch: 10,
        input_shape: vec![28, 28],
        input_name: "flatten_input".to_owned(),
        output_name: "output/Softmax".to_owned(),
    }
}

fn mnist_image(seed: u32) -> Vec<u32> {
    (0..28 * 28).map(|i| seed.wrapping_add(i)).collect()
}

fn session_key() -> ModelSession {
    ModelSession {
        framework: "tensorflow".to_owned(),
        model: "resnet".to_owned(),
        slo_ms: 100,
    }
}

fn query_for(key: ModelSession, id: u64, deadline: i64, input: Vec<u32>) -> Query {
    Query {
        query_id: QueryId(id),
        model_session: key,
        frontend_id: NodeId(7),
        deadline: TimestampNs(deadline),
        model_input: input,
        model_output: Vec::new(),
        source_clock: PunchClock::new(),
    }
}

#[test]
fn new_session() {
    let config = mnist_config();
    let session = Session::new(config, EngineReport::Loaded).unwrap();
    assert_eq!(session.hello(), 2333);
}

#[test]
fn model_not_exists() {
    let mut config = mnist_config();
    config.model_pb = "not-exists.pb".to_owned();
    assert!(Session::new(
        config,
        EngineReport::Failed("model artifact not-exists.pb not found".to_owned())
    )
    .is_err());
}

#[test]
fn forward() {
    let config = mnist_config();
    let mut session = Session::new(config, EngineReport::Loaded).unwrap();
    let images: Vec<Vec<u32>> = (0..5).map(|k| mnist_image(k * 1000)).collect();
    for (index, image) in images.iter().enumerate() {
        session.stage_row(index, image).unwrap();
    }
    let engine_rows: Vec<Vec<u32>> = (0..5).map(|k| vec![k as u32; 10]).collect();
    let outputs = session
        .forward(images.len(), ForwardOutcome::Rows(engine_rows.clone()))
        .unwrap();
    assert_eq!(outputs.num_rows(), 5);
    for (index, expected) in engine_rows.iter().enumerate() {
        let row = outputs.at(index).read();
        assert_eq!(&row, expected);
    }
}

#[test]
fn forward_batch_bounds() {
    let config = mnist_config();
    let session = Session::new(config, EngineReport::Loaded).unwrap();
    // Inside [1, max_batch]: exactly batch_size rows come back.
    for bs in [1usize, 10] {
        let rows: Vec<Vec<u32>> = (0..bs).map(|_| vec![0; 10]).collect();
        let out = session.forward(bs, ForwardOutcome::Rows(rows)).unwrap();
        assert_eq!(out.num_rows(), bs);
    }
    // Outside: refused before the engine's answer matters.
    let rows: Vec<Vec<u32>> = (0..11).map(|_| vec![0; 10]).collect();
    assert!(matches!(
        session.forward(11, ForwardOutcome::Rows(rows)),
        Err(Error::BatchOutOfRange { limit: 10, got: 11 })
    ));
    assert!(matches!(
        session.forward(0, ForwardOutcome::Rows(Vec::new())),
        Err(Error::BatchOutOfRange { limit: 10, got: 0 })
    ));
}

#[test]
fn stage_row_shape_mismatch() {
    let config = mnist_config();
    let mut session = Session::new(config, EngineReport::Loaded).unwrap();
    let short = vec![1u32; 100];
    assert!(matches!(
        session.stage_row(0, &short),
        Err(Error::ShapeMismatch { expected: 784, got: 100 })
    ));
    let exact = vec![1u32; 784];
    assert!(session.stage_row(0, &exact).is_ok());
}

#[test]
fn executor_load_failure_gives_no_executor() {
    let mut config = mnist_config();
    config.model_pb = "not-exists.pb".to_owned();
    let r = ModelExecutor::new(
        session_key(),
        config,
        EngineReport::Failed("no such file: not-exists.pb".to_owned()),
    );
    assert!(matches!(r, Err(BackendError::TensorFlow(Error::TensorFlow(_)))));
}

#[test]
fn load_and_serve() {
    let mut backend = Backend::new(NodeId(1));
    let cmd = LoadModelSessionCommand {
        model_session: session_key(),
        config: mnist_config(),
    };
    backend.handle_load(cmd, EngineReport::Loaded).unwrap();
    assert_eq!(backend.executors.len(), 1);

    let q = query_for(session_key(), 42, 1_000, mnist_image(3));
    let results = backend.handle_images(
        ReadImagesReply { queries: vec![q] },
        TimestampNs(500),
        vec![ForwardOutcome::Rows(vec![vec![9u32; 10]])],
    );
    assert_eq!(results.len(), 1);
    assert_eq!(results[0].query_id, QueryId(42));
    // The trail gained exactly this node's entry.
    assert_eq!(results[0].clock.len(), 1);
    assert_eq!(results[0].clock.entries[0].location, NodeId(1));
    assert_eq!(results[0].clock.entries[0].timestamp, TimestampNs(500));
    match &results[0].outcome {
        QueryOutcome::Output(row) => assert_eq!(row, &vec![9u32; 10]),
        other => panic!("expected an output row, got {:?}", other),
    }
}

#[test]
fn second_load_replaces_only_on_success() {
    let mut backend = Backend::new(NodeId(1));
    let cmd1 = LoadModelSessionCommand {
        model_session: session_key(),
        config: mnist_config(),
    };
    backend.handle_load(cmd1, EngineReport::Loaded).unwrap();
    assert_eq!(backend.executors.len(), 1);

    // A query arriving before the second load is served by the first
    // executor, not dropped.
    let q = query_for(session_key(), 1, 1_000, mnist_image(0));
    let results = backend.handle_images(
        ReadImagesReply { queries: vec![q] },
        TimestampNs(10),
        vec![ForwardOutcome::Rows(vec![vec![5u32; 10]])],
    );
    assert!(matches!(results[0].outcome, QueryOutcome::Output(_)));

    // A failing reload leaves the first executor in service.
    let cmd_fail = LoadModelSessionCommand {
        model_session: session_key(),
        config: mnist_config(),
    };
    assert!(backend
        .handle_load(cmd_fail, EngineReport::Failed("engine fault".to_owned()))
        .is_err());
    assert_eq!(backend.executors.len(), 1);
    let q2 = query_for(session_key(), 2, 1_000, mnist_image(0));
    let results2 = backend.handle_images(
        ReadImagesReply { queries: vec![q2] },
        TimestampNs(10),
        vec![ForwardOutcome::Rows(vec![vec![6u32; 10]])],
    );
    assert!(matches!(results2[0].outcome, QueryOutcome::Output(_)));

    // A succeeding second load results in exactly one executor for the key.
    let cmd2 = LoadModelSessionCommand {
        model_session: session_key(),
        config: mnist_config(),
    };
    backend.handle_load(cmd2, EngineReport::Loaded).unwrap();
    assert_eq!(backend.executors.len(), 1);
}

#[test]
fn expired_query_never_reaches_forward() {
    let mut backend = Backend::new(NodeId(1));
    let cmd = LoadModelSessionCommand {
        model_session: session_key(),
        config: mnist_config(),
    };
    backend.handle_load(cmd, EngineReport::Loaded).unwrap();
    // Deadline in the past at staging time: dropped as DeadlineExceeded,
    // whatever the engine would have answered.
    let q = query_for(session_key(), 3, 100, mnist_image(1));
    let results = backend.handle_images(
        ReadImagesReply { queries: vec![q] },
        TimestampNs(101),
        vec![ForwardOutcome::Failure("the engine was never consulted".to_owned())],
    );
    assert!(matches!(results[0].outcome, QueryOutcome::DeadlineExceeded));
    // A deadline exactly at `now` is not yet exceeded.
    let q2 = query_for(session_key(), 4, 100, mnist_image(1));
    let results2 = backend.handle_images(
        ReadImagesReply { queries: vec![q2] },
        TimestampNs(100),
        vec![ForwardOutcome::Rows(vec![vec![1u32; 10]])],
    );
    assert!(matches!(results2[0].outcome, QueryOutcome::Output(_)));
}

#[test]
fn query_without_executor_fails_per_query() {
    let mut backend = Backend::new(NodeId(1));
    let q = query_for(session_key(), 5, 1_000, mnist_image(1));
    let results = backend.handle_images(
        ReadImagesReply { queries: vec![q] },
        TimestampNs(10),
        vec![ForwardOutcome::Rows(vec![vec![1u32; 10]])],
    );
    assert!(matches!(results[0].outcome, QueryOutcome::ModelNotLoaded));
}

#[test]
fn unrecognized_tag_mutates_nothing() {
    let mut backend = Backend::new(NodeId(1));
    let cmd = LoadModelSessionCommand {
        model_session: session_key(),
        config: mnist_config(),
    };
    backend.handle_load(cmd, EngineReport::Loaded).unwrap();

    let r = backend.handle_backend_message(
        BackendMessage::Unrecognized(99),
        TimestampNs(10),
        EngineReport::Loaded,
        Vec::new(),
    );
    assert!(matches!(r, Err(BackendError::ProtocolSchema(99))));
    assert_eq!(backend.executors.len(), 1);

    // The registered executor still serves after the bad message.
    let q = query_for(session_key(), 6, 1_000, mnist_image(1));
    let results = backend
        .handle_backend_message(
            BackendMessage::Images(ReadImagesReply { queries: vec![q] }),
            TimestampNs(10),
            EngineReport::Loaded,
            vec![ForwardOutcome::Rows(vec![vec![2u32; 10]])],
        )
        .unwrap();
    assert!(matches!(results[0].outcome, QueryOutcome::Output(_)));
}

#[test]
fn device_identity_rendering() {
    let mut name = b"Tesla K80".to_vec();
    name.push(0);
    name.extend_from_slice(b"garbage after the terminator");
    let uuid = vec![
        0xcf, 0xd0, 0xec, 0x64, 0x49, 0x78, 0x70, 0x96, 0xf3, 0x91, 0x92, 0x1f, 0x9c, 0x5c,
        0x5d, 0x27,
    ];
    let device = CudaDevice::new(0, DeviceProbe::Properties { name, uuid }).unwrap();
    assert_eq!(device.device_id(), 0);
    assert_eq!(device.name(), &b"Tesla K80".to_vec());
    assert_eq!(
        device.uuid(),
        &b"cfd0ec64-4978-7096-f391-921f9c5c5d27".to_vec()
    );
}

#[test]
fn device_bind_failure() {
    let r = CudaDevice::new(
        3,
        DeviceProbe::Failed("invalid device ordinal".to_owned()),
    );
    assert!(matches!(r, Err(BackendError::Cuda(_))));
}

#[test]
fn punch_clock_is_append_only() {
    let mut clock = PunchClock::new();
    clock.punch(NodeId(1), TimestampNs(10));
    clock.punch(NodeId(2), TimestampNs(20));
    assert_eq!(clock.len(), 2);
    assert_eq!(clock.entries[0].location, NodeId(1));
    assert_eq!(clock.entries[1].timestamp, TimestampNs(20));
}

#[test]
fn current_time_is_available() {
    let t = symphony::query::current_time().unwrap();
    assert!(t.0 > 0);
}

#[test]
fn cuda_status_judgement() {
    assert!(symphony::cuda_device::cuda_result(0, "unused".to_owned()).is_ok());
    let r = symphony::cuda_device::cuda_result(101, "invalid device ordinal".to_owned());
    match r {
        Err(BackendError::Cuda(m)) => assert_eq!(m, "invalid device ordinal"),
        other => panic!("expected a device error, got {:?}", other),
    }
}

#[test]
fn dispatch_load_message() {
    let mut backend = Backend::new(NodeId(2));
    let results = backend
        .handle_backend_message(
            BackendMessage::Load(LoadModelSessionCommand {
                model_session: session_key(),
                config: mnist_config(),
            }),
            TimestampNs(0),
            EngineReport::Loaded,
            Vec::new(),
        )
        .unwrap();
    assert!(results.is_empty());
    assert_eq!(backend.executors.len(), 1);
}
