use automato::compile::{statemachine, MachineDef};
use automato::machine::{retrieve, Instance, InitError, Observer, Retriever, StateRef};
use automato::value::{encode, Encoded, JsonValue};

fn job_def() -> MachineDef {
    statemachine(
        "Job: JobData { \
            init Queued: QueuedData { start => Processing }, \
            Processing: ProcessingData { complete => Completed, queue => Queued }, \
            Completed: CompletedData {} \
        }",
    )
    .unwrap()
}

fn unit_obj() -> JsonValue {
    JsonValue::Obj(vec![])
}

struct Log {}

impl Observer for Log {
    type Ctx = ();
    type Error = ();
}

impl Retriever for Log {
    type Ctx = ();
    type Error = ();

    fn on_retrieve(
        &mut self,
        _ctx: &mut (),
        _id: &String,
    ) -> Result<(String, Option<Encoded>, Option<Encoded>), Self::Error> {
        // return dummy item in the queued state
        Ok((
            "Queued".to_string(),
            Some(encode(&unit_obj())),
            Some(encode(&unit_obj())),
        ))
    }
}

#[test]
fn retriever() {
    let mut ctx = ();
    let job = retrieve(job_def(), &mut ctx, Log {}, "123123".to_string()).unwrap();
    match job.state_name().as_str() {
        "Queued" => {
            job.transition(&mut ctx, "start", Some(unit_obj())).unwrap();
        }
        "Processing" => {
            job.transition(&mut ctx, "complete", Some(unit_obj())).unwrap();
        }
        "Completed" => (),
        other => panic!("unexpected state {}", other),
    };
}

#[test]
fn init() {
    let _job = Instance::init(
        job_def(),
        &mut (),
        Log {},
        "Queued",
        Some("foo".to_string()),
        Some(unit_obj()),
        Some(unit_obj()),
    )
    .unwrap();
}

#[test]
fn init_without_id() {
    let result = Instance::init(
        job_def(),
        &mut (),
        Log {},
        "Queued",
        None,
        Some(unit_obj()),
        Some(unit_obj()),
    );
    let err = result.err().unwrap();
    match err {
        InitError::EmptyId => {}
        _ => panic!("expected InitErr::EmptyId"),
    };
}

#[test]
fn init_with_deferred_id() {
    struct DeferredIdInitLog {}

    impl Observer for DeferredIdInitLog {
        type Ctx = ();
        type Error = ();

        fn on_init(
            &mut self,
            _ctx: &mut (),
            _to: StateRef<'_>,
            _id: Option<String>,
            _data: &Option<JsonValue>,
        ) -> Result<Option<String>, Self::Error> {
            Ok(Some("foo".to_string()))
        }
    }

    let job = Instance::init(
        job_def(),
        &mut (),
        DeferredIdInitLog {},
        "Queued",
        None,
        Some(unit_obj()),
        Some(unit_obj()),
    )
    .unwrap();
    assert_eq!(job.id().as_str(), "foo");
}

#[test]
fn on_init() {
    struct InitLog {
        initiated_to_state: Option<String>,
    }

    impl Observer for &mut InitLog {
        type Ctx = ();
        type Error = ();

        fn on_init(
            &mut self,
            _ctx: &mut (),
            to: StateRef<'_>,
            id: Option<String>,
            _data: &Option<JsonValue>,
        ) -> Result<Option<String>, Self::Error> {
            self.initiated_to_state = Some(to.to_string());
            Ok(id)
        }
    }

    let mut init_log = InitLog {
        initiated_to_state: None,
    };

    let job = Instance::init(
        job_def(),
        &mut (),
        &mut init_log,
        "Queued",
        Some("foo".to_string()),
        Some(unit_obj()),
        Some(unit_obj()),
    )
    .unwrap();
    drop(job);

    match init_log.initiated_to_state {
        Some(state) => assert_eq!("Queued", state),
        None => panic!("expected some initiated_to_state value"),
    };
}

#[test]
fn read_id() {
    let job = Instance::init(
        job_def(),
        &mut (),
        Log {},
        "Queued",
        Some("foo".to_string()),
        Some(unit_obj()),
        Some(unit_obj()),
    )
    .unwrap();
    let id = job.id();

    assert_eq!(id.as_str(), "foo");
}

#[test]
fn read_data() {
    let job = Instance::init(
        job_def(),
        &mut (),
        Log {},
        "Queued",
        Some("foo".to_string()),
        Some(unit_obj()),
        Some(unit_obj()),
    )
    .unwrap();
    let _job_data = job.data();
    let _job_state_data = job.state_data();
}

#[test]
fn transition() {
    let job = Instance::init(
        job_def(),
        &mut (),
        Log {},
        "Queued",
        Some("foo".to_string()),
        Some(unit_obj()),
        Some(unit_obj()),
    )
    .unwrap();
    let _job = job
        .transition(&mut (), "start", Some(unit_obj()))
        .unwrap();
}

#[test]
fn on_transition() {
    struct TransitionLog {
        from: Option<String>,
        to: Option<String>,
    }

    impl Observer for &mut TransitionLog {
        type Ctx = ();
        type Error = ();

        fn on_transition(
            &mut self,
            _ctx: &mut (),
            from: StateRef<'_>,
            to: StateRef<'_>,
            _id: &String,
            _data: &Option<JsonValue>,
        ) -> Result<(), Self::Error> {
            self.from = Some(from.to_string());
            self.to = Some(to.to_string());
            Ok(())
        }
    }

    let mut transition_log = TransitionLog {
        from: None,
        to: None,
    };

    let job = Instance::init(
        job_def(),
        &mut (),
        &mut transition_log,
        "Queued",
        Some("foo".to_string()),
        Some(unit_obj()),
        Some(unit_obj()),
    )
    .unwrap();
    let job = job
        .transition(&mut (), "start", Some(unit_obj()))
        .unwrap();
    drop(job);

    match transition_log.from {
        Some(state) => assert_eq!("Queued", state),
        None => panic!("expected some from value"),
    };

    match transition_log.to {
        Some(state) => assert_eq!("Processing", state),
        None => panic!("expected some to value"),
    };
}
