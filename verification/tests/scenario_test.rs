use automato::compile::{statemachine, CompileError, MachineDef};
use automato::machine::{
    restore, retrieve, Instance, InitError, Observer, RestoreError, Retriever, RetrieveError,
    StateRef, TransitionError,
};
use automato::value::{decode, encode, from_text, to_text, Encoded, JsonValue};

// The dataless machine: Queued starts, Processing completes or requeues,
// Completed is terminal.
fn plain_def() -> MachineDef {
    statemachine(
        "Job { \
            init Queued { start => Processing }, \
            Processing { complete => Completed, queue => Queued }, \
            Completed {} \
        }",
    )
    .unwrap()
}

struct Quiet {}

impl Observer for Quiet {
    type Ctx = ();
    type Error = String;
}

#[test]
fn scenario_full_walk() {
    // init yields Queued; start yields Processing; queue cycles back to
    // Queued; complete instead yields Completed, which declares no
    // further transition.
    let def = plain_def();
    let job = Instance::init(
        def,
        &mut (),
        Quiet {},
        "Queued",
        Some("job-1".to_string()),
        None,
        None,
    )
    .unwrap();
    assert_eq!(job.state_name().as_str(), "Queued");
    assert_eq!(job.id().as_str(), "job-1");

    let job = job.transition(&mut (), "start", None).unwrap();
    assert_eq!(job.state_name().as_str(), "Processing");

    let job = job.transition(&mut (), "queue", None).unwrap();
    assert_eq!(job.state_name().as_str(), "Queued");

    let job = job.transition(&mut (), "start", None).unwrap();
    let job = job.transition(&mut (), "complete", None).unwrap();
    assert_eq!(job.state_name().as_str(), "Completed");

    // the terminal state declares no transitions in the compiled graph
    let def2 = plain_def();
    let completed = def2
        .states
        .iter()
        .find(|s| s.name == "Completed")
        .unwrap();
    assert_eq!(completed.transitions.len(), 0);
}

#[test]
fn scenario_init_without_id_is_empty() {
    // a default-behaviour observer echoes the absent candidate id back
    let result = Instance::init(plain_def(), &mut (), Quiet {}, "Queued", None, None, None);
    assert!(matches!(result, Err(InitError::EmptyId)));
}

#[test]
fn scenario_exit_hook_failure_blocks_transition() {
    struct FailOnProcessingExit {}

    impl Observer for FailOnProcessingExit {
        type Ctx = ();
        type Error = String;

        fn on_exit(
            &mut self,
            _ctx: &mut (),
            state: StateRef<'_>,
            _to: StateRef<'_>,
            _id: &String,
            _data: &Option<JsonValue>,
        ) -> Result<(), Self::Error> {
            if state.name == "Processing" {
                Err("processing may not be left".to_string())
            } else {
                Ok(())
            }
        }
    }

    let job = Instance::init(
        plain_def(),
        &mut (),
        FailOnProcessingExit {},
        "Queued",
        Some("job-1".to_string()),
        None,
        None,
    )
    .unwrap();
    let job = job.transition(&mut (), "start", None).unwrap();
    let result = job.transition(&mut (), "complete", None);
    match result {
        Err(TransitionError::ObserverError(msg)) => {
            assert_eq!(msg, "processing may not be left");
        }
        Ok(_) => panic!("the failed exit hook must not produce a Completed instance"),
    }
}

#[test]
fn hook_order_is_transition_exit_enter() {
    struct Recorder {}

    impl Observer for Recorder {
        type Ctx = Vec<String>;
        type Error = ();

        fn on_transition(
            &mut self,
            ctx: &mut Vec<String>,
            _from: StateRef<'_>,
            _to: StateRef<'_>,
            _id: &String,
            _data: &Option<JsonValue>,
        ) -> Result<(), Self::Error> {
            ctx.push("on_transition".to_string());
            Ok(())
        }

        fn on_enter(
            &mut self,
            ctx: &mut Vec<String>,
            state: StateRef<'_>,
            from: Option<StateRef<'_>>,
            _id: &String,
            _data: &Option<JsonValue>,
        ) -> Result<(), Self::Error> {
            let tag = match from {
                Some(f) => format!("on_enter {} from {}", state.name, f.name),
                None => format!("on_enter {}", state.name),
            };
            ctx.push(tag);
            Ok(())
        }

        fn on_exit(
            &mut self,
            ctx: &mut Vec<String>,
            state: StateRef<'_>,
            to: StateRef<'_>,
            _id: &String,
            _data: &Option<JsonValue>,
        ) -> Result<(), Self::Error> {
            ctx.push(format!("on_exit {} to {}", state.name, to.name));
            Ok(())
        }
    }

    let mut log: Vec<String> = Vec::new();
    let job = Instance::init(
        plain_def(),
        &mut log,
        Recorder {},
        "Queued",
        Some("job-1".to_string()),
        None,
        None,
    )
    .unwrap();
    let _job = job.transition(&mut log, "start", None).unwrap();
    assert_eq!(
        log,
        vec![
            "on_enter Queued".to_string(),
            "on_transition".to_string(),
            "on_exit Queued to Processing".to_string(),
            "on_enter Processing from Queued".to_string(),
        ]
    );
}

#[test]
fn restore_unknown_state_is_invalid_state() {
    let result = restore(
        plain_def(),
        Quiet {},
        "job-1".to_string(),
        "Missing".to_string(),
        None,
        None,
    );
    assert!(matches!(result, Err(RestoreError::InvalidState)));
}

#[test]
fn restore_missing_data_is_empty_data() {
    let def = statemachine("Job { init Queued: QueuedData {} }").unwrap();
    let result = restore(
        def,
        Quiet {},
        "job-1".to_string(),
        "Queued".to_string(),
        None,
        None,
    );
    assert!(matches!(result, Err(RestoreError::EmptyData)));
}

#[test]
fn restore_malformed_data_is_invalid_data() {
    let def = statemachine("Job { init Queued: QueuedData {} }").unwrap();
    let result = restore(
        def,
        Quiet {},
        "job-1".to_string(),
        "Queued".to_string(),
        None,
        Some(Encoded::Json("{{{".to_string())),
    );
    assert!(matches!(result, Err(RestoreError::InvalidData)));
}

#[test]
fn restore_unexpected_data_is_refused() {
    let result = restore(
        plain_def(),
        Quiet {},
        "job-1".to_string(),
        "Queued".to_string(),
        Some(encode(&JsonValue::Null)),
        None,
    );
    assert!(matches!(result, Err(RestoreError::UnexpectedData)));
}

#[test]
fn restore_round_trip_reproduces_payloads() {
    let def = statemachine("Job: JobData { init Queued: QueuedData {} }").unwrap();
    let shared = JsonValue::Obj(vec![
        ("attempts".to_string(), JsonValue::Int(3)),
        ("label".to_string(), JsonValue::Str("a \"quoted\" name".to_string())),
    ]);
    let state = JsonValue::Arr(vec![
        JsonValue::Bool(true),
        JsonValue::Null,
        JsonValue::Int(-42),
    ]);
    let shared_text = match encode(&shared) {
        Encoded::Json(t) => t,
    };
    let state_text = match encode(&state) {
        Encoded::Json(t) => t,
    };

    let job = restore(
        def,
        Quiet {},
        "job-1".to_string(),
        "Queued".to_string(),
        Some(Encoded::Json(shared_text.clone())),
        Some(Encoded::Json(state_text.clone())),
    )
    .unwrap();

    let re_shared = match job.data() {
        Some(v) => to_text(v),
        None => panic!("expected a shared payload"),
    };
    let re_state = match job.state_data() {
        Some(v) => to_text(v),
        None => panic!("expected a state payload"),
    };
    assert_eq!(re_shared, shared_text);
    assert_eq!(re_state, state_text);
}

struct FailingFetch {}

impl Observer for FailingFetch {
    type Ctx = ();
    type Error = String;
}

impl Retriever for FailingFetch {
    type Ctx = ();
    type Error = String;

    fn on_retrieve(
        &mut self,
        _ctx: &mut (),
        _id: &String,
    ) -> Result<(String, Option<Encoded>, Option<Encoded>), Self::Error> {
        Err("storage unreachable".to_string())
    }
}

#[test]
fn retrieve_surfaces_retriever_failure() {
    let result = retrieve(plain_def(), &mut (), FailingFetch {}, "job-1".to_string());
    match result {
        Err(RetrieveError::RetrieverError(msg)) => assert_eq!(msg, "storage unreachable"),
        _ => panic!("expected the retriever's own failure"),
    }
}

struct StaleFetch {}

impl Observer for StaleFetch {
    type Ctx = ();
    type Error = String;
}

impl Retriever for StaleFetch {
    type Ctx = ();
    type Error = String;

    fn on_retrieve(
        &mut self,
        _ctx: &mut (),
        _id: &String,
    ) -> Result<(String, Option<Encoded>, Option<Encoded>), Self::Error> {
        Ok(("Vanished".to_string(), None, None))
    }
}

#[test]
fn retrieve_surfaces_restore_failure() {
    let result = retrieve(plain_def(), &mut (), StaleFetch {}, "job-1".to_string());
    assert!(matches!(
        result,
        Err(RetrieveError::RestoreError(RestoreError::InvalidState))
    ));
}

#[test]
fn compile_rejects_undefined_target() {
    let result = statemachine("Job { init Queued { start => Missing } }");
    match result {
        Err(CompileError::UndefinedTarget(name)) => assert_eq!(name, "Missing"),
        _ => panic!("expected the undeclared target to be refused"),
    }
}

#[test]
fn compile_rejects_duplicate_state() {
    let result = statemachine("Job { init Queued {}, Queued {} }");
    match result {
        Err(CompileError::DuplicateState(name)) => assert_eq!(name, "Queued"),
        _ => panic!("expected the duplicate state to be refused"),
    }
}

#[test]
fn compile_rejects_duplicate_event() {
    let result =
        statemachine("Job { init Queued { go => Queued, go => Done }, Done {} }");
    match result {
        Err(CompileError::DuplicateEvent(name)) => assert_eq!(name, "go"),
        _ => panic!("expected the duplicate event to be refused"),
    }
}

#[test]
fn compile_rejects_stray_character() {
    assert!(matches!(
        statemachine("Job % { init Queued {} }"),
        Err(CompileError::Lex)
    ));
}

#[test]
fn compile_rejects_malformed_braces() {
    assert!(matches!(statemachine("Job {"), Err(CompileError::Syntax)));
    assert!(matches!(
        statemachine("Job { init Queued { start Processing } }"),
        Err(CompileError::Syntax)
    ));
    assert!(matches!(
        statemachine("Job : { init Queued {} }"),
        Err(CompileError::Syntax)
    ));
}

#[test]
fn compile_allows_trailing_commas() {
    let def = statemachine(
        "Job { init Queued { start => Processing, }, Processing { queue => Queued }, }",
    )
    .unwrap();
    assert_eq!(def.states.len(), 2);
    assert_eq!(def.states[0].transitions.len(), 1);
}

#[test]
fn compiled_names_are_derived() {
    let def = statemachine("DocumentFlow { init DraftCopy { submit => UnderReview }, UnderReview {} }")
        .unwrap();
    assert_eq!(def.name, "DocumentFlow");
    assert_eq!(def.wrapped_name, "WrappedDocumentFlow");
    assert_eq!(def.states[0].name, "DraftCopy");
    assert_eq!(def.states[0].enter_hook, "on_enter_draft_copy");
    assert_eq!(def.states[0].exit_hook, "on_exit_draft_copy");
    assert_eq!(def.states[0].restore_fn, "restore_draft_copy");
    assert_eq!(def.states[1].enter_hook, "on_enter_under_review");
    assert!(def.states[0].init);
    assert!(!def.states[1].init);
    assert_eq!(def.shared_data_type, None);
    assert_eq!(def.states[0].data_type, None);
}

#[test]
fn compiled_graph_carries_declarations() {
    let def = statemachine(
        "Tx: SharedData { \
            init Pending: AssociatedData { submit => Submitting, cancel => Cancelled }, \
            Submitting: AssociatedData { accept => Accepted, decline => Declined, await_submit => Submitted, }, \
            Submitted: AssociatedData { accept => Accepted, decline => Declined, }, \
            Accepted: AssociatedData {}, \
            Cancelled: AssociatedData {}, \
            Declined: AssociatedData {} \
        }",
    )
    .unwrap();
    assert_eq!(def.name, "Tx");
    assert_eq!(def.shared_data_type.as_deref(), Some("SharedData"));
    assert_eq!(def.states.len(), 6);
    assert_eq!(def.states[1].name, "Submitting");
    assert_eq!(def.states[1].transitions.len(), 3);
    assert_eq!(def.states[1].transitions[2].event, "await_submit");
    assert_eq!(def.states[1].transitions[2].target, "Submitted");
    assert_eq!(def.states[0].data_type.as_deref(), Some("AssociatedData"));
}

#[test]
fn canonical_text_of_values() {
    assert_eq!(to_text(&JsonValue::Null), "null");
    assert_eq!(to_text(&JsonValue::Bool(true)), "true");
    assert_eq!(to_text(&JsonValue::Bool(false)), "false");
    assert_eq!(to_text(&JsonValue::Int(0)), "0");
    assert_eq!(to_text(&JsonValue::Int(-42)), "-42");
    assert_eq!(to_text(&JsonValue::Int(i64::MIN)), "-9223372036854775808");
    assert_eq!(to_text(&JsonValue::Int(i64::MAX)), "9223372036854775807");
    assert_eq!(
        to_text(&JsonValue::Str("say \"hi\" \\ there".to_string())),
        "\"say \\\"hi\\\" \\\\ there\""
    );
    assert_eq!(to_text(&JsonValue::Arr(vec![])), "[]");
    assert_eq!(to_text(&JsonValue::Obj(vec![])), "{}");
    assert_eq!(
        to_text(&JsonValue::Obj(vec![
            ("a".to_string(), JsonValue::Int(1)),
            (
                "b".to_string(),
                JsonValue::Arr(vec![JsonValue::Int(2), JsonValue::Str("x".to_string())])
            ),
        ])),
        "{\"a\":1,\"b\":[2,\"x\"]}"
    );
}

#[test]
fn parsing_canonical_text() {
    assert!(matches!(from_text("null"), Some(JsonValue::Null)));
    assert!(matches!(from_text("-7"), Some(JsonValue::Int(-7))));
    assert!(matches!(from_text("007"), Some(JsonValue::Int(7))));
    assert!(from_text("9223372036854775808").is_none());
    assert!(matches!(
        from_text("-9223372036854775808"),
        Some(JsonValue::Int(i64::MIN))
    ));
    assert!(from_text("").is_none());
    assert!(from_text("{{{").is_none());
    assert!(from_text("[1,2").is_none());
    assert!(from_text("nul").is_none());
    assert!(from_text("1 2").is_none());
    match from_text("{\"k\":[true,null]}") {
        Some(JsonValue::Obj(ps)) => {
            assert_eq!(ps.len(), 1);
            assert_eq!(ps[0].0, "k");
            match &ps[0].1 {
                JsonValue::Arr(es) => {
                    assert!(matches!(es[0], JsonValue::Bool(true)));
                    assert!(matches!(es[1], JsonValue::Null));
                }
                _ => panic!("expected an array member"),
            }
        }
        _ => panic!("expected an object"),
    }
}

#[test]
fn decode_inverts_encode() {
    let v = JsonValue::Obj(vec![
        ("text".to_string(), JsonValue::Str("a\\b\"c".to_string())),
        ("n".to_string(), JsonValue::Int(-100)),
        ("inner".to_string(), JsonValue::Obj(vec![])),
    ]);
    let e = encode(&v);
    let back = decode(&e).unwrap();
    assert_eq!(to_text(&back), to_text(&v));
}

#[test]
fn init_observer_failure_surfaces() {
    struct RefuseInit {}

    impl Observer for RefuseInit {
        type Ctx = ();
        type Error = String;

        fn on_init(
            &mut self,
            _ctx: &mut (),
            _to: StateRef<'_>,
            _id: Option<String>,
            _data: &Option<JsonValue>,
        ) -> Result<Option<String>, Self::Error> {
            Err("not today".to_string())
        }
    }

    let result = Instance::init(
        plain_def(),
        &mut (),
        RefuseInit {},
        "Queued",
        Some("job-1".to_string()),
        None,
        None,
    );
    match result {
        Err(InitError::ObserverError(msg)) => assert_eq!(msg, "not today"),
        _ => panic!("expected the observer's own failure"),
    }
}

#[test]
fn derived_indices_of_the_definition() {
    let def = statemachine(
        "Flow { init A { go => B }, B { back => A }, init C {} }",
    )
    .unwrap();
    assert_eq!(
        def.init_state_names(),
        vec!["A".to_string(), "C".to_string()]
    );
    assert!(def.is_init_state("A"));
    assert!(!def.is_init_state("B"));
    assert!(def.is_init_state("C"));
    assert!(!def.is_init_state("Missing"));
    assert_eq!(def.state_position(&"B".to_string()), Some(1));
    assert_eq!(def.state_position(&"Missing".to_string()), None);

    let a = Instance::init(
        def,
        &mut (),
        Quiet {},
        "A",
        Some("f-1".to_string()),
        None,
        None,
    )
    .unwrap();
    assert!(a.has_event("go"));
    assert!(!a.has_event("back"));
    assert_eq!(a.event_target("go").as_str(), "B");
    assert!(!a.event_data_declared("go"));

    let b = a.transition(&mut (), "go", None).unwrap();
    assert_eq!(b.state_name().as_str(), "B");
    assert_eq!(b.event_target("back").as_str(), "A");
}

#[test]
fn whitespace_separates_tokens() {
    let def = statemachine(
        "Job\n{\n\tinit Queued\t{ start => Processing },\r\n Processing {} }",
    )
    .unwrap();
    assert_eq!(def.states.len(), 2);
    assert_eq!(def.states[0].transitions[0].event, "start");
}

#[test]
fn init_keyword_flags_the_following_name() {
    // the first identifier of a state reading `init` always flags the
    // state; the next identifier is its name, whatever it reads
    let def = statemachine("M { init init {} }").unwrap();
    assert_eq!(def.states[0].name, "init");
    assert!(def.states[0].init);
    assert!(statemachine("M { init {} }").is_err());
}

#[test]
fn empty_machine_compiles() {
    let def = statemachine("M {}").unwrap();
    assert_eq!(def.states.len(), 0);
    assert_eq!(def.init_state_names().len(), 0);
    assert_eq!(def.wrapped_name, "WrappedM");
}
