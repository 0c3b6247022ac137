//! The runtime contract of a compiled machine: typed instances, observer
//! lifecycle hooks, and the restore/retrieve protocol.
//!
//! The compile-time typestate guarantee of the generated code — a
//! transition operation exists only on the source state's instance type —
//! is carried here by preconditions: `transition` may only be called for a
//! declared `(state, event)` pair, and `init` only for a state flagged
//! `init`, and the verifier enforces both at every verified call site.
use vstd::prelude::*;
use crate::compile::{MachineDef, MachineDefV};
use crate::value::{
    decode_spec, encode_spec, Encoded, EncodedV, JsonValue, JsonValueV, from_text,
};

verus! {

broadcast use vstd::seq::group_seq_axioms, vstd::std_specs::vec::group_vec_axioms;

/// Why `init` failed.
#[derive(Debug)]
pub enum InitError<E> {
    /// Neither the caller nor the observer supplied an identifier.
    EmptyId,
    /// A lifecycle hook failed; the instance was not produced.
    ObserverError(E),
}

/// Why a transition failed: a lifecycle hook failed, and no successor
/// instance was produced. No other failure mode exists at this layer.
#[derive(Debug)]
pub enum TransitionError<E> {
    ObserverError(E),
}

/// Why a restore failed.
#[derive(Debug, PartialEq, Eq, Structural)]
pub enum RestoreError {
    /// Data was expected and none was supplied.
    EmptyData,
    /// Data was supplied where none is declared.
    UnexpectedData,
    /// A supplied payload's serialized form is malformed.
    InvalidData,
    /// The named state is not declared.
    InvalidState,
}

/// Why a retrieve failed: either the fetch collaborator failed, or the
/// fetched triple was refused by `restore`.
#[derive(Debug)]
pub enum RetrieveError<E> {
    RestoreError(RestoreError),
    RetrieverError(E),
}

/// A borrowed descriptor of one state of a running machine: its name and
/// its per-state data, handed to observer hooks.
pub struct StateRef<'a> {
    pub name: &'a String,
    pub data: &'a Option<JsonValue>,
}

impl<'a> StateRef<'a> {
    /// The state's name.
    pub fn to_string(&self) -> (r: String)
        ensures
            r@ == self.name@,
    {
        self.name.clone()
    }

    /// The state's data, re-encoded; `None` when the state carries none.
    pub fn data_as_json(&self) -> (r: Option<Encoded>)
        ensures
            match r {
                Some(e) => self.data.deep_view() matches Some(v) && e@ == encode_spec(v),
                None => self.data.deep_view() is None,
            },
    {
        match self.data {
            Some(v) => Some(crate::value::encode(v)),
            None => None,
        }
    }
}

/// The lifecycle collaborator. Every hook defaults to a no-op success, so
/// an implementer overrides only what it cares about; `on_init` defaults
/// to echoing the candidate identifier back.
///
/// `on_enter` receives the predecessor as an `Option`: `init` passes
/// `None`, a transition always passes the source state.
pub trait Observer: Sized {
    /// The caller-supplied execution context handed through to hooks.
    type Ctx;

    /// The implementer's own error type.
    type Error;

    /// Called by `init` before the instance exists; returns the
    /// identifier to use, allowing the implementer to defer or override
    /// identifier assignment.
    fn on_init(
        &mut self,
        ctx: &mut Self::Ctx,
        to: StateRef<'_>,
        id: Option<String>,
        data: &Option<JsonValue>,
    ) -> Result<Option<String>, Self::Error> {
        Ok(id)
    }

    /// Called first on every transition.
    fn on_transition(
        &mut self,
        ctx: &mut Self::Ctx,
        from: StateRef<'_>,
        to: StateRef<'_>,
        id: &String,
        data: &Option<JsonValue>,
    ) -> Result<(), Self::Error> {
        Ok(())
    }

    /// Called when `state` is entered, after the exit hook of the
    /// predecessor, if any.
    fn on_enter(
        &mut self,
        ctx: &mut Self::Ctx,
        state: StateRef<'_>,
        from: Option<StateRef<'_>>,
        id: &String,
        data: &Option<JsonValue>,
    ) -> Result<(), Self::Error> {
        Ok(())
    }

    /// Called when `state` is left, before the enter hook of the
    /// successor.
    fn on_exit(
        &mut self,
        ctx: &mut Self::Ctx,
        state: StateRef<'_>,
        to: StateRef<'_>,
        id: &String,
        data: &Option<JsonValue>,
    ) -> Result<(), Self::Error> {
        Ok(())
    }
}

/// The fetch collaborator behind `retrieve`: looks a persisted machine up
/// by identifier and hands back its state name and encoded payloads.
pub trait Retriever: Sized {
    /// The caller-supplied execution context handed through to the fetch.
    type Ctx;

    /// The implementer's own error type.
    type Error;

    /// Fetches `(state_name, shared_encoded, state_encoded)` for `id`.
    fn on_retrieve(
        &mut self,
        ctx: &mut Self::Ctx,
        id: &String,
    ) -> Result<(String, Option<Encoded>, Option<Encoded>), Self::Error>;
}

/// A live, typed handle on a machine: its definition, its bound observer,
/// its identifier, its current state and the data payloads. Instances are
/// created by `init`, `restore` or `retrieve` and advanced only by
/// `transition`, which consumes the old instance.
pub struct Instance<Obs: Observer> {
    def: MachineDef,
    observer: Obs,
    id: String,
    state: usize,
    state_data: Option<JsonValue>,
    shared: Option<JsonValue>,
}

/// Model of a live instance.
pub ghost struct InstanceV<Obs> {
    pub def: MachineDefV,
    pub observer: Obs,
    pub id: Seq<char>,
    pub state: int,
    pub state_data: Option<JsonValueV>,
    pub shared: Option<JsonValueV>,
}

/// Well-formedness of an instance model: the definition is well formed,
/// the state index is in range, and each payload is present exactly when
/// the definition declares data for it.
pub open spec fn instance_wf<Obs>(v: InstanceV<Obs>) -> bool {
    &&& v.def.wf()
    &&& 0 <= v.state < v.def.states.len()
    &&& (v.state_data is Some <==> v.def.states[v.state].data_type is Some)
    &&& (v.shared is Some <==> v.def.shared_data_type is Some)
}

/// In a well-formed definition, a transition found at `j` for `ev` out of
/// the state at `si`, and a state found at `ti` under that transition's
/// target name, resolve to the transition the specification speaks of.
proof fn lemma_event_resolution(d: MachineDefV, si: int, ev: Seq<char>, j: int, ti: int)
    requires
        d.wf(),
        0 <= si < d.states.len(),
        0 <= j < d.states[si].transitions.len(),
        d.states[si].transitions[j].event == ev,
        0 <= ti < d.states.len(),
        d.states[ti].name == d.states[si].transitions[j].target,
    ensures
        ti == d.transition_target(si, ev),
{
    let jj = choose|jj: int|
        0 <= jj < d.states[si].transitions.len() && #[trigger] d.states[si].transitions[jj].event
            == ev;
    assert(d.events_unique());
    assert(d.states[si].transitions[jj].event == d.states[si].transitions[j].event);
    assert(jj == j);
    let tgt = d.states[si].transitions[j].target;
    let t0 = d.state_index(tgt);
    assert(d.has_state(tgt));
    assert(0 <= t0 < d.states.len() && d.states[t0].name == tgt);
    assert(d.states[ti].name == d.states[t0].name);
    assert(d.names_unique());
    assert(ti == t0);
}

/// Settles the identifier an instance is created under, from what the
/// initialization hook returned: an absent identifier is refused with
/// `EmptyId`, exactly then.
pub fn resolve_identifier<E>(picked: Option<String>) -> (r: Result<String, InitError<E>>)
    ensures
        match r {
            Ok(id) => picked matches Some(p) && id == p,
            Err(e) => picked is None && e is EmptyId,
        },
{
    match picked {
        Some(p) => Ok(p),
        None => Err(InitError::EmptyId),
    }
}

impl<Obs: Observer> View for Instance<Obs> {
    type V = InstanceV<Obs>;

    closed spec fn view(&self) -> InstanceV<Obs> {
        InstanceV {
            def: self.def@,
            observer: self.observer,
            id: self.id@,
            state: self.state as int,
            state_data: self.state_data.deep_view(),
            shared: self.shared.deep_view(),
        }
    }
}

/// Finds the transition for this event out of the state at `si`.
fn find_transition(def: &MachineDef, si: usize, event: &String) -> (r: Option<usize>)
    requires
        si < def@.states.len(),
    ensures
        match r {
            Some(j) => j < def@.states[si as int].transitions.len() && def@.states[
                si as int
            ].transitions[j as int].event == event@,
            None => !def@.has_transition(si as int, event@),
        },
{
    let n = def.states[si].transitions.len();
    proof {
        assert(def@.states[si as int].transitions.len() == n);
    }
    let mut j: usize = 0;
    while j < n
        invariant
            j <= n,
            si < def@.states.len(),
            n == def@.states[si as int].transitions.len(),
            forall|k: int|
                0 <= k < j ==> #[trigger] def@.states[si as int].transitions[k].event != event@,
        decreases n - j,
    {
        if def.states[si].transitions[j].event == *event {
            return Some(j);
        }
        j = j + 1;
    }
    None
}

impl<Obs: Observer> Instance<Obs> {
    /// The instance's identifier.
    pub fn id(&self) -> (r: &String)
        ensures
            r@ == self@.id,
    {
        &self.id
    }

    /// The shared data payload; `None` when the machine declares none.
    pub fn data(&self) -> (r: &Option<JsonValue>)
        ensures
            r.deep_view() == self@.shared,
    {
        &self.shared
    }

    /// The current state's data payload; `None` when that state declares
    /// none.
    pub fn state_data(&self) -> (r: &Option<JsonValue>)
        ensures
            r.deep_view() == self@.state_data,
    {
        &self.state_data
    }

    /// The current state's name.
    pub fn state_name(&self) -> (r: &String)
        requires
            instance_wf(self@),
        ensures
            r@ == self@.def.states[self@.state].name,
    {
        &self.def.states[self.state].name
    }

    /// Whether the current state declares a transition for `event`:
    /// exactly the operations of this instance's type.
    pub fn has_event(&self, event: &str) -> (r: bool)
        requires
            instance_wf(self@),
        ensures
            r == self@.def.has_transition(self@.state, event@),
    {
        let owned = event.to_owned();
        match find_transition(&self.def, self.state, &owned) {
            Some(_) => true,
            None => false,
        }
    }

    /// The name of the state that the transition for `event` leads to.
    pub fn event_target(&self, event: &str) -> (r: &String)
        requires
            instance_wf(self@),
            self@.def.has_transition(self@.state, event@),
        ensures
            r@ == self@.def.states[self@.def.transition_target(self@.state, event@)].name,
    {
        let owned = event.to_owned();
        let found_tr = find_transition(&self.def, self.state, &owned);
        proof {
            assert(found_tr is Some);
        }
        let j = found_tr.unwrap();
        let found_st = self.def.state_position(&self.def.states[self.state].transitions[j].target);
        proof {
            assert(self@.def.targets_declared());
            assert(self@.def.has_state(
                self@.def.states[self@.state].transitions[j as int].target,
            ));
            assert(found_st is Some);
        }
        let ti = found_st.unwrap();
        proof {
            lemma_event_resolution(self@.def, self@.state, event@, j as int, ti as int);
        }
        &self.def.states[ti].name
    }

    /// Whether the state that the transition for `event` leads to declares
    /// per-state data: exactly the payload the transition operation takes.
    pub fn event_data_declared(&self, event: &str) -> (r: bool)
        requires
            instance_wf(self@),
            self@.def.has_transition(self@.state, event@),
        ensures
            r == (self@.def.states[self@.def.transition_target(self@.state, event@)].data_type
                is Some),
    {
        let owned = event.to_owned();
        let found_tr = find_transition(&self.def, self.state, &owned);
        proof {
            assert(found_tr is Some);
        }
        let j = found_tr.unwrap();
        let found_st = self.def.state_position(&self.def.states[self.state].transitions[j].target);
        proof {
            assert(self@.def.targets_declared());
            assert(self@.def.has_state(
                self@.def.states[self@.state].transitions[j as int].target,
            ));
            assert(found_st is Some);
        }
        let ti = found_st.unwrap();
        proof {
            lemma_event_resolution(self@.def, self@.state, event@, j as int, ti as int);
        }
        self.def.states[ti].data_type.is_some()
    }

    /// The machine definition this instance runs under.
    pub fn definition(&self) -> (r: &MachineDef)
        ensures
            r@ == self@.def,
    {
        &self.def
    }

    /// Creates a fresh instance in the entry-point state `state_name`,
    /// which must be flagged `init` — for verified callers the
    /// constructor exists only on entry-point states. Calls the
    /// observer's `on_init`; an absent identifier from it is `EmptyId`
    /// and no instance is produced. Then calls the state's enter hook
    /// with no predecessor and returns the instance.
    pub fn init(
        def: MachineDef,
        ctx: &mut Obs::Ctx,
        observer: Obs,
        state_name: &str,
        id: Option<String>,
        shared_data: Option<JsonValue>,
        state_data: Option<JsonValue>,
    ) -> (r: Result<Instance<Obs>, InitError<Obs::Error>>)
        requires
            def@.wf(),
            def@.has_state(state_name@),
            def@.states[def@.state_index(state_name@)].init,
            shared_data is Some <==> def@.shared_data_type is Some,
            state_data is Some <==> def@.states[def@.state_index(state_name@)].data_type is Some,
        ensures
            r matches Ok(inst) ==> {
                &&& instance_wf(inst@)
                &&& inst@.def == def@
                &&& inst@.state == def@.state_index(state_name@)
                &&& inst@.shared == shared_data.deep_view()
                &&& inst@.state_data == state_data.deep_view()
            },
    {
        let owned = state_name.to_owned();
        let found = def.state_position(&owned);
        proof {
            assert(found is Some);
        }
        let si = found.unwrap();
        proof {
            let i0 = def@.state_index(state_name@);
            assert(0 <= i0 < def@.states.len() && def@.states[i0].name == state_name@);
            assert(def@.states[si as int].name == def@.states[i0].name);
            assert(def@.names_unique());
            assert(si as int == i0);
        }
        let mut observer = observer;
        let to_ref = StateRef { name: &def.states[si].name, data: &state_data };
        let picked = match observer.on_init(ctx, to_ref, id, &shared_data) {
            Ok(p) => p,
            Err(e) => {
                return Err(InitError::ObserverError(e));
            },
        };
        let picked_id = match resolve_identifier::<Obs::Error>(picked) {
            Ok(p) => p,
            Err(e) => {
                return Err(e);
            },
        };
        let enter_ref = StateRef { name: &def.states[si].name, data: &state_data };
        match observer.on_enter(ctx, enter_ref, None, &picked_id, &shared_data) {
            Ok(_) => {},
            Err(e) => {
                return Err(InitError::ObserverError(e));
            },
        }
        Ok(
            Instance {
                def,
                observer,
                id: picked_id,
                state: si,
                state_data,
                shared: shared_data,
            },
        )
    }

    /// Performs the declared transition for `event` out of the current
    /// state — for verified callers the operation exists only for
    /// declared `(state, event)` pairs, so no sequence of operations can
    /// reach a state outside the declared graph. Consumes the instance;
    /// on success the successor instance is typed to the declared target
    /// state, carries the shared data unchanged, the new per-state
    /// payload, and the same identifier. The effects run in order:
    /// `on_transition`, then the source state's exit hook, then the
    /// target state's enter hook, then construction; any hook failure
    /// aborts the sequence, surfaces as `ObserverError`, and no successor
    /// is produced.
    pub fn transition(
        self,
        ctx: &mut Obs::Ctx,
        event: &str,
        next_state_data: Option<JsonValue>,
    ) -> (r: Result<Instance<Obs>, TransitionError<Obs::Error>>)
        requires
            instance_wf(self@),
            self@.def.has_transition(self@.state, event@),
            next_state_data is Some <==> self@.def.states[self@.def.transition_target(
                self@.state,
                event@,
            )].data_type is Some,
        ensures
            r matches Ok(inst) ==> {
                &&& instance_wf(inst@)
                &&& inst@.def == self@.def
                &&& inst@.id == self@.id
                &&& inst@.state == self@.def.transition_target(self@.state, event@)
                &&& inst@.shared == self@.shared
                &&& inst@.state_data == next_state_data.deep_view()
            },
    {
        let owned = event.to_owned();
        let mut this = self;
        let found_tr = find_transition(&this.def, this.state, &owned);
        proof {
            assert(found_tr is Some);
        }
        let j = found_tr.unwrap();
        let target_name = this.def.states[this.state].transitions[j].target.clone();
        let found_st = this.def.state_position(&target_name);
        proof {
            assert(this@.def.targets_declared());
            assert(this@.def.has_state(
                this@.def.states[this@.state].transitions[j as int].target,
            ));
            assert(found_st is Some);
        }
        let ti = found_st.unwrap();
        proof {
            lemma_event_resolution(this@.def, this@.state, event@, j as int, ti as int);
        }
        let from_ref = StateRef {
            name: &this.def.states[this.state].name,
            data: &this.state_data,
        };
        let to_ref = StateRef { name: &this.def.states[ti].name, data: &next_state_data };
        match this.observer.on_transition(ctx, from_ref, to_ref, &this.id, &this.shared) {
            Ok(_) => {},
            Err(e) => {
                return Err(TransitionError::ObserverError(e));
            },
        }
        let from_ref = StateRef {
            name: &this.def.states[this.state].name,
            data: &this.state_data,
        };
        let to_ref = StateRef { name: &this.def.states[ti].name, data: &next_state_data };
        match this.observer.on_exit(ctx, from_ref, to_ref, &this.id, &this.shared) {
            Ok(_) => {},
            Err(e) => {
                return Err(TransitionError::ObserverError(e));
            },
        }
        let from_ref = StateRef {
            name: &this.def.states[this.state].name,
            data: &this.state_data,
        };
        let to_ref = StateRef { name: &this.def.states[ti].name, data: &next_state_data };
        match this.observer.on_enter(ctx, to_ref, Some(from_ref), &this.id, &this.shared) {
            Ok(_) => {},
            Err(e) => {
                return Err(TransitionError::ObserverError(e));
            },
        }
        Ok(
            Instance {
                def: this.def,
                observer: this.observer,
                id: this.id,
                state: ti,
                state_data: next_state_data,
                shared: this.shared,
            },
        )
    }
}

/// The outcome of checking one payload against one declaration: data
/// missing where declared is `EmptyData`; data present where none is
/// declared is `UnexpectedData`; a malformed serialized form is
/// `InvalidData`; otherwise the decoded value.
pub open spec fn check_payload(declared: Option<Seq<char>>, enc: Option<EncodedV>) -> Result<
    Option<JsonValueV>,
    RestoreError,
> {
    match (declared, enc) {
        (Some(_), None) => Err(RestoreError::EmptyData),
        (None, Some(_)) => Err(RestoreError::UnexpectedData),
        (None, None) => Ok(None),
        (Some(_), Some(e)) => match decode_spec(e) {
            Some(v) => Ok(Some(v)),
            None => Err(RestoreError::InvalidData),
        },
    }
}

/// The outcome of a restore: an unknown state name is `InvalidState`;
/// otherwise the shared payload is checked first, then the per-state
/// payload; success carries the state index and the decoded payloads.
pub open spec fn restore_outcome(
    d: MachineDefV,
    name: Seq<char>,
    sh: Option<EncodedV>,
    st: Option<EncodedV>,
) -> Result<(int, Option<JsonValueV>, Option<JsonValueV>), RestoreError> {
    if !d.has_state(name) {
        Err(RestoreError::InvalidState)
    } else {
        let si = d.state_index(name);
        match check_payload(d.shared_data_type, sh) {
            Err(e) => Err(e),
            Ok(shv) => match check_payload(d.states[si].data_type, st) {
                Err(e) => Err(e),
                Ok(stv) => Ok((si, shv, stv)),
            },
        }
    }
}

/// Checks and decodes one payload against one declaration.
fn check_payload_x(declared: &Option<String>, enc: Option<Encoded>) -> (r: Result<
    Option<JsonValue>,
    RestoreError,
>)
    ensures
        match r {
            Ok(v) => check_payload(declared.deep_view(), enc.deep_view()) == Ok::<
                Option<JsonValueV>,
                RestoreError,
            >(v.deep_view()),
            Err(e) => check_payload(declared.deep_view(), enc.deep_view()) == Err::<
                Option<JsonValueV>,
                RestoreError,
            >(e),
        },
{
    match (declared, enc) {
        (Some(_), None) => Err(RestoreError::EmptyData),
        (None, Some(_)) => Err(RestoreError::UnexpectedData),
        (None, None) => Ok(None),
        (Some(_), Some(e)) => {
            let Encoded::Json(text) = e;
            match from_text(text.as_str()) {
                Some(v) => Ok(Some(v)),
                None => Err(RestoreError::InvalidData),
            }
        },
    }
}

/// Reconstructs an instance from its persisted form: the state name is
/// matched exactly against the declared state names, and the encoded
/// payloads are checked and decoded per `restore_outcome`. The restored
/// instance carries the given identifier and observer; no lifecycle hook
/// runs.
pub fn restore<Obs: Observer>(
    def: MachineDef,
    observer: Obs,
    id: String,
    state_string: String,
    shared_data: Option<Encoded>,
    state_data: Option<Encoded>,
) -> (r: Result<Instance<Obs>, RestoreError>)
    requires
        def@.wf(),
    ensures
        match r {
            Ok(inst) => restore_outcome(
                def@,
                state_string@,
                shared_data.deep_view(),
                state_data.deep_view(),
            ) matches Ok((si, shv, stv)) && instance_wf(inst@) && inst@.def == def@ && inst@.id
                == id@ && inst@.state == si && inst@.shared == shv && inst@.state_data == stv,
            Err(e) => restore_outcome(
                def@,
                state_string@,
                shared_data.deep_view(),
                state_data.deep_view(),
            ) == Err::<(int, Option<JsonValueV>, Option<JsonValueV>), RestoreError>(e),
        },
{
    let found = def.state_position(&state_string);
    let si = match found {
        Some(i) => i,
        None => {
            return Err(RestoreError::InvalidState);
        },
    };
    proof {
        let i0 = def@.state_index(state_string@);
        assert(0 <= i0 < def@.states.len() && def@.states[i0].name == state_string@);
        assert(def@.states[si as int].name == def@.states[i0].name);
        assert(def@.names_unique());
        assert(si as int == i0);
    }
    let shv = match check_payload_x(&def.shared_data_type, shared_data) {
        Ok(v) => v,
        Err(e) => {
            return Err(e);
        },
    };
    let stv = match check_payload_x(&def.states[si].data_type, state_data) {
        Ok(v) => v,
        Err(e) => {
            return Err(e);
        },
    };
    Ok(Instance { def, observer, id, state: si, state_data: stv, shared: shv })
}

/// Fetches a persisted machine through the injected fetch collaborator
/// and forwards the fetched `(state_name, shared, state)` triple to
/// `restore`; the collaborator then serves as the restored instance's
/// observer. A collaborator failure surfaces as `RetrieverError`, a
/// refused triple as `RestoreError`; whatever triple came back, a
/// successful retrieve yields a well-formed instance of this machine
/// under the given identifier.
pub fn retrieve<T: Observer + Retriever>(
    def: MachineDef,
    ctx: &mut <T as Retriever>::Ctx,
    retriever: T,
    id: String,
) -> (r: Result<Instance<T>, RetrieveError<<T as Retriever>::Error>>)
    requires
        def@.wf(),
    ensures
        r matches Ok(inst) ==> instance_wf(inst@) && inst@.def == def@ && inst@.id == id@
            && exists|nm: Seq<char>, sh: Option<EncodedV>, st: Option<EncodedV>|
            restore_outcome(def@, nm, sh, st) == Ok::<
                (int, Option<JsonValueV>, Option<JsonValueV>),
                RestoreError,
            >((inst@.state, inst@.shared, inst@.state_data)),
        r matches Err(RetrieveError::RestoreError(e)) ==> exists|
            nm: Seq<char>,
            sh: Option<EncodedV>,
            st: Option<EncodedV>,
        |
            restore_outcome(def@, nm, sh, st) == Err::<
                (int, Option<JsonValueV>, Option<JsonValueV>),
                RestoreError,
            >(e),
{
    let mut retriever = retriever;
    match retriever.on_retrieve(ctx, &id) {
        Err(e) => Err(RetrieveError::RetrieverError(e)),
        Ok((state_string, sh, st)) => {
            let ghost nm0 = state_string@;
            let ghost sh0 = sh.deep_view();
            let ghost st0 = st.deep_view();
            match restore(def, retriever, id, state_string, sh, st) {
                Ok(inst) => {
                    proof {
                        assert(restore_outcome(def@, nm0, sh0, st0) == Ok::<
                            (int, Option<JsonValueV>, Option<JsonValueV>),
                            RestoreError,
                        >((inst@.state, inst@.shared, inst@.state_data)));
                    }
                    Ok(inst)
                },
                Err(e) => {
                    proof {
                        assert(restore_outcome(def@, nm0, sh0, st0) == Err::<
                            (int, Option<JsonValueV>, Option<JsonValueV>),
                            RestoreError,
                        >(e));
                    }
                    Err(RetrieveError::RestoreError(e))
                },
            }
        },
    }
}

// ------------------------------------------------------------------
// The restore laws.
// ------------------------------------------------------------------

/// Restoring under a state name that the definition does not declare is
/// refused with `InvalidState`, whatever the payloads.
pub proof fn lemma_restore_invalid_state(
    d: MachineDefV,
    name: Seq<char>,
    sh: Option<EncodedV>,
    st: Option<EncodedV>,
)
    requires
        !d.has_state(name),
    ensures
        restore_outcome(d, name, sh, st) == Err::<
            (int, Option<JsonValueV>, Option<JsonValueV>),
            RestoreError,
        >(RestoreError::InvalidState),
{
}

/// Restoring a state that declares per-state data, with no encoded state
/// data, is refused with `EmptyData`, provided the shared payload itself
/// passes.
pub proof fn lemma_restore_empty_data(
    d: MachineDefV,
    name: Seq<char>,
    sh: Option<EncodedV>,
)
    requires
        d.has_state(name),
        d.states[d.state_index(name)].data_type is Some,
        check_payload(d.shared_data_type, sh) is Ok,
    ensures
        restore_outcome(d, name, sh, None) == Err::<
            (int, Option<JsonValueV>, Option<JsonValueV>),
            RestoreError,
        >(RestoreError::EmptyData),
{
}

/// Restoring a state that declares per-state data, with a malformed
/// encoded payload, is refused with `InvalidData`, provided the shared
/// payload itself passes.
pub proof fn lemma_restore_invalid_data(
    d: MachineDefV,
    name: Seq<char>,
    sh: Option<EncodedV>,
    st: EncodedV,
)
    requires
        d.has_state(name),
        d.states[d.state_index(name)].data_type is Some,
        check_payload(d.shared_data_type, sh) is Ok,
        decode_spec(st) is None,
    ensures
        restore_outcome(d, name, sh, Some(st)) == Err::<
            (int, Option<JsonValueV>, Option<JsonValueV>),
            RestoreError,
        >(RestoreError::InvalidData),
{
}

/// The encoding of an optional payload, value by value.
pub open spec fn encode_opt(v: Option<JsonValueV>) -> Option<EncodedV> {
    match v {
        Some(x) => Some(encode_spec(x)),
        None => None,
    }
}

/// Well-formedness of an optional payload value.
pub open spec fn opt_val_wf(v: Option<JsonValueV>) -> bool {
    match v {
        Some(x) => crate::value::val_wf(x),
        None => true,
    }
}

/// The round-trip law of the persistence contract: encoding a machine's
/// payloads and restoring them under a declared state name succeeds and
/// yields exactly the original values — so re-encoding the restored
/// instance's payloads reproduces the encoded forms.
pub proof fn lemma_restore_round_trip(
    d: MachineDefV,
    name: Seq<char>,
    sh: Option<JsonValueV>,
    st: Option<JsonValueV>,
)
    requires
        d.has_state(name),
        sh is Some <==> d.shared_data_type is Some,
        st is Some <==> d.states[d.state_index(name)].data_type is Some,
        opt_val_wf(sh),
        opt_val_wf(st),
    ensures
        restore_outcome(d, name, encode_opt(sh), encode_opt(st)) == Ok::<
            (int, Option<JsonValueV>, Option<JsonValueV>),
            RestoreError,
        >((d.state_index(name), sh, st)),
{
    match sh {
        Some(x) => {
            crate::value::lemma_encode_decode(x);
        },
        None => {},
    }
    match st {
        Some(x) => {
            crate::value::lemma_encode_decode(x);
        },
        None => {},
    }
}

} // verus!
