//! The validator and the compiled machine definition.
//!
//! Compilation parses the textual description, checks referential
//! integrity (every transition target is a declared state), rejects
//! duplicate state names and duplicate event names on one state, and
//! derives the names of the generated surface: the per-state enter/exit
//! hooks, the per-state restore routines, and the wrapper type.
use vstd::prelude::*;
use crate::names::{enter_hook_name, exit_hook_name, restore_fn_name, snake_of, wrapped_type_name};
use crate::parse::{Machine, MachineV, StateDefV};
use crate::token::{lex, tokenize};

verus! {

broadcast use vstd::seq::group_seq_axioms, vstd::std_specs::vec::group_vec_axioms;

/// A compiled transition: the event and the declared target state.
#[derive(Debug)]
pub struct TransitionDef {
    pub event: String,
    pub target: String,
}

/// A compiled state: its declaration plus the derived hook and restore
/// routine names.
#[derive(Debug)]
pub struct StateDef {
    pub name: String,
    pub init: bool,
    pub data_type: Option<String>,
    pub transitions: Vec<TransitionDef>,
    pub enter_hook: String,
    pub exit_hook: String,
    pub restore_fn: String,
}

/// The compiled machine definition: the validated specification graph
/// together with the derived names of the generated surface.
#[derive(Debug)]
pub struct MachineDef {
    pub name: String,
    pub wrapped_name: String,
    pub shared_data_type: Option<String>,
    pub states: Vec<StateDef>,
}

/// Model of a compiled transition.
pub ghost struct TransitionDefV {
    pub event: Seq<char>,
    pub target: Seq<char>,
}

/// Model of a compiled state.
pub ghost struct StateEntryV {
    pub name: Seq<char>,
    pub init: bool,
    pub data_type: Option<Seq<char>>,
    pub transitions: Seq<TransitionDefV>,
    pub enter_hook: Seq<char>,
    pub exit_hook: Seq<char>,
    pub restore_fn: Seq<char>,
}

/// Model of a compiled machine definition.
pub ghost struct MachineDefV {
    pub name: Seq<char>,
    pub wrapped_name: Seq<char>,
    pub shared_data_type: Option<Seq<char>>,
    pub states: Seq<StateEntryV>,
}

impl View for TransitionDef {
    type V = TransitionDefV;

    open spec fn view(&self) -> TransitionDefV {
        TransitionDefV { event: self.event@, target: self.target@ }
    }
}

impl DeepView for TransitionDef {
    type V = TransitionDefV;

    open spec fn deep_view(&self) -> TransitionDefV {
        self.view()
    }
}

impl View for StateDef {
    type V = StateEntryV;

    open spec fn view(&self) -> StateEntryV {
        StateEntryV {
            name: self.name@,
            init: self.init,
            data_type: self.data_type.deep_view(),
            transitions: self.transitions.deep_view(),
            enter_hook: self.enter_hook@,
            exit_hook: self.exit_hook@,
            restore_fn: self.restore_fn@,
        }
    }
}

impl DeepView for StateDef {
    type V = StateEntryV;

    open spec fn deep_view(&self) -> StateEntryV {
        self.view()
    }
}

impl View for MachineDef {
    type V = MachineDefV;

    open spec fn view(&self) -> MachineDefV {
        MachineDefV {
            name: self.name@,
            wrapped_name: self.wrapped_name@,
            shared_data_type: self.shared_data_type.deep_view(),
            states: self.states.deep_view(),
        }
    }
}

impl DeepView for MachineDef {
    type V = MachineDefV;

    open spec fn deep_view(&self) -> MachineDefV {
        self.view()
    }
}

impl MachineDefV {
    /// Whether a state of this name is declared.
    pub open spec fn has_state(self, n: Seq<char>) -> bool {
        exists|i: int| 0 <= i < self.states.len() && #[trigger] self.states[i].name == n
    }

    /// The index of the declared state of this name.
    pub open spec fn state_index(self, n: Seq<char>) -> int {
        choose|i: int| 0 <= i < self.states.len() && #[trigger] self.states[i].name == n
    }

    /// Whether the state at `si` declares a transition for `ev`.
    pub open spec fn has_transition(self, si: int, ev: Seq<char>) -> bool {
        exists|j: int|
            0 <= j < self.states[si].transitions.len() && #[trigger] self.states[si].transitions[
                j
            ].event == ev
    }

    /// The target state index of the transition for `ev` out of the state
    /// at `si`.
    pub open spec fn transition_target(self, si: int, ev: Seq<char>) -> int {
        let j = choose|j: int|
            0 <= j < self.states[si].transitions.len() && #[trigger] self.states[si].transitions[
                j
            ].event == ev;
        self.state_index(self.states[si].transitions[j].target)
    }

    /// State names are unique.
    pub open spec fn names_unique(self) -> bool {
        forall|i: int, j: int|
            0 <= i < j < self.states.len() ==> #[trigger] self.states[i].name != #[trigger] self.states[j].name
    }

    /// Within each state, event names are unique.
    pub open spec fn events_unique(self) -> bool {
        forall|k: int, i: int, j: int|
            0 <= k < self.states.len() && 0 <= i < j < self.states[k].transitions.len()
                ==> #[trigger] self.states[k].transitions[i].event != #[trigger] self.states[
                k
            ].transitions[j].event
    }

    /// Every transition target is a declared state.
    pub open spec fn targets_declared(self) -> bool {
        forall|k: int, j: int|
            0 <= k < self.states.len() && 0 <= j < self.states[k].transitions.len()
                ==> self.has_state(#[trigger] self.states[k].transitions[j].target)
    }

    /// Well-formedness of a compiled machine definition.
    pub open spec fn wf(self) -> bool {
        self.names_unique() && self.events_unique() && self.targets_declared()
    }
}

/// The names of the `init`-flagged states among `states`, in declaration
/// order: one of the two indices the emitters consume.
pub open spec fn init_names_of(states: Seq<StateEntryV>) -> Seq<Seq<char>>
    decreases states.len(),
{
    if states.len() == 0 {
        Seq::empty()
    } else {
        let rest = init_names_of(states.drop_last());
        if states.last().init {
            rest.push(states.last().name)
        } else {
            rest
        }
    }
}

impl MachineDef {
    /// The position of the declared state of this name.
    pub fn state_position(&self, name: &String) -> (r: Option<usize>)
        ensures
            match r {
                Some(i) => i < self@.states.len() && self@.states[i as int].name == name@,
                None => !self@.has_state(name@),
            },
    {
        let n = self.states.len();
        proof {
            assert(self@.states.len() == n);
        }
        let mut i: usize = 0;
        while i < n
            invariant
                i <= n,
                n == self@.states.len(),
                forall|k: int| 0 <= k < i ==> #[trigger] self@.states[k].name != name@,
            decreases n - i,
        {
            if self.states[i].name == *name {
                return Some(i);
            }
            i = i + 1;
        }
        None
    }

    /// Whether a state of this name is declared and flagged `init`.
    pub fn is_init_state(&self, name: &str) -> (r: bool)
        requires
            self@.names_unique(),
        ensures
            r == (self@.has_state(name@) && self@.states[self@.state_index(name@)].init),
    {
        let owned = name.to_owned();
        match self.state_position(&owned) {
            Some(i) => {
                proof {
                    let i0 = self@.state_index(name@);
                    assert(0 <= i0 < self@.states.len() && self@.states[i0].name == name@);
                    assert(self@.states[i as int].name == self@.states[i0].name);
                    assert(i as int == i0);
                }
                self.states[i].init
            },
            None => false,
        }
    }

    /// The names of the states flagged `init`, in declaration order: the
    /// set of entry points the constructors are generated for.
    pub fn init_state_names(&self) -> (r: Vec<String>)
        ensures
            r.deep_view() == init_names_of(self@.states),
    {
        let n = self.states.len();
        proof {
            assert(self@.states.len() == n);
        }
        let mut r: Vec<String> = Vec::new();
        proof {
            assert(self@.states.take(0) =~= Seq::<StateEntryV>::empty());
            assert(r.deep_view() =~= init_names_of(self@.states.take(0)));
        }
        let mut i: usize = 0;
        while i < n
            invariant
                i <= n,
                n == self@.states.len(),
                r.deep_view() == init_names_of(self@.states.take(i as int)),
            decreases n - i,
        {
            proof {
                assert(self@.states.take(i as int + 1).drop_last() =~= self@.states.take(i as int));
                assert(self@.states.take(i as int + 1).last() == self@.states[i as int]);
            }
            if self.states[i].init {
                let ghost prev = r.deep_view();
                r.push(self.states[i].name.clone());
                proof {
                    assert(r.deep_view() =~= prev.push(self@.states[i as int].name));
                }
            }
            i = i + 1;
        }
        proof {
            assert(self@.states.take(n as int) =~= self@.states);
        }
        r
    }
}

/// The compiled form of one declared state: the declaration and the
/// derived names.
pub open spec fn compiled_state_of(s: StateDefV) -> StateEntryV {
    StateEntryV {
        name: s.name,
        init: s.init,
        data_type: s.associated_data_type,
        transitions: Seq::new(
            s.transitions.len(),
            |i: int|
                TransitionDefV {
                    event: s.transitions[i].event,
                    target: s.transitions[i].next_state,
                },
        ),
        enter_hook: "on_enter_"@ + snake_of(s.name),
        exit_hook: "on_exit_"@ + snake_of(s.name),
        restore_fn: "restore_"@ + snake_of(s.name),
    }
}

/// The compiled form of a validated specification tree.
pub open spec fn machine_def_of(m: MachineV) -> MachineDefV {
    MachineDefV {
        name: m.name,
        wrapped_name: "Wrapped"@ + m.name,
        shared_data_type: m.shared_data_type,
        states: Seq::new(m.states.len(), |i: int| compiled_state_of(m.states[i])),
    }
}

/// Whether the tree declares two states of this one name.
pub open spec fn duplicate_state(m: MachineV, n: Seq<char>) -> bool {
    exists|i: int, j: int|
        0 <= i < j < m.states.len() && #[trigger] m.states[i].name == n && #[trigger] m.states[
            j
        ].name == n
}

/// State names are unique in the tree.
pub open spec fn spec_names_unique(m: MachineV) -> bool {
    forall|i: int, j: int|
        0 <= i < j < m.states.len() ==> #[trigger] m.states[i].name != #[trigger] m.states[j].name
}

/// Whether some state declares two transitions for this one event.
pub open spec fn duplicate_event(m: MachineV, e: Seq<char>) -> bool {
    exists|k: int, i: int, j: int|
        0 <= k < m.states.len() && 0 <= i < j < m.states[k].transitions.len()
            && #[trigger] m.states[k].transitions[i].event == e && #[trigger] m.states[
            k
        ].transitions[j].event == e
}

/// Within each state of the tree, event names are unique.
pub open spec fn spec_events_unique(m: MachineV) -> bool {
    forall|k: int, i: int, j: int|
        0 <= k < m.states.len() && 0 <= i < j < m.states[k].transitions.len()
            ==> #[trigger] m.states[k].transitions[i].event != #[trigger] m.states[k].transitions[
            j
        ].event
}

/// Whether a state of this name is declared in the tree.
pub open spec fn tree_has_state(m: MachineV, n: Seq<char>) -> bool {
    exists|k: int| 0 <= k < m.states.len() && #[trigger] m.states[k].name == n
}

/// Whether some transition of the tree names this undeclared target.
pub open spec fn undefined_target(m: MachineV, t: Seq<char>) -> bool {
    !tree_has_state(m, t) && exists|k: int, j: int|
        0 <= k < m.states.len() && 0 <= j < m.states[k].transitions.len()
            && #[trigger] m.states[k].transitions[j].next_state == t
}

/// Every transition target of the tree is a declared state.
pub open spec fn spec_targets_declared(m: MachineV) -> bool {
    forall|k: int, j: int|
        0 <= k < m.states.len() && 0 <= j < m.states[k].transitions.len() ==> tree_has_state(
            m,
            #[trigger] m.states[k].transitions[j].next_state,
        )
}

/// The tokenized and parsed form of a textual description.
pub open spec fn machine_of(input: Seq<char>) -> Option<MachineV> {
    match lex(input) {
        Some(ts) => crate::parse::parse_machine_spec(ts),
        None => None,
    }
}

/// Why a description was refused.
#[derive(Debug, PartialEq, Eq)]
pub enum CompileError {
    /// A character outside the grammar's alphabet.
    Lex,
    /// Malformed braces, separators or identifiers.
    Syntax,
    /// Two states share the carried name.
    DuplicateState(String),
    /// One state declares the carried event twice.
    DuplicateEvent(String),
    /// A transition names the carried state, which is not declared.
    UndefinedTarget(String),
}

/// A compiled machine definition is well formed.
proof fn lemma_compiled_wf(m: MachineV)
    requires
        spec_names_unique(m),
        spec_events_unique(m),
        spec_targets_declared(m),
    ensures
        machine_def_of(m).wf(),
{
    let d = machine_def_of(m);
    assert forall|k: int, j: int|
        0 <= k < d.states.len() && 0 <= j < d.states[k].transitions.len() implies d.has_state(
        #[trigger] d.states[k].transitions[j].target,
    ) by {
        assert(d.states[k].transitions[j].target == m.states[k].transitions[j].next_state);
        assert(tree_has_state(m, m.states[k].transitions[j].next_state));
        let w = choose|w: int|
            0 <= w < m.states.len() && #[trigger] m.states[w].name == m.states[
                k
            ].transitions[j].next_state;
        assert(d.states[w].name == m.states[w].name);
    }
}

/// Compiles a textual machine description: tokenizes and parses it, checks
/// that state names are unique, that no state declares one event twice,
/// and that every transition target is declared, and derives the hook,
/// restore and wrapper names. Each refusal reports the first reason in
/// that order, with a witness name.
#[verifier::loop_isolation(false)]
pub fn statemachine(input: &str) -> (r: Result<MachineDef, CompileError>)
    ensures
        lex(input@) is None ==> r == Err::<MachineDef, CompileError>(CompileError::Lex),
        machine_of(input@) is None && lex(input@) is Some ==> r == Err::<
            MachineDef,
            CompileError,
        >(CompileError::Syntax),
        machine_of(input@) matches Some(m) ==> {
            &&& !spec_names_unique(m) ==> (r matches Err(CompileError::DuplicateState(n))
                && duplicate_state(m, n@))
            &&& spec_names_unique(m) && !spec_events_unique(m) ==> (r matches Err(
                CompileError::DuplicateEvent(e),
            ) && duplicate_event(m, e@))
            &&& spec_names_unique(m) && spec_events_unique(m) && !spec_targets_declared(m)
                ==> (r matches Err(CompileError::UndefinedTarget(t)) && undefined_target(m, t@))
            &&& spec_names_unique(m) && spec_events_unique(m) && spec_targets_declared(m)
                ==> (r matches Ok(def) && def.deep_view() == machine_def_of(m)
                && def.deep_view().wf())
        },
{
    let toks = match tokenize(input) {
        Some(ts) => ts,
        None => {
            return Err(CompileError::Lex);
        },
    };
    let tree = match Machine::parse(&toks) {
        Some(t) => t,
        None => {
            return Err(CompileError::Syntax);
        },
    };
    let ghost m = tree.deep_view();
    let n = tree.states.len();
    proof {
        assert(machine_of(input@) == Some(m));
        assert(m.states.len() == n);
    }
    // state names must be unique
    let mut i: usize = 0;
    while i < n
        invariant
            i <= n,
            n == tree.states@.len(),
            m == tree.deep_view(),
            m.states.len() == n,
            forall|a: int, b: int| 0 <= a < b < i ==> #[trigger] m.states[a].name != #[trigger] m.states[b].name,
        decreases n - i,
    {
        let mut j: usize = 0;
        while j < i
            invariant
                j <= i < n,
                n == tree.states@.len(),
                m == tree.deep_view(),
                m.states.len() == n,
                forall|b: int| 0 <= b < j ==> #[trigger] m.states[b].name != m.states[i as int].name,
            decreases i - j,
        {
            if tree.states[j].name == tree.states[i].name {
                proof {
                    assert(m.states[j as int].name == m.states[i as int].name);
                    assert(duplicate_state(m, m.states[i as int].name));
                }
                return Err(CompileError::DuplicateState(tree.states[i].name.clone()));
            }
            j = j + 1;
        }
        i = i + 1;
    }
    proof {
        assert(spec_names_unique(m));
    }
    // within each state, events must be unique
    let mut k: usize = 0;
    while k < n
        invariant
            k <= n,
            n == tree.states@.len(),
            m == tree.deep_view(),
            m.states.len() == n,
            spec_names_unique(m),
            forall|kk: int, a: int, b: int|
                0 <= kk < k && 0 <= a < b < m.states[kk].transitions.len()
                    ==> #[trigger] m.states[kk].transitions[a].event != #[trigger] m.states[
                    kk
                ].transitions[b].event,
        decreases n - k,
    {
        let tn = tree.states[k].transitions.len();
        proof {
            assert(m.states[k as int].transitions.len() == tn);
        }
        let mut a: usize = 0;
        while a < tn
            invariant
                a <= tn,
                k < n,
                n == tree.states@.len(),
                m == tree.deep_view(),
                m.states.len() == n,
                tn == tree.states@[k as int].transitions@.len(),
                m.states[k as int].transitions.len() == tn,
                forall|x: int, y: int|
                    0 <= x < y < a ==> #[trigger] m.states[k as int].transitions[x].event
                        != #[trigger] m.states[k as int].transitions[y].event,
            decreases tn - a,
        {
            let mut b: usize = 0;
            while b < a
                invariant
                    b <= a < tn,
                    k < n,
                    n == tree.states@.len(),
                    m == tree.deep_view(),
                    m.states.len() == n,
                    tn == tree.states@[k as int].transitions@.len(),
                    m.states[k as int].transitions.len() == tn,
                    forall|x: int|
                        0 <= x < b ==> #[trigger] m.states[k as int].transitions[x].event
                            != m.states[k as int].transitions[a as int].event,
                decreases a - b,
            {
                if tree.states[k].transitions[b].event == tree.states[k].transitions[a].event {
                    proof {
                        assert(m.states[k as int].transitions[b as int].event == tree.states@[
                            k as int
                        ].transitions@[b as int].event@);
                        assert(m.states[k as int].transitions[a as int].event == tree.states@[
                            k as int
                        ].transitions@[a as int].event@);
                        assert(m.states[k as int].transitions[b as int].event == m.states[
                            k as int
                        ].transitions[a as int].event);
                        assert(duplicate_event(m, m.states[k as int].transitions[a as int].event));
                    }
                    return Err(
                        CompileError::DuplicateEvent(tree.states[k].transitions[a].event.clone()),
                    );
                }
                b = b + 1;
            }
            a = a + 1;
        }
        k = k + 1;
    }
    proof {
        assert(spec_events_unique(m));
    }
    // every transition target must be declared
    let mut k2: usize = 0;
    while k2 < n
        invariant
            k2 <= n,
            n == tree.states@.len(),
            m == tree.deep_view(),
            m.states.len() == n,
            spec_names_unique(m),
            spec_events_unique(m),
            forall|kk: int, j: int|
                0 <= kk < k2 && 0 <= j < m.states[kk].transitions.len() ==> tree_has_state(
                    m,
                    #[trigger] m.states[kk].transitions[j].next_state,
                ),
        decreases n - k2,
    {
        let tn = tree.states[k2].transitions.len();
        proof {
            assert(m.states[k2 as int].transitions.len() == tn);
        }
        let mut j: usize = 0;
        while j < tn
            invariant
                j <= tn,
                k2 < n,
                n == tree.states@.len(),
                m == tree.deep_view(),
                m.states.len() == n,
                tn == tree.states@[k2 as int].transitions@.len(),
                m.states[k2 as int].transitions.len() == tn,
                forall|jj: int|
                    0 <= jj < j ==> tree_has_state(
                        m,
                        #[trigger] m.states[k2 as int].transitions[jj].next_state,
                    ),
        decreases tn - j,
        {
            let mut w: usize = 0;
            let mut found = false;
            while w < n && !found
                invariant
                    w <= n,
                    found ==> tree_has_state(
                        m,
                        m.states[k2 as int].transitions[j as int].next_state,
                    ),
                    !found ==> forall|ww: int|
                        0 <= ww < w ==> #[trigger] m.states[ww].name != m.states[
                            k2 as int
                        ].transitions[j as int].next_state,
                decreases n - w + (if found { 0int } else { 1int }),
            {
                if tree.states[w].name == tree.states[k2].transitions[j].next_state {
                    found = true;
                    proof {
                        assert(m.states[w as int].name == m.states[k2 as int].transitions[
                            j as int
                        ].next_state);
                    }
                } else {
                    w = w + 1;
                }
            }
            if !found {
                proof {
                    assert(!tree_has_state(m, m.states[k2 as int].transitions[j as int].next_state));
                    assert(undefined_target(m, m.states[k2 as int].transitions[j as int].next_state));
                }
                return Err(
                    CompileError::UndefinedTarget(tree.states[k2].transitions[j].next_state.clone()),
                );
            }
            j = j + 1;
        }
        k2 = k2 + 1;
    }
    proof {
        assert(spec_targets_declared(m));
    }
    // derive the compiled definition
    let mut states: Vec<StateDef> = Vec::new();
    let mut si: usize = 0;
    while si < n
        invariant
            si <= n,
            n == tree.states@.len(),
            m == tree.deep_view(),
            m.states.len() == n,
            states.deep_view() =~= Seq::new(si as nat, |i: int| compiled_state_of(m.states[i])),
        decreases n - si,
    {
        let st = &tree.states[si];
        let mut trs: Vec<TransitionDef> = Vec::new();
        let tn = st.transitions.len();
        proof {
            assert(m.states[si as int].transitions.len() == tn);
        }
        let mut tj: usize = 0;
        while tj < tn
            invariant
                tj <= tn,
                si < n,
                n == tree.states@.len(),
                m == tree.deep_view(),
                m.states.len() == n,
                tn == tree.states@[si as int].transitions@.len(),
                m.states[si as int].transitions.len() == tn,
                trs.deep_view() =~= Seq::new(
                    tj as nat,
                    |i: int|
                        TransitionDefV {
                            event: m.states[si as int].transitions[i].event,
                            target: m.states[si as int].transitions[i].next_state,
                        },
                ),
            decreases tn - tj,
        {
            let tr = &tree.states[si].transitions[tj];
            let ghost prev = trs.deep_view();
            trs.push(TransitionDef { event: tr.event.clone(), target: tr.next_state.clone() });
            proof {
                assert(trs.deep_view() =~= prev.push(
                    TransitionDefV {
                        event: m.states[si as int].transitions[tj as int].event,
                        target: m.states[si as int].transitions[tj as int].next_state,
                    },
                ));
            }
            tj = tj + 1;
        }
        let dt: Option<String> = match &st.associated_data_type {
            Some(t) => Some(t.clone()),
            None => None,
        };
        let entry = StateDef {
            name: st.name.clone(),
            init: st.init,
            data_type: dt,
            transitions: trs,
            enter_hook: enter_hook_name(st.name.as_str()),
            exit_hook: exit_hook_name(st.name.as_str()),
            restore_fn: restore_fn_name(st.name.as_str()),
        };
        let ghost prev = states.deep_view();
        proof {
            assert(entry.deep_view().transitions =~= compiled_state_of(
                m.states[si as int],
            ).transitions);
            assert(entry.deep_view() == compiled_state_of(m.states[si as int]));
        }
        states.push(entry);
        proof {
            assert(states.deep_view() =~= prev.push(compiled_state_of(m.states[si as int])));
        }
        si = si + 1;
    }
    let dt: Option<String> = match &tree.shared_data_type {
        Some(t) => Some(t.clone()),
        None => None,
    };
    let def = MachineDef {
        wrapped_name: wrapped_type_name(tree.name.as_str()),
        name: tree.name,
        shared_data_type: dt,
        states,
    };
    proof {
        assert(def.deep_view().states =~= machine_def_of(m).states);
        assert(def.deep_view() == machine_def_of(m));
        lemma_compiled_wf(m);
    }
    Ok(def)
}

} // verus!
