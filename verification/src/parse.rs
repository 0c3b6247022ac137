//! The grammar of the machine description, and its recursive-descent
//! parser:
//!
//! ```text
//! Machine     := Name (':' SharedType)? '{' StateDef (',' StateDef)* '}'
//! StateDef    := 'init'? StateName (':' AssocType)? '{' Transition (',' Transition)* '}'
//! Transition  := EventName '=>' TargetStateName
//! ```
//!
//! Both lists allow a trailing comma and may be empty. Parsing is a pure
//! function from the token stream to the specification tree; referential
//! checks are the validator's job.
use vstd::prelude::*;
use crate::token::{Token, TokenV};

verus! {

broadcast use vstd::seq::group_seq_axioms, vstd::std_specs::vec::group_vec_axioms;

/// A declared transition: an event and the target state's name.
#[derive(Debug)]
pub struct StateTransition {
    pub event: String,
    pub next_state: String,
}

/// A declared state: its `init` flag, name, optional associated-data type
/// reference and transitions.
#[derive(Debug)]
pub struct StateDefinition {
    pub init: bool,
    pub name: String,
    pub associated_data_type: Option<String>,
    pub transitions: Vec<StateTransition>,
}

/// The parsed, unvalidated specification tree.
#[derive(Debug)]
pub struct Machine {
    pub name: String,
    pub shared_data_type: Option<String>,
    pub states: Vec<StateDefinition>,
}

/// Model of a transition.
pub ghost struct TransitionV {
    pub event: Seq<char>,
    pub next_state: Seq<char>,
}

/// Model of a state definition.
pub ghost struct StateDefV {
    pub init: bool,
    pub name: Seq<char>,
    pub associated_data_type: Option<Seq<char>>,
    pub transitions: Seq<TransitionV>,
}

/// Model of the specification tree.
pub ghost struct MachineV {
    pub name: Seq<char>,
    pub shared_data_type: Option<Seq<char>>,
    pub states: Seq<StateDefV>,
}

impl View for StateTransition {
    type V = TransitionV;

    open spec fn view(&self) -> TransitionV {
        TransitionV { event: self.event@, next_state: self.next_state@ }
    }
}

impl DeepView for StateTransition {
    type V = TransitionV;

    open spec fn deep_view(&self) -> TransitionV {
        self.view()
    }
}

impl View for StateDefinition {
    type V = StateDefV;

    open spec fn view(&self) -> StateDefV {
        StateDefV {
            init: self.init,
            name: self.name@,
            associated_data_type: self.associated_data_type.deep_view(),
            transitions: self.transitions.deep_view(),
        }
    }
}

impl DeepView for StateDefinition {
    type V = StateDefV;

    open spec fn deep_view(&self) -> StateDefV {
        self.view()
    }
}

impl View for Machine {
    type V = MachineV;

    open spec fn view(&self) -> MachineV {
        MachineV {
            name: self.name@,
            shared_data_type: self.shared_data_type.deep_view(),
            states: self.states.deep_view(),
        }
    }
}

impl DeepView for Machine {
    type V = MachineV;

    open spec fn deep_view(&self) -> MachineV {
        self.view()
    }
}

/// The keyword that flags an entry-point state.
pub open spec fn init_kw() -> Seq<char> {
    seq!['i', 'n', 'i', 't']
}

/// Parses one transition: `Event '=>' Target`.
pub open spec fn parse_transition_spec(ts: Seq<TokenV>) -> Option<(TransitionV, Seq<TokenV>)> {
    if ts.len() >= 3 {
        match (ts[0], ts[1], ts[2]) {
            (TokenV::Ident(e), TokenV::FatArrow, TokenV::Ident(nx)) => Some(
                (TransitionV { event: e, next_state: nx }, ts.skip(3)),
            ),
            _ => None,
        }
    } else {
        None
    }
}

/// Parses the comma-separated transitions up to and including the closing
/// brace; the list may be empty and a trailing comma is allowed. A parsed
/// transition always consumes three tokens, so the length guard is never
/// taken; it keeps the recursion well-founded.
pub open spec fn parse_transitions_spec(ts: Seq<TokenV>) -> Option<(Seq<TransitionV>, Seq<TokenV>)>
    decreases ts.len(),
{
    if ts.len() == 0 {
        None
    } else if ts[0] is RBrace {
        Some((Seq::empty(), ts.drop_first()))
    } else {
        match parse_transition_spec(ts) {
            None => None,
            Some((tr, r1)) => if r1.len() >= ts.len() {
                None
            } else if r1.len() == 0 {
                None
            } else if r1[0] is RBrace {
                Some((seq![tr], r1.drop_first()))
            } else if r1[0] is Comma {
                match parse_transitions_spec(r1.drop_first()) {
                    Some((trs, r2)) => Some((seq![tr] + trs, r2)),
                    None => None,
                }
            } else {
                None
            },
        }
    }
}

/// Parses a state definition's brace block, given everything before it.
pub open spec fn parse_state_body(
    init: bool,
    name: Seq<char>,
    dt: Option<Seq<char>>,
    r: Seq<TokenV>,
) -> Option<(StateDefV, Seq<TokenV>)> {
    if r.len() >= 1 && r[0] is LBrace {
        match parse_transitions_spec(r.drop_first()) {
            Some((trs, r2)) => Some(
                (StateDefV { init, name, associated_data_type: dt, transitions: trs }, r2),
            ),
            None => None,
        }
    } else {
        None
    }
}

/// Parses a state definition's optional `: Type` annotation and its brace
/// block, given the `init` flag and name.
pub open spec fn parse_state_tail(init: bool, name: Seq<char>, r: Seq<TokenV>) -> Option<
    (StateDefV, Seq<TokenV>),
> {
    if r.len() >= 1 && r[0] is Colon {
        if r.len() >= 2 {
            match r[1] {
                TokenV::Ident(t) => parse_state_body(init, name, Some(t), r.skip(2)),
                _ => None,
            }
        } else {
            None
        }
    } else {
        parse_state_body(init, name, None, r)
    }
}

/// Parses one state definition. An identifier reading `init` flags the
/// state and the following identifier is its name.
pub open spec fn parse_state_spec(ts: Seq<TokenV>) -> Option<(StateDefV, Seq<TokenV>)> {
    if ts.len() == 0 {
        None
    } else {
        match ts[0] {
            TokenV::Ident(x) => if x == init_kw() {
                if ts.len() >= 2 {
                    match ts[1] {
                        TokenV::Ident(nm) => parse_state_tail(true, nm, ts.skip(2)),
                        _ => None,
                    }
                } else {
                    None
                }
            } else {
                parse_state_tail(false, x, ts.skip(1))
            },
            _ => None,
        }
    }
}

/// Parses the comma-separated state definitions up to and including the
/// closing brace; the list may be empty and a trailing comma is allowed.
/// A parsed state always consumes at least one token, so the length guard
/// is never taken; it keeps the recursion well-founded.
pub open spec fn parse_states_spec(ts: Seq<TokenV>) -> Option<(Seq<StateDefV>, Seq<TokenV>)>
    decreases ts.len(),
{
    if ts.len() == 0 {
        None
    } else if ts[0] is RBrace {
        Some((Seq::empty(), ts.drop_first()))
    } else {
        match parse_state_spec(ts) {
            None => None,
            Some((st, r1)) => if r1.len() >= ts.len() {
                None
            } else if r1.len() == 0 {
                None
            } else if r1[0] is RBrace {
                Some((seq![st], r1.drop_first()))
            } else if r1[0] is Comma {
                match parse_states_spec(r1.drop_first()) {
                    Some((sts, r2)) => Some((seq![st] + sts, r2)),
                    None => None,
                }
            } else {
                None
            },
        }
    }
}

/// Parses the machine's brace block, given everything before it; the whole
/// token stream must be consumed.
pub open spec fn parse_machine_body(
    name: Seq<char>,
    dt: Option<Seq<char>>,
    r: Seq<TokenV>,
) -> Option<MachineV> {
    if r.len() >= 1 && r[0] is LBrace {
        match parse_states_spec(r.drop_first()) {
            Some((sts, r2)) => if r2.len() == 0 {
                Some(MachineV { name, shared_data_type: dt, states: sts })
            } else {
                None
            },
            None => None,
        }
    } else {
        None
    }
}

/// Parses a whole machine description from its token stream.
pub open spec fn parse_machine_spec(ts: Seq<TokenV>) -> Option<MachineV> {
    if ts.len() == 0 {
        None
    } else {
        match ts[0] {
            TokenV::Ident(nm) => if ts.len() >= 2 && ts[1] is Colon {
                if ts.len() >= 3 {
                    match ts[2] {
                        TokenV::Ident(t) => parse_machine_body(nm, Some(t), ts.skip(3)),
                        _ => None,
                    }
                } else {
                    None
                }
            } else {
                parse_machine_body(nm, None, ts.skip(1))
            },
            _ => None,
        }
    }
}

impl StateTransition {
    /// Parses one transition at `pos`.
    pub fn parse(tokens: &Vec<Token>, pos: usize) -> (r: Option<(StateTransition, usize)>)
        requires
            pos <= tokens@.len(),
        ensures
            match r {
                Some((tr, j)) => pos <= j <= tokens@.len() && parse_transition_spec(
                    tokens.deep_view().skip(pos as int),
                ) == Some((tr.deep_view(), tokens.deep_view().skip(j as int))),
                None => parse_transition_spec(tokens.deep_view().skip(pos as int)) is None,
            },
    {
        let ghost dv = tokens.deep_view();
        let ghost s = dv.skip(pos as int);
        let n = tokens.len();
        proof {
            assert(dv.len() == n);
            assert(forall|t: int| 0 <= t < s.len() ==> s[t] == dv[pos + t]);
        }
        if n - pos >= 3 {
            proof {
                assert(s.skip(3) =~= dv.skip(pos as int + 3));
            }
            match (&tokens[pos], &tokens[pos + 1], &tokens[pos + 2]) {
                (Token::Ident(e), Token::FatArrow, Token::Ident(nx)) => {
                    let tr = StateTransition { event: e.clone(), next_state: nx.clone() };
                    Some((tr, pos + 3))
                },
                _ => None,
            }
        } else {
            None
        }
    }
}

/// A successfully parsed transition list consumes at least one token.
proof fn lemma_parse_transitions_consumes(ts: Seq<TokenV>)
    ensures
        parse_transitions_spec(ts) matches Some((trs, r)) ==> r.len() < ts.len(),
    decreases ts.len(),
{
    if ts.len() > 0 && !(ts[0] is RBrace) {
        match parse_transition_spec(ts) {
            None => {},
            Some((tr, r1)) => {
                if r1.len() < ts.len() && r1.len() > 0 && r1[0] is Comma {
                    lemma_parse_transitions_consumes(r1.drop_first());
                }
            },
        }
    }
}

/// A successfully parsed state consumes at least one token.
proof fn lemma_parse_state_consumes(ts: Seq<TokenV>)
    ensures
        parse_state_spec(ts) matches Some((st, r)) ==> r.len() < ts.len(),
{
    if ts.len() > 0 {
        match ts[0] {
            TokenV::Ident(x) => {
                if x == init_kw() {
                    if ts.len() >= 2 {
                        match ts[1] {
                            TokenV::Ident(nm) => {
                                lemma_parse_state_tail_consumes(
                                    true,
                                    nm,
                                    ts.skip(2),
                                    ts.len() as int,
                                );
                            },
                            _ => {},
                        }
                    }
                } else {
                    lemma_parse_state_tail_consumes(false, x, ts.skip(1), ts.len() as int);
                }
            },
            _ => {},
        }
    }
}

proof fn lemma_parse_state_tail_consumes(init: bool, name: Seq<char>, r: Seq<TokenV>, outer: int)
    requires
        r.len() < outer,
    ensures
        parse_state_tail(init, name, r) matches Some((st, rr)) ==> rr.len() < outer,
{
    if r.len() >= 1 && r[0] is Colon {
        if r.len() >= 2 {
            lemma_parse_transitions_consumes(r.skip(2).drop_first());
        }
    } else {
        lemma_parse_transitions_consumes(r.drop_first());
    }
}

/// A successfully parsed state list consumes at least one token.
proof fn lemma_parse_states_consumes(ts: Seq<TokenV>)
    ensures
        parse_states_spec(ts) matches Some((sts, r)) ==> r.len() < ts.len(),
    decreases ts.len(),
{
    if ts.len() > 0 && !(ts[0] is RBrace) {
        match parse_state_spec(ts) {
            None => {},
            Some((st, r1)) => {
                if r1.len() < ts.len() && r1.len() > 0 && r1[0] is Comma {
                    lemma_parse_states_consumes(r1.drop_first());
                }
            },
        }
    }
}

/// Parses the transition list of a state's brace block, starting just
/// after the opening brace.
fn parse_transitions_at(tokens: &Vec<Token>, pos: usize) -> (r: Option<(Vec<StateTransition>, usize)>)
    requires
        pos <= tokens@.len(),
    ensures
        match r {
            Some((trs, j)) => pos <= j <= tokens@.len() && parse_transitions_spec(
                tokens.deep_view().skip(pos as int),
            ) == Some((trs.deep_view(), tokens.deep_view().skip(j as int))),
            None => parse_transitions_spec(tokens.deep_view().skip(pos as int)) is None,
        },
    decreases tokens@.len() - pos,
{
    let ghost dv = tokens.deep_view();
    let ghost s = dv.skip(pos as int);
    let n = tokens.len();
    proof {
        assert(dv.len() == n);
        if s.len() > 0 {
            assert(s[0] == dv[pos as int]);
            assert(s.drop_first() =~= dv.skip(pos as int + 1));
        }
    }
    if pos == n {
        return None;
    }
    if let Token::RBrace = &tokens[pos] {
        let trs: Vec<StateTransition> = Vec::new();
        proof {
            assert(trs.deep_view() =~= Seq::<TransitionV>::empty());
        }
        return Some((trs, pos + 1));
    }
    match StateTransition::parse(tokens, pos) {
        None => None,
        Some((tr, j)) => {
            proof {
                assert(dv.skip(j as int).len() < s.len());
            }
            if j == n {
                return None;
            }
            proof {
                assert(dv.skip(j as int)[0] == dv[j as int]);
                assert(dv.skip(j as int).drop_first() =~= dv.skip(j as int + 1));
            }
            match &tokens[j] {
                Token::RBrace => {
                    let ghost trv = tr.deep_view();
                    let mut trs: Vec<StateTransition> = Vec::new();
                    trs.push(tr);
                    proof {
                        assert(trs.deep_view() =~= seq![trv]);
                    }
                    Some((trs, j + 1))
                },
                Token::Comma => {
                    match parse_transitions_at(tokens, j + 1) {
                        None => None,
                        Some((more, j2)) => {
                            let ghost trv = tr.deep_view();
                            let ghost morev = more.deep_view();
                            let mut trs: Vec<StateTransition> = Vec::new();
                            trs.push(tr);
                            let mut more = more;
                            trs.append(&mut more);
                            proof {
                                assert(trs.deep_view() =~= seq![trv] + morev);
                            }
                            Some((trs, j2))
                        },
                    }
                },
                _ => None,
            }
        },
    }
}

impl StateDefinition {
    /// Parses one state definition at `pos`.
    pub fn parse(tokens: &Vec<Token>, pos: usize) -> (r: Option<(StateDefinition, usize)>)
        requires
            pos <= tokens@.len(),
        ensures
            match r {
                Some((sd, j)) => pos <= j <= tokens@.len() && parse_state_spec(
                    tokens.deep_view().skip(pos as int),
                ) == Some((sd.deep_view(), tokens.deep_view().skip(j as int))),
                None => parse_state_spec(tokens.deep_view().skip(pos as int)) is None,
            },
    {
        let ghost dv = tokens.deep_view();
        let ghost s = dv.skip(pos as int);
        let n = tokens.len();
        proof {
            assert(dv.len() == n);
            assert(forall|t: int| 0 <= t < s.len() ==> s[t] == dv[pos + t]);
        }
        if pos == n {
            return None;
        }
        let kw = "init".to_owned();
        proof {
            reveal_strlit("init");
            assert(kw@ =~= init_kw());
        }
        let (init, name, p): (bool, String, usize) = match &tokens[pos] {
            Token::Ident(x) => {
                if *x == kw {
                    if pos + 1 == n {
                        proof {
                            assert(s.len() == 1);
                        }
                        return None;
                    }
                    proof {
                        assert(s.len() >= 2 && s[1] == dv[pos as int + 1]);
                    }
                    match &tokens[pos + 1] {
                        Token::Ident(nm) => (true, nm.clone(), pos + 2),
                        _ => {
                            return None;
                        },
                    }
                } else {
                    (false, x.clone(), pos + 1)
                }
            },
            _ => {
                return None;
            },
        };
        proof {
            assert(dv.skip(p as int) =~= if init {
                s.skip(2)
            } else {
                s.skip(1)
            });
            assert(parse_state_spec(s) == parse_state_tail(init, name@, dv.skip(p as int)));
        }
        let ghost tail_arg = dv.skip(p as int);
        // optional ': Type'
        let (dt, p2): (Option<String>, usize) = if p < n {
            let has_colon = if let Token::Colon = &tokens[p] {
                true
            } else {
                false
            };
            proof {
                assert(tail_arg[0] == dv[p as int]);
            }
            if has_colon {
                if p + 1 == n {
                    proof {
                        assert(tail_arg.len() == 1);
                    }
                    return None;
                }
                proof {
                    assert(tail_arg.len() >= 2 && tail_arg[1] == dv[p as int + 1]);
                }
                match &tokens[p + 1] {
                    Token::Ident(t) => (Some(t.clone()), p + 2),
                    _ => {
                        return None;
                    },
                }
            } else {
                (None, p)
            }
        } else {
            (None, p)
        };
        proof {
            assert(dv.skip(p2 as int) =~= if dt is Some {
                tail_arg.skip(2)
            } else {
                tail_arg
            });
            assert(parse_state_tail(init, name@, tail_arg) == parse_state_body(
                init,
                name@,
                dt.deep_view(),
                dv.skip(p2 as int),
            ));
        }
        let ghost body_arg = dv.skip(p2 as int);
        // the brace block
        if p2 == n {
            return None;
        }
        proof {
            assert(body_arg[0] == dv[p2 as int]);
            assert(body_arg.drop_first() =~= dv.skip(p2 as int + 1));
        }
        match &tokens[p2] {
            Token::LBrace => {
                match parse_transitions_at(tokens, p2 + 1) {
                    None => None,
                    Some((trs, j)) => {
                        let sd = StateDefinition {
                            init,
                            name,
                            associated_data_type: dt,
                            transitions: trs,
                        };
                        Some((sd, j))
                    },
                }
            },
            _ => None,
        }
    }
}

/// Parses the state list of the machine's brace block, starting just after
/// the opening brace.
fn parse_states_at(tokens: &Vec<Token>, pos: usize) -> (r: Option<(Vec<StateDefinition>, usize)>)
    requires
        pos <= tokens@.len(),
    ensures
        match r {
            Some((sts, j)) => pos <= j <= tokens@.len() && parse_states_spec(
                tokens.deep_view().skip(pos as int),
            ) == Some((sts.deep_view(), tokens.deep_view().skip(j as int))),
            None => parse_states_spec(tokens.deep_view().skip(pos as int)) is None,
        },
    decreases tokens@.len() - pos,
{
    let ghost dv = tokens.deep_view();
    let ghost s = dv.skip(pos as int);
    let n = tokens.len();
    proof {
        assert(dv.len() == n);
        if s.len() > 0 {
            assert(s[0] == dv[pos as int]);
            assert(s.drop_first() =~= dv.skip(pos as int + 1));
        }
    }
    if pos == n {
        return None;
    }
    if let Token::RBrace = &tokens[pos] {
        let sts: Vec<StateDefinition> = Vec::new();
        proof {
            assert(sts.deep_view() =~= Seq::<StateDefV>::empty());
        }
        return Some((sts, pos + 1));
    }
    match StateDefinition::parse(tokens, pos) {
        None => None,
        Some((st, j)) => {
            proof {
                lemma_parse_state_consumes(s);
                assert(dv.skip(j as int).len() < s.len());
            }
            if j == n {
                return None;
            }
            proof {
                assert(dv.skip(j as int)[0] == dv[j as int]);
                assert(dv.skip(j as int).drop_first() =~= dv.skip(j as int + 1));
            }
            match &tokens[j] {
                Token::RBrace => {
                    let ghost stv = st.deep_view();
                    let mut sts: Vec<StateDefinition> = Vec::new();
                    sts.push(st);
                    proof {
                        assert(sts.deep_view() =~= seq![stv]);
                    }
                    Some((sts, j + 1))
                },
                Token::Comma => {
                    match parse_states_at(tokens, j + 1) {
                        None => None,
                        Some((more, j2)) => {
                            let ghost stv = st.deep_view();
                            let ghost morev = more.deep_view();
                            let mut sts: Vec<StateDefinition> = Vec::new();
                            sts.push(st);
                            let mut more = more;
                            sts.append(&mut more);
                            proof {
                                assert(sts.deep_view() =~= seq![stv] + morev);
                            }
                            Some((sts, j2))
                        },
                    }
                },
                _ => None,
            }
        },
    }
}

impl Machine {
    /// Parses a whole machine description; the token stream must be
    /// consumed entirely.
    pub fn parse(tokens: &Vec<Token>) -> (r: Option<Machine>)
        ensures
            match r {
                Some(m) => parse_machine_spec(tokens.deep_view()) == Some(m.deep_view()),
                None => parse_machine_spec(tokens.deep_view()) is None,
            },
    {
        let ghost dv = tokens.deep_view();
        let n = tokens.len();
        proof {
            assert(dv.len() == n);
        }
        if n == 0 {
            return None;
        }
        let (name, p): (String, usize) = match &tokens[0] {
            Token::Ident(nm) => (nm.clone(), 1),
            _ => {
                return None;
            },
        };
        // optional ': SharedType'
        let has_colon = if 1 < n {
            if let Token::Colon = &tokens[1] {
                true
            } else {
                false
            }
        } else {
            false
        };
        let (dt, p2): (Option<String>, usize) = if has_colon {
            if n == 2 {
                return None;
            }
            match &tokens[2] {
                Token::Ident(t) => (Some(t.clone()), 3),
                _ => {
                    return None;
                },
            }
        } else {
            (None, 1)
        };
        proof {
            assert(parse_machine_spec(dv) == parse_machine_body(
                name@,
                dt.deep_view(),
                dv.skip(p2 as int),
            ));
        }
        let ghost body_arg = dv.skip(p2 as int);
        if p2 == n {
            return None;
        }
        proof {
            assert(body_arg[0] == dv[p2 as int]);
            assert(body_arg.drop_first() =~= dv.skip(p2 as int + 1));
        }
        match &tokens[p2] {
            Token::LBrace => {
                match parse_states_at(tokens, p2 + 1) {
                    None => None,
                    Some((sts, j)) => {
                        if j == n {
                            proof {
                                assert(dv.skip(j as int).len() == 0);
                            }
                            Some(Machine { name, shared_data_type: dt, states: sts })
                        } else {
                            None
                        }
                    },
                }
            },
            _ => None,
        }
    }
}

} // verus!
