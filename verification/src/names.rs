//! Derivation of the identifiers that appear on the compiled machine's
//! surface: the per-state enter/exit hook names, the per-state restore
//! routine names, and the wrapper type name.
//!
//! Hook and restore names are built from a state name by snake-casing it and
//! attaching a fixed prefix; the conversion is a pure, deterministic string
//! transform performed by an outside case-conversion library.
use vstd::prelude::*;
use vstd::string::StringExecFns;
use convert_case::{Case, Casing};

verus! {

/// The snake_case form of an identifier, exactly as the case converter
/// produces it (words split at case boundaries, lowered, joined by `_`).
pub uninterp spec fn snake_of(s: Seq<char>) -> Seq<char>;

/// Relies on convert_case's `Casing::to_case` with `Case::Snake`: the result
/// is a pure function of the input characters alone.
#[verifier::external_body]
fn snake_case(s: &str) -> (r: String)
    ensures
        r@ == snake_of(s@),
{
    s.to_case(Case::Snake)
}

/// Name of the enter hook scoped to the given state.
pub fn enter_hook_name(state: &str) -> (r: String)
    ensures
        r@ == "on_enter_"@ + snake_of(state@),
{
    let mut r = "on_enter_".to_owned();
    let s = snake_case(state);
    r.append(s.as_str());
    r
}

/// Name of the exit hook scoped to the given state.
pub fn exit_hook_name(state: &str) -> (r: String)
    ensures
        r@ == "on_exit_"@ + snake_of(state@),
{
    let mut r = "on_exit_".to_owned();
    let s = snake_case(state);
    r.append(s.as_str());
    r
}

/// Name of the restore routine dedicated to the given state.
pub fn restore_fn_name(state: &str) -> (r: String)
    ensures
        r@ == "restore_"@ + snake_of(state@),
{
    let mut r = "restore_".to_owned();
    let s = snake_case(state);
    r.append(s.as_str());
    r
}

/// Name of the wrapper type that tags a restored instance with its state;
/// derived from the machine name unchanged.
pub fn wrapped_type_name(machine: &str) -> (r: String)
    ensures
        r@ == "Wrapped"@ + machine@,
{
    let mut r = "Wrapped".to_owned();
    r.append(machine);
    r
}

} // verus!
