//! Failure-assertion vocabulary of the crash-only fault model.
//!
//! Each check classifies a fault by who is at fault (the caller, the callee,
//! internal data integrity) and names its site; a failed check yields the
//! [`Fault`] that the port's error handler turns into a safe stop.

use vstd::prelude::*;

verus! {

/// Who is at fault when a check fails.
#[derive(Debug, Clone, Copy, PartialEq, Eq, Structural)]
pub enum FaultKind {
    /// A precondition: the caller violated the contract.
    Precondition,
    /// A postcondition: the callee failed to deliver.
    Postcondition,
    /// An invariant: internal data integrity is broken.
    Invariant,
    /// A general assertion.
    Assertion,
    /// A forbidden path was reached.
    Error,
}

/// A detected fault and where it was detected.
#[derive(Debug, Clone, Copy, PartialEq, Eq)]
pub struct Fault {
    /// Classification of the fault.
    pub kind: FaultKind,
    /// Module that detected it.
    pub module: &'static str,
    /// Fault id within the module (by convention the source line).
    pub id: u32,
}

/// Outcome of a check of `kind` at `module`/`id`.
pub open spec fn checked(cond: bool, kind: FaultKind, module: &'static str, id: u32, r: Result<(), Fault>) -> bool {
    if cond {
        r is Ok
    } else {
        r matches Err(f) && f.kind == kind && f.module == module && f.id == id
    }
}

fn check(cond: bool, kind: FaultKind, module: &'static str, id: u32) -> (r: Result<(), Fault>)
    ensures
        checked(cond, kind, module, id, r),
{
    if cond {
        Ok(())
    } else {
        Err(Fault { kind, module, id })
    }
}

/// Checks a precondition.
pub fn q_require(cond: bool, module: &'static str, id: u32) -> (r: Result<(), Fault>)
    ensures
        checked(cond, FaultKind::Precondition, module, id, r),
{
    check(cond, FaultKind::Precondition, module, id)
}

/// Checks a postcondition.
pub fn q_ensure(cond: bool, module: &'static str, id: u32) -> (r: Result<(), Fault>)
    ensures
        checked(cond, FaultKind::Postcondition, module, id, r),
{
    check(cond, FaultKind::Postcondition, module, id)
}

/// Checks a data-integrity invariant.
pub fn q_invariant(cond: bool, module: &'static str, id: u32) -> (r: Result<(), Fault>)
    ensures
        checked(cond, FaultKind::Invariant, module, id, r),
{
    check(cond, FaultKind::Invariant, module, id)
}

/// Checks a general assertion.
pub fn q_assert(cond: bool, module: &'static str, id: u32) -> (r: Result<(), Fault>)
    ensures
        checked(cond, FaultKind::Assertion, module, id, r),
{
    check(cond, FaultKind::Assertion, module, id)
}

/// The fault of reaching a forbidden path.
pub fn q_error(module: &'static str, id: u32) -> (f: Fault)
    ensures
        f.kind == FaultKind::Error,
        f.module == module,
        f.id == id,
{
    Fault { kind: FaultKind::Error, module, id }
}

} // verus!
