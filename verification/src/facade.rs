//! Per-call dispatch: the state machine a call walks through, and the
//! interception of `[resource-drop]` names ahead of export lookup.

use vstd::prelude::*;

use crate::error::{Error, ErrorKind};
use crate::resource::ResourceTable;
use crate::value::Token;

verus! {

/// The states a single call passes through.  The happy path runs from
/// `Idle` through lookup, lifting, the engine invocation, lowering and the
/// guest's post-return hook back to `Idle`; any state may fall to `Failed`
/// and from there only back to `Idle`.  A `[resource-drop]` call takes the
/// short `Dropping` path.
#[derive(Clone, Copy, Debug, PartialEq, Eq, Structural)]
pub enum CallState {
    Idle,
    LookingUp,
    Lifting,
    Invoking,
    Lowering,
    PostReturn,
    Dropping,
    Failed,
}

/// One step of a call: either the next stage succeeded, or it failed.
#[derive(Clone, Copy, Debug, PartialEq, Eq, Structural)]
pub enum CallEvent {
    Advance,
    Fault,
}

/// Whether a transition between call states is among those the per-call
/// state machine allows.
pub open spec fn call_transition_allowed(from: CallState, to: CallState) -> bool {
    ||| (from == CallState::Idle && (to == CallState::LookingUp || to == CallState::Dropping))
    ||| (from == CallState::LookingUp && to == CallState::Lifting)
    ||| (from == CallState::Lifting && to == CallState::Invoking)
    ||| (from == CallState::Invoking && to == CallState::Lowering)
    ||| (from == CallState::Lowering && to == CallState::PostReturn)
    ||| (from == CallState::PostReturn && to == CallState::Idle)
    ||| (from == CallState::Dropping && to == CallState::Idle)
    ||| (to == CallState::Failed && from != CallState::Idle && from != CallState::Failed)
    ||| (from == CallState::Failed && to == CallState::Idle)
}

/// The state one step after `s` on event `e`: an advance walks the happy
/// path (or the drop path out of `Idle`), a fault in a working state lands
/// in `Failed`, and `Failed` — like a fault in `Idle` — resolves to `Idle`.
pub open spec fn call_successor(s: CallState, e: CallEvent, drop_path: bool) -> CallState {
    if s == CallState::Failed {
        CallState::Idle
    } else if e == CallEvent::Fault {
        if s == CallState::Idle {
            CallState::Idle
        } else {
            CallState::Failed
        }
    } else {
        match s {
            CallState::Idle => if drop_path {
                CallState::Dropping
            } else {
                CallState::LookingUp
            },
            CallState::LookingUp => CallState::Lifting,
            CallState::Lifting => CallState::Invoking,
            CallState::Invoking => CallState::Lowering,
            CallState::Lowering => CallState::PostReturn,
            CallState::PostReturn => CallState::Idle,
            CallState::Dropping => CallState::Idle,
            CallState::Failed => CallState::Idle,
        }
    }
}

/// Advances the per-call state machine by one event.  The result is exactly
/// the successor state: a fault in any working state lands in `Failed`;
/// `Failed` and the terminal stages return to `Idle`; `drop_path` picks the
/// short path out of `Idle`.  Every step taken from a working state is
/// among the allowed transitions.
pub fn call_step(s: CallState, e: CallEvent, drop_path: bool) -> (r: CallState)
    ensures
        r == call_successor(s, e, drop_path),
        s == CallState::Idle && e == CallEvent::Advance ==> call_transition_allowed(s, r),
        s != CallState::Idle && s != CallState::Failed ==> call_transition_allowed(s, r),
{
    match s {
        CallState::Idle => {
            if e == CallEvent::Fault {
                CallState::Idle
            } else if drop_path {
                CallState::Dropping
            } else {
                CallState::LookingUp
            }
        },
        CallState::LookingUp => {
            if e == CallEvent::Fault {
                CallState::Failed
            } else {
                CallState::Lifting
            }
        },
        CallState::Lifting => {
            if e == CallEvent::Fault {
                CallState::Failed
            } else {
                CallState::Invoking
            }
        },
        CallState::Invoking => {
            if e == CallEvent::Fault {
                CallState::Failed
            } else {
                CallState::Lowering
            }
        },
        CallState::Lowering => {
            if e == CallEvent::Fault {
                CallState::Failed
            } else {
                CallState::PostReturn
            }
        },
        CallState::PostReturn => {
            if e == CallEvent::Fault {
                CallState::Failed
            } else {
                CallState::Idle
            }
        },
        CallState::Dropping => {
            if e == CallEvent::Fault {
                CallState::Failed
            } else {
                CallState::Idle
            }
        },
        CallState::Failed => CallState::Idle,
    }
}

/// Relies on `str::strip_prefix` with a `&str` pattern: it returns the
/// suffix after the prefix when the string starts with it, and nothing
/// otherwise.
#[verifier::external_body]
fn strip_prefix_str<'a>(s: &'a str, prefix: &str) -> (r: Option<&'a str>)
    ensures
        r is Some ==> s@.len() >= prefix@.len() && s@.subrange(0, prefix@.len() as int)
            == prefix@,
        r is None ==> !(s@.len() >= prefix@.len() && s@.subrange(0, prefix@.len() as int)
            == prefix@),
        r matches Some(t) ==> t@ == s@.subrange(prefix@.len() as int, s@.len() as int),
{
    s.strip_prefix(prefix)
}

/// How a call is to be handled: a regular export invocation, or the
/// resource-drop fast path with the type-name suffix kept for diagnostics.
pub enum Dispatch {
    Invoke,
    DropResource(String),
}

/// The sentinel prefix that marks a resource-drop call.
pub open spec fn drop_prefix() -> Seq<char> {
    "[resource-drop]"@
}

/// Decides how a call named `name` is dispatched: a name carrying the
/// `[resource-drop]` sentinel prefix takes the drop path, with the rest of
/// the name as the diagnostic type name; every other name is a regular
/// export invocation.
pub fn dispatch_call(name: &String) -> (r: Dispatch)
    ensures
        (r is DropResource <==> name@.len() >= drop_prefix().len() && name@.subrange(
            0,
            drop_prefix().len() as int,
        ) == drop_prefix()),
        r matches Dispatch::DropResource(suffix) ==> suffix@ == name@.subrange(
            drop_prefix().len() as int,
            name@.len() as int,
        ),
{
    match strip_prefix_str(name.as_str(), "[resource-drop]") {
        Some(rest) => Dispatch::DropResource(String::from_str(rest)),
        None => Dispatch::Invoke,
    }
}

/// Serves a `[resource-drop]` call: reads the 32-bit representation from
/// the first argument cell, removes that entry from the table, and hands
/// the token back so the engine's drop hook can run.  A representation
/// with no live entry is a `ResourceTableMiss`; a second drop of the same
/// representation therefore fails.
pub fn resource_drop(cells: &Vec<u64>, tbl: &mut ResourceTable) -> (r: Result<Token, Error>)
    ensures
        r is Ok <==> cells@.len() >= 1 && cells@[0] <= u32::MAX as u64 && (cells@[0] as int)
            < old(tbl)@.len() && old(tbl)@[cells@[0] as int] is Some,
        r matches Ok(tok) ==> old(tbl)@[cells@[0] as int] == Some(tok) && final(tbl)@ == old(
            tbl,
        )@.update(cells@[0] as int, None),
        r matches Err(e) ==> final(tbl)@ == old(tbl)@ && (e.kind == ErrorKind::NullArgument
            || e.kind == ErrorKind::IntegerOutOfRange || e.kind == ErrorKind::ResourceTableMiss),
        r matches Err(e) && e.kind == ErrorKind::NullArgument ==> cells@.len() == 0,
        r matches Err(e) && e.kind == ErrorKind::IntegerOutOfRange ==> cells@.len() >= 1
            && cells@[0] > u32::MAX as u64,
{
    if cells.len() < 1 {
        return Err(Error::new(ErrorKind::NullArgument));
    }
    let rep64 = cells[0];
    if rep64 > u32::MAX as u64 {
        return Err(Error::new(ErrorKind::IntegerOutOfRange));
    }
    tbl.remove(rep64 as u32)
}

} // verus!
