//! Canonical-ABI marshalling for a component runtime.
//!
//! A host that loads a self-contained component invokes its exports through a
//! single generic entry point: the caller passes a flattened vector of scalar
//! argument cells followed by result out-pointers, and the runtime converts
//! between that in-memory layout and typed component values.  This crate is
//! the codec at the heart of that entry point:
//!
//! * [`schema`] — the dynamic type former a value is marshalled under;
//! * [`layout`] — canonical size, alignment and flattened-cell counts;
//! * [`mem`] — the byte-level model of caller-owned memory;
//! * [`value`] — typed component values and their mathematical view;
//! * [`lift`] — reading typed values out of memory and argument cells;
//! * [`lower`] — writing typed values into caller buffers;
//! * [`resource`] — the table backing 32-bit resource representations;
//! * [`slot`] — the last-error diagnostic slot;
//! * [`facade`] — per-call dispatch and the call state machine.
//!
//! Lowering is proved to write exactly the canonical bytes: its postcondition
//! states that lifting the written region yields the original value back.

use vstd::prelude::*;

pub mod error;
pub mod facade;
pub mod layout;
pub mod lift;
pub mod lower;
pub mod mem;
pub mod resource;
pub mod schema;
pub mod slot;
pub mod value;

verus! {

/// A length-prefixed view of caller memory: the address of the first byte and
/// the number of elements.  This is the two-cell pair a lowered string or list
/// occupies, and the shape in which a caller hands the component binary in.
/// The two cells are fixed at 8 bytes each — the codec reads "pointer-sized"
/// as a 64-bit host address throughout.
///
/// An empty string or list is the pair `(0, 0)`.
pub struct List {
    /// Address of the first element inside the caller's memory.
    pub ptr: usize,
    /// Number of elements.
    pub len: usize,
}

} // verus!
