//! The resource table backing 32-bit resource representations.
//!
//! Every representation handed across the boundary is an index into this
//! table; the entry holds the engine's opaque token.  Lowering a handle
//! pushes a token and writes the fresh representation; lifting an owned
//! handle removes the entry, lifting a borrowed one reads it.

use vstd::prelude::*;

use crate::error::{Error, ErrorKind};
use crate::value::Token;

verus! {

/// A table of live resources, keyed by the 32-bit representation that is
/// its index.  A removed entry leaves a dead slot so representations are
/// never reused within a table's lifetime.
pub struct ResourceTable {
    slots: Vec<Option<Token>>,
}

impl View for ResourceTable {
    type V = Seq<Option<Token>>;

    closed spec fn view(&self) -> Seq<Option<Token>> {
        self.slots@
    }
}

impl ResourceTable {
    /// An empty table.
    pub fn new() -> (r: ResourceTable)
        ensures
            r@ == Seq::<Option<Token>>::empty(),
    {
        ResourceTable { slots: Vec::new() }
    }

    /// Number of slots ever created, live or dead.
    pub fn slot_count(&self) -> (r: usize)
        ensures
            r == self@.len(),
    {
        self.slots.len()
    }

    /// Pushes a token, returning the fresh 32-bit representation backing
    /// it.  Fails only when the representation space is exhausted.
    pub fn push(&mut self, tok: Token) -> (r: Result<u32, Error>)
        ensures
            r is Ok <==> old(self)@.len() <= u32::MAX,
            r matches Ok(rep) ==> rep as int == old(self)@.len() && final(self)@ == old(
                self,
            )@.push(Some(tok)),
            r matches Err(e) ==> e.kind == ErrorKind::EngineError && final(self)@ == old(self)@,
    {
        if (self.slots.len() as u64) > (u32::MAX as u64) {
            Err(Error::new(ErrorKind::EngineError))
        } else {
            let rep = self.slots.len() as u32;
            self.slots.push(Some(tok));
            Ok(rep)
        }
    }

    /// Reads the live entry at `rep` without removing it.
    pub fn get(&self, rep: u32) -> (r: Result<Token, Error>)
        ensures
            r is Ok <==> (rep as int) < self@.len() && self@[rep as int] is Some,
            r matches Ok(tok) ==> self@[rep as int] == Some(tok),
            r matches Err(e) ==> e.kind == ErrorKind::ResourceTableMiss,
    {
        if (rep as usize) < self.slots.len() {
            match self.slots[rep as usize] {
                Some(tok) => Ok(tok),
                None => Err(Error::new(ErrorKind::ResourceTableMiss)),
            }
        } else {
            Err(Error::new(ErrorKind::ResourceTableMiss))
        }
    }

    /// Removes and returns the live entry at `rep`, leaving a dead slot.
    pub fn remove(&mut self, rep: u32) -> (r: Result<Token, Error>)
        ensures
            r is Ok <==> (rep as int) < old(self)@.len() && old(self)@[rep as int] is Some,
            r matches Ok(tok) ==> old(self)@[rep as int] == Some(tok) && final(self)@ == old(
                self,
            )@.update(rep as int, None),
            r matches Err(e) ==> e.kind == ErrorKind::ResourceTableMiss && final(self)@ == old(
                self,
            )@,
    {
        if (rep as usize) < self.slots.len() {
            match self.slots[rep as usize] {
                Some(tok) => {
                    self.slots.set(rep as usize, None);
                    Ok(tok)
                },
                None => Err(Error::new(ErrorKind::ResourceTableMiss)),
            }
        } else {
            Err(Error::new(ErrorKind::ResourceTableMiss))
        }
    }
}

} // verus!
