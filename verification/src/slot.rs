//! The last-error slot: the diagnostic a failing entry point leaves for
//! the caller to drain.

use vstd::prelude::*;

verus! {

/// Holds at most one NUL-terminated diagnostic.  Each failing call
/// overwrites it; draining clears it.
pub struct ErrorSlot {
    msg: Option<Vec<u8>>,
}

impl View for ErrorSlot {
    type V = Option<Seq<u8>>;

    closed spec fn view(&self) -> Option<Seq<u8>> {
        match self.msg {
            Some(ref v) => Some(v@),
            None => None,
        }
    }
}

impl ErrorSlot {
    /// An empty slot.
    pub fn new() -> (r: ErrorSlot)
        ensures
            r@ is None,
    {
        ErrorSlot { msg: None }
    }

    /// Stores a diagnostic, appending the terminating NUL.  The bytes may
    /// not contain an interior NUL.
    pub fn store(&mut self, bytes: Vec<u8>)
        requires
            forall|i: int| 0 <= i < bytes@.len() ==> bytes@[i] != 0u8,
        ensures
            final(self)@ == Some(bytes@.push(0u8)),
    {
        let mut b = bytes;
        b.push(0);
        self.msg = Some(b);
    }

    /// Byte length of the stored diagnostic including its NUL, or 0 when
    /// the slot is empty.  Does not drain.
    pub fn len(&self) -> (r: usize)
        ensures
            (match self@ {
                Some(s) => r == s.len(),
                None => r == 0,
            }),
    {
        match &self.msg {
            Some(v) => v.len(),
            None => 0,
        }
    }

    /// Drains the slot: returns up to `cap` bytes of the stored
    /// diagnostic and clears it.  An empty slot yields nothing.
    pub fn take(&mut self, cap: usize) -> (r: Vec<u8>)
        ensures
            final(self)@ is None,
            (match old(self)@ {
                Some(s) => r@ == s.subrange(0, vstd::math::min(s.len() as int, cap as int)),
                None => r@ == Seq::<u8>::empty(),
            }),
    {
        match self.msg.take() {
            Some(v) => {
                let n = if v.len() < cap {
                    v.len()
                } else {
                    cap
                };
                let mut out: Vec<u8> = Vec::new();
                let mut i: usize = 0;
                while i < n
                    invariant
                        i <= n,
                        n <= v@.len(),
                        out@ == v@.subrange(0, i as int),
                    decreases n - i,
                {
                    out.push(v[i]);
                    i = i + 1;
                    proof {
                        assert(out@ =~= v@.subrange(0, i as int));
                    }
                }
                out
            },
            None => Vec::new(),
        }
    }
}

} // verus!
