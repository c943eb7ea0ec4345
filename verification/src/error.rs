//! Error kinds raised while marshalling, and the index path that locates a
//! failure inside a nested aggregate.

use vstd::prelude::*;

verus! {

/// Everything that can go wrong between the caller's buffers and typed
/// component values.
///
/// In this byte-level model an address that does not fit the modelled memory
/// plays the role a null or wild pointer plays at a real boundary, so such an
/// address surfaces as `NullArgument`.
#[derive(Clone, Copy, Debug, PartialEq, Eq, Structural)]
pub enum ErrorKind {
    /// A required pointer was absent or outside the caller's memory.
    NullArgument,
    /// Bytes that had to be UTF-8 were not.
    InvalidUtf8,
    /// No export was found under the requested interface and name.
    ExportNotFound,
    /// The value does not have the schema type it is lowered under.
    TypeMismatch,
    /// A variant, enum or flag name that the schema does not list,
    /// or a stored discriminant past the number of cases.
    UnknownDiscriminant,
    /// A character cell outside the Unicode scalar-value range.
    InvalidChar,
    /// A stored boolean byte other than `0` or `1`.
    InvalidBool,
    /// An argument cell out of range for the narrow integer it carries.
    IntegerOutOfRange,
    /// An auxiliary heap allocation could not be made.
    AllocFailed,
    /// A schema former this codec does not support, such as more than 32
    /// flag names.
    UnsupportedSchema,
    /// A schema whose layout exceeds what the target can represent.
    SchemaTooLarge,
    /// A resource whose type identity differs from the schema's.
    ResourceTypeMismatch,
    /// A 32-bit representation with no live entry in the resource table.
    ResourceTableMiss,
    /// The invoked export trapped.
    GuestTrap,
    /// The engine failed outside the codec's own checks.
    EngineError,
}

/// A marshalling failure: the kind, and the path of element indices leading
/// from the outermost value to the aggregate component that failed.  The
/// outermost index comes first.
#[derive(Clone, Debug)]
pub struct Error {
    pub kind: ErrorKind,
    pub path: Vec<usize>,
}

impl Error {
    /// A failure at the value itself, with an empty path.
    pub fn new(kind: ErrorKind) -> (r: Error)
        ensures
            r.kind == kind,
            r.path@ == Seq::<usize>::empty(),
    {
        Error { kind, path: Vec::new() }
    }

    /// The same failure located one aggregate deeper: `index` becomes the
    /// outermost step of the path.
    pub fn nested(self, index: usize) -> (r: Error)
        ensures
            r.kind == self.kind,
            r.path@ == seq![index] + self.path@,
    {
        let mut path: Vec<usize> = Vec::new();
        path.push(index);
        let mut rest = self.path;
        let mut i: usize = 0;
        while i < rest.len()
            invariant
                i <= rest.len(),
                path@ == seq![index] + rest@.subrange(0, i as int),
            decreases rest.len() - i,
        {
            path.push(rest[i]);
            i = i + 1;
        }
        proof {
            assert(rest@.subrange(0, rest@.len() as int) =~= rest@);
        }
        Error { kind: self.kind, path }
    }
}

} // verus!
