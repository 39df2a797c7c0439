//! The failures that store operations report.

use vstd::prelude::*;

verus! {

/// Why an operation on the store was rejected. A rejected operation leaves the
/// store as it was.
#[derive(Clone, Copy, Debug, PartialEq, Eq, Structural)]
pub enum KvError {
    /// A scalar was asked for under a key that holds nothing.
    NoSuchKey,
    /// The key holds an item of another shape than the operation works on.
    TypeMismatch,
    /// A counter or an element count would leave the range of `i32`.
    Overflow,
    /// An intersection was asked for, and none of the named keys holds a set.
    IndexOutOfRange,
}

impl KvError {
    /// A short description of the failure.
    pub fn message(&self) -> (text: &'static str)
        ensures
            text@ == Self::message_of(*self),
    {
        match self {
            KvError::NoSuchKey => "no such key",
            KvError::TypeMismatch => "the key holds an item of another shape",
            KvError::Overflow => "the value does not fit in 32 bits",
            KvError::IndexOutOfRange => "none of the keys holds a set",
        }
    }

    /// The text that `message` returns for each failure.
    pub open spec fn message_of(e: KvError) -> Seq<char> {
        match e {
            KvError::NoSuchKey => "no such key"@,
            KvError::TypeMismatch => "the key holds an item of another shape"@,
            KvError::Overflow => "the value does not fit in 32 bits"@,
            KvError::IndexOutOfRange => "none of the keys holds a set"@,
        }
    }
}

} // verus!
