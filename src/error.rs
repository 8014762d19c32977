use vstd::prelude::*;

verus! {

/// Conditions that break the runtime's invariants. None of them is recoverable
/// by guest code: a host that meets one is expected to abort.
#[derive(Debug, Clone, Copy, PartialEq, Eq, Structural)]
pub enum Fatal {
    /// The identity names no live object (never allocated, or already deallocated).
    DeadObject,
    /// A retain count would no longer fit in its counter.
    CountOverflow,
    /// Every identity that the store can mint has been handed out.
    IdentitiesExhausted,
    /// The object's backing state is not of the kind that was asked for.
    WrongBlobType,
    /// An autorelease was requested while no pool was active.
    NoActivePool,
    /// A pool was popped while none was active.
    PoolUnderflow,
    /// No class on the lookup path implements the selector.
    DoesNotUnderstand,
    /// A class identifier names no registered class.
    UnknownClass,
    /// A guest address is out of range or misaligned.
    BadAddress,
    /// A fast-enumeration record holds a cursor past the end of the collection.
    CorruptEnumerationState,
    /// A class name was registered again with another superclass or other methods.
    ConflictingRegistration,
}

} // verus!
