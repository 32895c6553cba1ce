//! The zero-size guard on key and element types.
use vstd::prelude::*;
use vstd::layout::size_of;
use crate::error::CodecError;

verus! {

/// Whether values of `T` occupy no memory.
pub open spec fn zero_sized<T>() -> bool {
    size_of::<T>() == 0
}

/// Refuses key and element types whose values occupy no memory: their
/// records would carry nothing that tells one entry from another.
pub fn check_zst<T>() -> (r: Result<(), CodecError>)
    ensures
        zero_sized::<T>() ==> r == Err::<(), CodecError>(CodecError::ZeroSizedKeyRejected),
        !zero_sized::<T>() ==> r is Ok,
{
    if core::mem::size_of::<T>() == 0 {
        return Err(CodecError::ZeroSizedKeyRejected);
    }
    Ok(())
}

} // verus!
