//! Conversions to indices, and a `Result` from a condition.
use vstd::prelude::*;

verus! {

/// A value taken as an index.
pub trait ToUSize {
    fn to_usize(&self) -> usize;
}

impl ToUSize for i8 {
    fn to_usize(&self) -> (r: usize)
        ensures
            r == *self as usize,
    {
        *self as usize
    }
}

impl ToUSize for u8 {
    fn to_usize(&self) -> (r: usize)
        ensures
            r == *self as usize,
    {
        *self as usize
    }
}

impl ToUSize for i16 {
    fn to_usize(&self) -> (r: usize)
        ensures
            r == *self as usize,
    {
        *self as usize
    }
}

impl ToUSize for u16 {
    fn to_usize(&self) -> (r: usize)
        ensures
            r == *self as usize,
    {
        *self as usize
    }
}

impl ToUSize for i32 {
    fn to_usize(&self) -> (r: usize)
        ensures
            r == *self as usize,
    {
        *self as usize
    }
}

impl ToUSize for u32 {
    fn to_usize(&self) -> (r: usize)
        ensures
            r == *self as usize,
    {
        *self as usize
    }
}

impl ToUSize for i64 {
    fn to_usize(&self) -> (r: usize)
        ensures
            r == *self as usize,
    {
        *self as usize
    }
}

impl ToUSize for u64 {
    fn to_usize(&self) -> (r: usize)
        ensures
            r == *self as usize,
    {
        *self as usize
    }
}

impl ToUSize for isize {
    fn to_usize(&self) -> (r: usize)
        ensures
            r == *self as usize,
    {
        *self as usize
    }
}

impl ToUSize for usize {
    fn to_usize(&self) -> (r: usize)
        ensures
            r == *self,
    {
        *self
    }
}

/// A `Result` that holds when a condition does.
pub trait ResultExt<E>: Sized {
    fn from_bool(condition: bool, err: Result<(), E>) -> Result<(), E>;
}

impl<E> ResultExt<E> for Result<(), E> {
    /// `Ok(())` when `condition` holds, else `err`.
    fn from_bool(condition: bool, err: Result<(), E>) -> (r: Result<(), E>)
        ensures
            condition ==> r == Ok::<(), E>(()),
            !condition ==> r == err,
    {
        if !condition {
            return err;
        }
        Ok(())
    }
}

} // verus!
