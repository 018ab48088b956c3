//! The null collection, which holds nothing and accepts no change.

use vstd::prelude::*;

use crate::error::{unsupported, Code, TCError};
use crate::txn::TxnId;

verus! {

/// What a transaction does to a participant at its end.
pub trait Transact {
    /// Make the changes of `txn_id` permanent.
    fn commit(&mut self, txn_id: &TxnId);

    /// Discard the changes of `txn_id`.
    fn rollback(&mut self, txn_id: &TxnId);
}

/// The class of the null collection.
#[derive(Clone, Copy, Debug, PartialEq, Eq, Structural)]
pub struct NullType;

/// The null collection.
#[derive(Clone, Copy, Debug, PartialEq, Eq, Structural)]
pub struct Null;

impl Null {
    pub fn create() -> (r: Null)
        ensures
            r == Null,
    {
        Null
    }

    pub fn class(&self) -> (r: NullType)
        ensures
            r == NullType,
    {
        NullType
    }

    /// The null collection is always empty.
    pub fn is_empty(&self) -> (r: bool)
        ensures
            r,
    {
        true
    }

    /// The null collection has nothing to read.
    pub fn get(&self) -> (r: Result<(), TCError>)
        ensures
            r matches Err(e) && e.code() == Code::BadRequest,
    {
        Err(unsupported("Null Collection has no contents to GET"))
    }

    /// The null collection cannot be modified.
    pub fn put(&mut self) -> (r: Result<(), TCError>)
        ensures
            r matches Err(e) && e.code() == Code::BadRequest,
            *final(self) == *old(self),
    {
        Err(unsupported("Null Collection cannot be modified"))
    }
}

impl Transact for Null {
    fn commit(&mut self, txn_id: &TxnId) {
    }

    fn rollback(&mut self, txn_id: &TxnId) {
    }
}

} // verus!
