use vstd::prelude::*;

use std::sync::{Arc, Mutex};

use crate::structs::Cell;

verus! {

/// A lock around a value shared between threads: its contents are opaque here.
#[verifier::external_type_specification]
#[verifier::external_body]
#[verifier::reject_recursive_types(T)]
pub struct ExMutex<T: ?Sized>(Mutex<T>);

/// `Arc::clone`: another handle to the same shared cell, which Verus sees as equal to
/// the first.
#[verifier::external_body]
pub(crate) fn share(cell: &Arc<Mutex<Cell>>) -> (handle: Arc<Mutex<Cell>>)
    ensures
        handle == *cell,
{
    Arc::clone(cell)
}

} // verus!
