use vstd::prelude::*;

verus! {

/// A todo record as the store keeps it.
#[derive(Clone, Debug)]
pub struct Todo {
    pub id: i64,
    pub description: String,
    pub done: bool,
}

} // verus!
