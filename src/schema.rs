use vstd::prelude::*;

use crate::repo;

verus! {

/// A todo item as the API shows it.
#[derive(Clone, Debug)]
pub struct Todo {
    pub id: i64,
    pub description: String,
    pub done: bool,
}

/// The body of a request that creates a todo item.
#[derive(Clone, Debug)]
pub struct CreateTodo {
    pub description: String,
}

impl Todo {
    pub fn from_entity(entity: repo::Todo) -> (r: Todo)
        ensures
            r.id == entity.id,
            r.description@ == entity.description@,
            r.done == entity.done,
    {
        Todo { id: entity.id, description: entity.description, done: entity.done }
    }
}

impl CreateTodo {
    /// A new record: not done, with id 0 until the store assigns one.
    pub fn into_entity(self) -> (r: repo::Todo)
        ensures
            r.id == 0,
            r.description@ == self.description@,
            !r.done,
    {
        repo::Todo { id: 0, description: self.description, done: false }
    }
}

} // verus!
