//! The record that the example guests exchange through the bridge.
use vstd::prelude::*;

verus! {

/// A person, as the example guests encode and decode it.
pub struct Person {
    pub name: String,
    pub age: u32,
}

/// The callee's computation: the same person with the age replaced.
pub fn foo(person: Person, new_age: u32) -> (r: Person)
    ensures
        r.name@ == person.name@,
        r.age == new_age,
{
    Person { name: person.name, age: new_age }
}

} // verus!
