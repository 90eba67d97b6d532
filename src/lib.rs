//! Reads the counter dump of a drinks-tracking device: the framing of the
//! dump text and the link session that collects it.

use vstd::prelude::*;

pub mod parse;
pub mod serial;

verus! {

/// One named counter of a group.
#[derive(Debug, PartialEq)]
pub struct Beverage {
    pub name: String,
    pub count: usize,
}

impl Beverage {
    pub fn new(name: String, count: usize) -> (r: Self)
        ensures
            r.name@ == name@,
            r.count == count,
    {
        Self { name, count }
    }
}

} // verus!
