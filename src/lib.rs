//! Small solvers over text input, around a core of nested-list packets (their
//! grammar, their order and their text): a one-register machine and its
//! screen, crate stacks, falling sand, monkeys passing items, rucksacks,
//! searches over a height map, and sensor zones.

use vstd::prelude::*;

pub mod cpu;
pub mod crates;
pub mod document;
pub mod heightmap;
pub mod marker;
pub mod monkey;
pub mod packet;
pub mod rucksack;
pub mod sand;
pub mod sensor;
pub mod text;

verus! {

/// The answer to a puzzle.
#[derive(Debug)]
pub struct Solution {
    pub value: usize,
}

impl Solution {
    pub fn new(value: usize) -> (r: Self)
        ensures
            r.value == value,
    {
        Self { value }
    }
}

} // verus!
