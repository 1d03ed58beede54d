use vstd::prelude::*;

pub mod bisect;
pub mod grid;
pub mod level;
pub mod obj;
pub mod path;
pub mod path2;
pub mod solve;
pub mod stackstack;
mod table;
pub mod text;
pub mod vector;

verus! {

} // verus!
