//! `Obj`: what a cell of a level holds.
use vstd::prelude::*;

verus! {

/// What a cell of a level holds.
#[derive(Clone, Copy, Eq, PartialEq, Structural, Hash, Debug)]
pub enum Obj {
    Space,
    Wall,
    Deer,
}

impl Obj {
    /// The character that draws this object: `.`, `#` or `d`.
    pub open spec fn spec_char(self) -> char {
        match self {
            Obj::Space => '.',
            Obj::Wall => '#',
            Obj::Deer => 'd',
        }
    }

    /// The object drawn by `c`, which must be `.`, `#` or `d`.
    pub fn from_char(c: &char) -> (r: Obj)
        requires
            *c == '.' || *c == '#' || *c == 'd',
        ensures
            r.spec_char() == *c,
    {
        if *c == '.' {
            Obj::Space
        } else if *c == '#' {
            Obj::Wall
        } else {
            Obj::Deer
        }
    }

    pub fn to_char(&self) -> (r: char)
        ensures
            r == self.spec_char(),
    {
        match self {
            Obj::Space => '.',
            Obj::Wall => '#',
            Obj::Deer => 'd',
        }
    }
}

} // verus!
