//! `Move`: the four directions in their one-bit-per-direction coding.
use vstd::prelude::*;
use crate::path2::Move2;
use crate::text::push_char;
use crate::vector::{Vector, VectorSm};

verus! {

/// A direction of movement, coded as a single bit: up 1, right 2, down 4, left 8.
#[derive(Clone, Copy, PartialEq, Eq, Structural, Debug)]
pub enum Move {
    Up,
    Right,
    Down,
    Left,
}

impl Move {
    /// The bit that codes this direction.
    pub open spec fn bit(self) -> u8 {
        match self {
            Move::Up => 1,
            Move::Right => 2,
            Move::Down => 4,
            Move::Left => 8,
        }
    }

    /// The same direction as a `Move2`.
    pub open spec fn spec_as_move2(self) -> Move2 {
        match self {
            Move::Up => Move2::Up,
            Move::Right => Move2::Right,
            Move::Down => Move2::Down,
            Move::Left => Move2::Left,
        }
    }

    /// The letter that names this direction.
    pub open spec fn letter(self) -> char {
        self.spec_as_move2().letter()
    }

    pub open spec fn dx(self) -> int {
        self.spec_as_move2().dx()
    }

    pub open spec fn dy(self) -> int {
        self.spec_as_move2().dy()
    }

    pub open spec fn spec_rotr(self) -> Move {
        match self {
            Move::Up => Move::Right,
            Move::Right => Move::Down,
            Move::Down => Move::Left,
            Move::Left => Move::Up,
        }
    }

    pub open spec fn spec_rotl(self) -> Move {
        match self {
            Move::Up => Move::Left,
            Move::Left => Move::Down,
            Move::Down => Move::Right,
            Move::Right => Move::Up,
        }
    }

    pub open spec fn spec_reverse(self) -> Move {
        self.spec_rotr().spec_rotr()
    }

    pub fn u(&self) -> (r: u8)
        ensures
            r == self.bit(),
    {
        match self {
            Move::Up => 1,
            Move::Right => 2,
            Move::Down => 4,
            Move::Left => 8,
        }
    }

    /// Turns 90 degrees clockwise.
    pub fn rotr(&self) -> (r: Move)
        ensures
            r == self.spec_rotr(),
    {
        match self {
            Move::Up => Move::Right,
            Move::Right => Move::Down,
            Move::Down => Move::Left,
            Move::Left => Move::Up,
        }
    }

    /// Turns 90 degrees anticlockwise.
    pub fn rotl(&self) -> (r: Move)
        ensures
            r == self.spec_rotl(),
    {
        match self {
            Move::Up => Move::Left,
            Move::Left => Move::Down,
            Move::Down => Move::Right,
            Move::Right => Move::Up,
        }
    }

    /// The unit step of this direction (y grows downwards).
    pub fn to_vector(&self) -> (r: Vector)
        ensures
            r.0 == self.dx(),
            r.1 == self.dy(),
    {
        match self {
            Move::Up => Vector(0, -1),
            Move::Right => Vector(1, 0),
            Move::Down => Vector(0, 1),
            Move::Left => Vector(-1, 0),
        }
    }

    /// The direction whose bit is `n`, which must be one of 1, 2, 4, 8.
    pub fn from_u8_unchecked(n: u8) -> (r: Move)
        requires
            n == 1 || n == 2 || n == 4 || n == 8,
        ensures
            r.bit() == n,
    {
        if n == 1 {
            Move::Up
        } else if n == 2 {
            Move::Right
        } else if n == 4 {
            Move::Down
        } else {
            Move::Left
        }
    }

    /// The direction whose bit is `n`, if there is one.
    pub fn from_u8(n: u8) -> (r: Option<Move>)
        ensures
            (n == 1 || n == 2 || n == 4 || n == 8) <==> r.is_some(),
            r.is_some() ==> r.unwrap().bit() == n,
    {
        match n {
            1 => Some(Move::Up),
            2 => Some(Move::Right),
            4 => Some(Move::Down),
            8 => Some(Move::Left),
            _ => None,
        }
    }

    /// The opposite direction.
    pub fn reverse(&self) -> (r: Move)
        ensures
            r == self.spec_reverse(),
    {
        match self {
            Move::Up => Move::Down,
            Move::Left => Move::Right,
            Move::Right => Move::Left,
            Move::Down => Move::Up,
        }
    }

    /// The direction drawn by an arrow character: `^`, `>`, `v` or `<`.
    pub fn from_char_unchecked(c: char) -> (r: Move)
        requires
            c == '^' || c == '>' || c == 'v' || c == '<',
        ensures
            c == '^' ==> r == Move::Up,
            c == '>' ==> r == Move::Right,
            c == 'v' ==> r == Move::Down,
            c == '<' ==> r == Move::Left,
    {
        if c == '^' {
            Move::Up
        } else if c == '>' {
            Move::Right
        } else if c == 'v' {
            Move::Down
        } else {
            Move::Left
        }
    }

    /// The unit step of this direction, with small coordinates.
    pub fn to_vector_sm(&self) -> (r: VectorSm)
        ensures
            r.0 == self.dx(),
            r.1 == self.dy(),
    {
        match self {
            Move::Up => VectorSm(0, -1),
            Move::Right => VectorSm(1, 0),
            Move::Down => VectorSm(0, 1),
            Move::Left => VectorSm(-1, 0),
        }
    }

    /// One letter: `U`, `R`, `D` or `L`.
    pub fn to_string(&self) -> (r: String)
        ensures
            r@ == seq![self.letter()],
    {
        let mut s = String::new();
        let c = match self {
            Move::Up => 'U',
            Move::Right => 'R',
            Move::Down => 'D',
            Move::Left => 'L',
        };
        push_char(&mut s, c);
        assert(s@ =~= seq![self.letter()]);
        s
    }

    pub fn as_move2(&self) -> (r: Move2)
        ensures
            r == self.spec_as_move2(),
    {
        match self {
            Move::Up => Move2::Up,
            Move::Right => Move2::Right,
            Move::Down => Move2::Down,
            Move::Left => Move2::Left,
        }
    }
}

} // verus!
