//! Points and offsets on the grid: `Vector` with `i32` coordinates,
//! `VectorSm` with `i8` coordinates, and `SuperPrefix`, a table of
//! distinct 128-bit blocks.
use vstd::prelude::*;
use vstd::math::abs;
use crate::grid::Grid;
use crate::path::Move;
use crate::path2::Move2;
use crate::text::{int_text, push_char, push_int};

verus! {

/// A point or an offset: `(x, y)`, with y growing downwards.
#[derive(Clone, Copy, PartialEq, Eq, Structural, PartialOrd, Ord, Debug)]
pub struct Vector(pub i32, pub i32);

/// `(x,y)` in decimal.
pub open spec fn pair_text(x: int, y: int) -> Seq<char> {
    seq!['('] + int_text(x) + seq![','] + int_text(y) + seq![')']
}

fn push_pair(x: i64, y: i64) -> (r: String)
    ensures
        r@ == pair_text(x as int, y as int),
{
    let mut s = String::new();
    push_char(&mut s, '(');
    push_int(&mut s, x);
    push_char(&mut s, ',');
    push_int(&mut s, y);
    push_char(&mut s, ')');
    assert(s@ =~= pair_text(x as int, y as int));
    s
}

/// Whether `v` is an `i32` value.
pub open spec fn fits_i32(v: int) -> bool {
    i32::MIN <= v <= i32::MAX
}

/// Whether `v` is an `i8` value.
pub open spec fn fits_i8(v: int) -> bool {
    i8::MIN <= v <= i8::MAX
}

impl Vector {
    /// The point one step from this one in direction `m`.
    pub open spec fn moved(self, m: Move2) -> Vector {
        Vector((self.0 + m.dx()) as i32, (self.1 + m.dy()) as i32)
    }

    /// Whether the step in direction `m` stays within `i32`.
    pub open spec fn can_move(self, m: Move2) -> bool {
        fits_i32(self.0 + m.dx()) && fits_i32(self.1 + m.dy())
    }

    pub fn new(x: i32, y: i32) -> (r: Vector)
        ensures
            r == Vector(x, y),
    {
        Vector(x, y)
    }

    pub fn add(&self, dir: &Vector) -> (r: Vector)
        requires
            fits_i32(self.0 + dir.0),
            fits_i32(self.1 + dir.1),
        ensures
            r.0 == self.0 + dir.0,
            r.1 == self.1 + dir.1,
    {
        Vector(self.0 + dir.0, self.1 + dir.1)
    }

    pub fn sub(&self, v: &Vector) -> (r: Vector)
        requires
            fits_i32(self.0 - v.0),
            fits_i32(self.1 - v.1),
        ensures
            r.0 == self.0 - v.0,
            r.1 == self.1 - v.1,
    {
        Vector(self.0 - v.0, self.1 - v.1)
    }

    /// The Manhattan distance between the two points.
    pub fn distance(&self, v: &Vector) -> (r: i32)
        requires
            fits_i32(abs(self.0 - v.0) + abs(self.1 - v.1) as int),
        ensures
            r == abs(self.0 - v.0) + abs(self.1 - v.1),
    {
        let dx: i64 = self.0 as i64 - v.0 as i64;
        let dy: i64 = self.1 as i64 - v.1 as i64;
        let ax: i64 = if dx < 0 { -dx } else { dx };
        let ay: i64 = if dy < 0 { -dy } else { dy };
        (ax + ay) as i32
    }

    pub fn double(&self) -> (r: Vector)
        requires
            fits_i32(self.0 * 2),
            fits_i32(self.1 * 2),
        ensures
            r.0 == self.0 * 2,
            r.1 == self.1 * 2,
    {
        Vector(self.0 * 2, self.1 * 2)
    }

    pub fn mul(&self, n: i32) -> (r: Vector)
        requires
            fits_i32(self.0 * n),
            fits_i32(self.1 * n),
        ensures
            r.0 == self.0 * n,
            r.1 == self.1 * n,
    {
        Vector(self.0 * n, self.1 * n)
    }

    /// Turns the offset 90 degrees: `(x, y)` becomes `(y, -x)`.
    pub fn rotr(&self) -> (r: Vector)
        requires
            self.0 != i32::MIN,
        ensures
            r.0 == self.1 && r.1 == -self.0,
    {
        Vector(self.1, -self.0)
    }

    /// Turns the offset 90 degrees: `(x, y)` becomes `(-y, x)`.
    pub fn rotl(&self) -> (r: Vector)
        requires
            self.1 != i32::MIN,
        ensures
            r.0 == -self.1 && r.1 == self.0,
    {
        Vector(-self.1, self.0)
    }

    pub fn scale_by(&self, n: i32) -> (r: Vector)
        requires
            fits_i32(self.0 * n),
            fits_i32(self.1 * n),
        ensures
            r.0 == self.0 * n,
            r.1 == self.1 * n,
    {
        Vector(self.0 * n, self.1 * n)
    }

    pub fn eq(&self, a: &Vector) -> (r: bool)
        ensures
            r == (*self == *a),
    {
        self.0 == a.0 && self.1 == a.1
    }

    /// The point one step away in direction `dir`.
    pub fn add_dir(&self, dir: &Move) -> (r: Vector)
        requires
            self.can_move(dir.spec_as_move2()),
        ensures
            r == self.moved(dir.spec_as_move2()),
    {
        match dir {
            Move::Up => Vector(self.0, self.1 - 1),
            Move::Right => Vector(self.0 + 1, self.1),
            Move::Down => Vector(self.0, self.1 + 1),
            Move::Left => Vector(self.0 - 1, self.1),
        }
    }

    /// The point one step away in direction `dir`.
    pub fn apply_dir(&self, dir: &Move2) -> (r: Vector)
        requires
            self.can_move(*dir),
        ensures
            r == self.moved(*dir),
    {
        match dir {
            Move2::Up => Vector(self.0, self.1 - 1),
            Move2::Right => Vector(self.0 + 1, self.1),
            Move2::Down => Vector(self.0, self.1 + 1),
            Move2::Left => Vector(self.0 - 1, self.1),
        }
    }

    /// The point two steps away in direction `dir`.
    pub fn add_dir2(&self, dir: &Move) -> (r: Vector)
        requires
            fits_i32(self.0 + 2 * dir.dx()),
            fits_i32(self.1 + 2 * dir.dy()),
        ensures
            r.0 == self.0 + 2 * dir.dx(),
            r.1 == self.1 + 2 * dir.dy(),
    {
        match dir {
            Move::Up => Vector(self.0, self.1 - 2),
            Move::Right => Vector(self.0 + 2, self.1),
            Move::Down => Vector(self.0, self.1 + 2),
            Move::Left => Vector(self.0 - 2, self.1),
        }
    }

    /// The row-major index of this point in a grid `width` cells wide.
    pub fn to_index(&self, width: u16) -> (r: usize)
        requires
            self.0 >= 0,
            self.1 >= 0,
            width * self.1 + self.0 <= usize::MAX,
        ensures
            r == width * self.1 + self.0,
    {
        assert(0 <= width * self.1) by (nonlinear_arith)
            requires
                self.1 >= 0,
        ;
        width as usize * (self.1 as usize) + (self.0 as usize)
    }

    /// The coordinates as indices.
    pub fn to_usize(&self) -> (r: (usize, usize))
        requires
            self.0 >= 0,
            self.1 >= 0,
        ensures
            r.0 == self.0,
            r.1 == self.1,
    {
        (self.0 as usize, self.1 as usize)
    }

    /// `(x,y)` in decimal.
    pub fn to_string(&self) -> (r: String)
        ensures
            r@ == pair_text(self.0 as int, self.1 as int),
    {
        push_pair(self.0 as i64, self.1 as i64)
    }

    /// Whether the point lies within the grid.
    pub fn is_valid(&self, grid: &Grid) -> (r: bool)
        ensures
            r == (0 <= self.0 < grid.w && 0 <= self.1 < grid.h),
    {
        self.0 >= 0 && self.0 < grid.w && self.1 >= 0 && self.1 < grid.h
    }
}

/// A point or an offset with small coordinates.
#[derive(Clone, Copy, PartialEq, Eq, Structural, PartialOrd, Ord)]
pub struct VectorSm(pub i8, pub i8);

impl VectorSm {
    /// The vector with the same coordinates, which must fit in `i8`.
    pub fn fromv(v: &Vector) -> (r: VectorSm)
        requires
            fits_i8(v.0 as int),
            fits_i8(v.1 as int),
        ensures
            r.0 == v.0,
            r.1 == v.1,
    {
        VectorSm(v.0 as i8, v.1 as i8)
    }

    pub fn intov(&self) -> (r: Vector)
        ensures
            r.0 == self.0,
            r.1 == self.1,
    {
        Vector(self.0 as i32, self.1 as i32)
    }

    pub fn new(x: i8, y: i8) -> (r: VectorSm)
        ensures
            r == VectorSm(x, y),
    {
        VectorSm(x, y)
    }

    pub fn add(&self, dir: &VectorSm) -> (r: VectorSm)
        requires
            fits_i8(self.0 + dir.0),
            fits_i8(self.1 + dir.1),
        ensures
            r.0 == self.0 + dir.0,
            r.1 == self.1 + dir.1,
    {
        VectorSm(self.0 + dir.0, self.1 + dir.1)
    }

    pub fn double(&self) -> (r: VectorSm)
        requires
            fits_i8(self.0 * 2),
            fits_i8(self.1 * 2),
        ensures
            r.0 == self.0 * 2,
            r.1 == self.1 * 2,
    {
        VectorSm(self.0 * 2, self.1 * 2)
    }

    pub fn mul(&self, n: i8) -> (r: VectorSm)
        requires
            fits_i8(self.0 * n),
            fits_i8(self.1 * n),
        ensures
            r.0 == self.0 * n,
            r.1 == self.1 * n,
    {
        VectorSm(self.0 * n, self.1 * n)
    }

    /// Turns the offset 90 degrees: `(x, y)` becomes `(y, -x)`.
    pub fn rotr(&self) -> (r: VectorSm)
        requires
            self.0 != i8::MIN,
        ensures
            r.0 == self.1 && r.1 == -self.0,
    {
        VectorSm(self.1, -self.0)
    }

    /// Turns the offset 90 degrees: `(x, y)` becomes `(-y, x)`.
    pub fn rotl(&self) -> (r: VectorSm)
        requires
            self.1 != i8::MIN,
        ensures
            r.0 == -self.1 && r.1 == self.0,
    {
        VectorSm(-self.1, self.0)
    }

    /// The point one step away in direction `dir`.
    pub fn add_dir(&self, dir: &Move) -> (r: VectorSm)
        requires
            fits_i8(self.0 + dir.dx()),
            fits_i8(self.1 + dir.dy()),
        ensures
            r.0 == self.0 + dir.dx(),
            r.1 == self.1 + dir.dy(),
    {
        match dir {
            Move::Up => VectorSm(self.0, self.1 - 1),
            Move::Right => VectorSm(self.0 + 1, self.1),
            Move::Down => VectorSm(self.0, self.1 + 1),
            Move::Left => VectorSm(self.0 - 1, self.1),
        }
    }

    /// The point two steps away in direction `dir`.
    pub fn add_dir2(&self, dir: &Move) -> (r: VectorSm)
        requires
            fits_i8(self.0 + 2 * dir.dx()),
            fits_i8(self.1 + 2 * dir.dy()),
        ensures
            r.0 == self.0 + 2 * dir.dx(),
            r.1 == self.1 + 2 * dir.dy(),
    {
        match dir {
            Move::Up => VectorSm(self.0, self.1 - 2),
            Move::Right => VectorSm(self.0 + 2, self.1),
            Move::Down => VectorSm(self.0, self.1 + 2),
            Move::Left => VectorSm(self.0 - 2, self.1),
        }
    }

    /// The row-major index of this point in a grid `width` cells wide.
    pub fn to_index(&self, width: u16) -> (r: usize)
        requires
            self.0 >= 0,
            self.1 >= 0,
            width * self.1 + self.0 <= usize::MAX,
        ensures
            r == width * self.1 + self.0,
    {
        assert(0 <= width * self.1) by (nonlinear_arith)
            requires
                self.1 >= 0,
        ;
        width as usize * (self.1 as usize) + (self.0 as usize)
    }

    /// The coordinates as indices.
    pub fn to_usize(&self) -> (r: (usize, usize))
        requires
            self.0 >= 0,
            self.1 >= 0,
        ensures
            r.0 == self.0,
            r.1 == self.1,
    {
        (self.0 as usize, self.1 as usize)
    }

    /// `(x,y)` in decimal.
    pub fn to_string(&self) -> (r: String)
        ensures
            r@ == pair_text(self.0 as int, self.1 as int),
    {
        push_pair(self.0 as i64, self.1 as i64)
    }
}

/// A table of distinct 128-bit blocks, each known by its position.
pub struct SuperPrefix {
    data: Vec<u128>,
}

impl View for SuperPrefix {
    type V = Seq<u128>;

    closed spec fn view(&self) -> Seq<u128> {
        self.data@
    }
}

impl SuperPrefix {
    pub fn new() -> (r: SuperPrefix)
        ensures
            r@ == Seq::<u128>::empty(),
    {
        SuperPrefix { data: Vec::new() }
    }

    /// The block at position `i`, if there is one.
    pub fn get_by_index(&mut self, i: u32) -> (r: Option<u128>)
        ensures
            final(self)@ == old(self)@,
            r == (if i < old(self)@.len() { Some(old(self)@[i as int]) } else { None }),
    {
        if i as usize >= self.len() {
            return None;
        }
        Some(self.data[i as usize])
    }

    /// Adds `d` at the end, equal blocks or not, and gives its position.
    pub fn add_unchecked(&mut self, d: u128) -> (r: u32)
        requires
            old(self)@.len() < u32::MAX,
        ensures
            final(self)@ == old(self)@.push(d),
            r == old(self)@.len(),
    {
        let i = self.data.len();
        self.data.push(d);
        i as u32
    }

    /// The position of `d`, added at the end if it is not in the table yet.
    pub fn add(&mut self, d: u128) -> (r: u32)
        requires
            old(self)@.len() < u32::MAX,
        ensures
            old(self)@.contains(d) ==> final(self)@ == old(self)@ && old(self)@[r as int] == d
                && forall|j: int| 0 <= j < r ==> old(self)@[j] != d,
            !old(self)@.contains(d) ==> final(self)@ == old(self)@.push(d) && r == old(self)@.len(),
    {
        let n = self.data.len();
        let mut idx: usize = 0;
        while idx < n
            invariant
                n == self.data.len(),
                n < u32::MAX,
                self@ == old(self)@,
                idx <= n,
                forall|j: int| 0 <= j < idx ==> self@[j] != d,
            decreases n - idx,
        {
            if self.data[idx] == d {
                return idx as u32;
            }
            idx += 1;
        }
        let i = self.data.len();
        self.data.push(d);
        i as u32
    }

    pub fn len(&self) -> (r: usize)
        ensures
            r == self@.len(),
    {
        self.data.len()
    }
}

} // verus!
