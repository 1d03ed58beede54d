//! `Grid`: a rectangular map of byte cells, stored row by row.
use vstd::prelude::*;
use crate::text::{push_char, text_lines};
use vstd::string::StringSliceAdditionalSpecFns;
use crate::vector::{fits_i32, Vector};

verus! {

/// A rectangular map of `w` by `h` byte cells; cell `(x, y)` is `data[y * w + x]`.
pub struct Grid {
    pub w: i32,
    pub h: i32,
    pub data: Vec<u8>,
}

/// The byte `@`, which marks a point in a grid's text.
pub const AT_SIGN: u8 = 64;

/// The byte of an empty cell, `.`.
pub const EMPTY_CELL: u8 = 46;

pub const NDIR_U: usize = 0;
pub const NDIR_UR: usize = 1;
pub const NDIR_R: usize = 2;
pub const NDIR_DR: usize = 3;
pub const NDIR_D: usize = 4;
pub const NDIR_DL: usize = 5;
pub const NDIR_L: usize = 6;
pub const NDIR_UL: usize = 7;

/// The offset of neighbour `i`, clockwise from straight up.
pub open spec fn ndir(i: int) -> (int, int) {
    if i == 0 {
        (0, -1)
    } else if i == 1 {
        (1, -1)
    } else if i == 2 {
        (1, 0)
    } else if i == 3 {
        (1, 1)
    } else if i == 4 {
        (0, 1)
    } else if i == 5 {
        (-1, 1)
    } else if i == 6 {
        (-1, 0)
    } else {
        (-1, -1)
    }
}

fn ndir_vector(i: usize) -> (r: Vector)
    requires
        i < 8,
    ensures
        r.0 == ndir(i as int).0,
        r.1 == ndir(i as int).1,
{
    if i == NDIR_U {
        Vector(0, -1)
    } else if i == NDIR_UR {
        Vector(1, -1)
    } else if i == NDIR_R {
        Vector(1, 0)
    } else if i == NDIR_DR {
        Vector(1, 1)
    } else if i == NDIR_D {
        Vector(0, 1)
    } else if i == NDIR_DL {
        Vector(-1, 1)
    } else if i == NDIR_L {
        Vector(-1, 0)
    } else {
        Vector(-1, -1)
    }
}

/// The cell of `(x, y)` in a row-major grid `w` wide lies in a grid of `w * h` cells.
pub proof fn lemma_cell_index(x: int, y: int, w: int, h: int)
    requires
        0 <= x < w,
        0 <= y < h,
    ensures
        0 <= y * w + x < w * h,
{
    assert(y * w + x < w * h) by (nonlinear_arith)
        requires
            0 <= x < w,
            0 <= y < h,
    ;
    assert(0 <= y * w) by (nonlinear_arith)
        requires
            0 <= y,
            0 <= w,
    ;
}

/// The row-major index of a cell is below that of every cell after it.
pub proof fn lemma_index_order(x1: int, y1: int, x2: int, y2: int, w: int)
    requires
        0 <= x1 < w,
        0 <= x2 < w,
        y1 < y2 || (y1 == y2 && x1 < x2),
    ensures
        y1 * w + x1 < y2 * w + x2,
{
    if y1 < y2 {
        assert(y1 * w + w <= y2 * w) by (nonlinear_arith)
            requires
                y1 < y2,
                0 <= w,
        ;
    }
}

/// Concatenation of rows.
pub open spec fn flatten_rows(rows: Seq<Seq<u8>>) -> Seq<u8>
    decreases rows.len(),
{
    if rows.len() == 0 {
        seq![]
    } else {
        flatten_rows(rows.drop_last()) + rows.last()
    }
}

/// The text of rows `0..n` of a row-major grid, each row ended by a newline.
pub open spec fn rows_text(data: Seq<u8>, w: int, n: int) -> Seq<char>
    decreases n,
{
    if n <= 0 {
        seq![]
    } else {
        rows_text(data, w, n - 1) + bytes_text(data.subrange((n - 1) * w, n * w)).push('\n')
    }
}

/// Each byte as the character of the same code.
pub open spec fn bytes_text(b: Seq<u8>) -> Seq<char> {
    b.map_values(|c: u8| c as char)
}

impl Grid {
    /// The data holds exactly `w * h` cells.
    pub open spec fn wf(&self) -> bool {
        self.w >= 0 && self.h >= 0 && self.data.len() == self.w * self.h
    }

    pub open spec fn in_bounds(&self, x: int, y: int) -> bool {
        0 <= x < self.w && 0 <= y < self.h
    }

    /// The cell at `(x, y)`.
    pub open spec fn cell(&self, x: int, y: int) -> u8 {
        self.data@[y * self.w + x]
    }

    /// A grid of `w` by `h` cells, each holding `c`.
    pub fn new_with(w: i32, h: i32, c: u8) -> (r: Grid)
        requires
            w >= 0,
            h >= 0,
            w * h <= usize::MAX,
        ensures
            r.wf(),
            r.w == w,
            r.h == h,
            forall|i: int| 0 <= i < r.data.len() ==> r.data@[i] == c,
    {
        proof {
            assert(0 <= w * h) by (nonlinear_arith)
                requires
                    w >= 0,
                    h >= 0,
            ;
        }
        let n: usize = w as usize * h as usize;
        let mut data: Vec<u8> = Vec::with_capacity(n);
        while data.len() < n
            invariant
                data.len() <= n,
                forall|i: int| 0 <= i < data.len() ==> data@[i] == c,
            decreases n - data.len(),
        {
            data.push(c);
        }
        Grid { w, h, data }
    }

    /// A grid of `w` by `h` empty (`.`) cells.
    pub fn new(w: i32, h: i32) -> (r: Grid)
        requires
            w >= 0,
            h >= 0,
            w * h <= usize::MAX,
        ensures
            r.wf(),
            r.w == w,
            r.h == h,
            forall|i: int| 0 <= i < r.data.len() ==> r.data@[i] == EMPTY_CELL,
    {
        Grid::new_with(w, h, EMPTY_CELL)
    }

    pub fn has_xy(&self, xy: &Vector) -> (r: bool)
        ensures
            r == self.in_bounds(xy.0 as int, xy.1 as int),
    {
        xy.0 >= 0 && xy.0 < self.w && xy.1 >= 0 && xy.1 < self.h
    }

    /// The cell at `xy`, if it lies within the grid.
    pub fn get(&self, xy: &Vector) -> (r: Option<u8>)
        requires
            self.wf(),
        ensures
            r == (if self.in_bounds(xy.0 as int, xy.1 as int) {
                Some(self.cell(xy.0 as int, xy.1 as int))
            } else {
                None
            }),
    {
        if xy.is_valid(self) {
            return Some(self.get_unchecked(xy));
        }
        None
    }

    /// The cell at `xy`, which must lie within the grid.
    pub fn get_unchecked(&self, xy: &Vector) -> (r: u8)
        requires
            self.wf(),
            self.in_bounds(xy.0 as int, xy.1 as int),
        ensures
            r == self.cell(xy.0 as int, xy.1 as int),
    {
        proof {
            lemma_cell_index(xy.0 as int, xy.1 as int, self.w as int, self.h as int);
        }
        self.data[xy.1 as usize * self.w as usize + xy.0 as usize]
    }

    /// The eight neighbours of `xy`, clockwise from straight up; `None` off the grid.
    pub fn get_neighbours(&self, xy: &Vector) -> (r: Vec<Option<u8>>)
        requires
            self.wf(),
            fits_i32(xy.0 - 1),
            fits_i32(xy.0 + 1),
            fits_i32(xy.1 - 1),
            fits_i32(xy.1 + 1),
        ensures
            r.len() == 8,
            forall|i: int|
                0 <= i < 8 ==> #[trigger] r@[i] == (if self.in_bounds(
                    xy.0 + ndir(i).0,
                    xy.1 + ndir(i).1,
                ) {
                    Some(self.cell(xy.0 + ndir(i).0, xy.1 + ndir(i).1))
                } else {
                    None
                }),
    {
        let mut r: Vec<Option<u8>> = Vec::new();
        let mut i: usize = 0;
        while i < 8
            invariant
                self.wf(),
                fits_i32(xy.0 - 1),
                fits_i32(xy.0 + 1),
                fits_i32(xy.1 - 1),
                fits_i32(xy.1 + 1),
                i <= 8,
                r.len() == i,
                forall|j: int|
                    0 <= j < i ==> #[trigger] r@[j] == (if self.in_bounds(
                        xy.0 + ndir(j).0,
                        xy.1 + ndir(j).1,
                    ) {
                        Some(self.cell(xy.0 + ndir(j).0, xy.1 + ndir(j).1))
                    } else {
                        None
                    }),
            decreases 8 - i,
        {
            let d = ndir_vector(i);
            r.push(self.get(&xy.add(&d)));
            i += 1;
        }
        r
    }

    /// Writes `value` at `xy` if it lies within the grid, and says whether it did.
    pub fn put(&mut self, xy: &Vector, value: u8) -> (r: bool)
        requires
            old(self).wf(),
        ensures
            r == old(self).in_bounds(xy.0 as int, xy.1 as int),
            final(self).w == old(self).w,
            final(self).h == old(self).h,
            r ==> final(self).data@ == old(self).data@.update(xy.1 * old(self).w + xy.0, value),
            !r ==> final(self).data@ == old(self).data@,
    {
        if xy.is_valid(self) {
            self.put_unchecked(xy, value);
            return true;
        }
        false
    }

    /// Writes `value` at `xy`, which must lie within the grid.
    pub fn put_unchecked(&mut self, xy: &Vector, value: u8)
        requires
            old(self).wf(),
            old(self).in_bounds(xy.0 as int, xy.1 as int),
        ensures
            final(self).w == old(self).w,
            final(self).h == old(self).h,
            final(self).data@ == old(self).data@.update(xy.1 * old(self).w + xy.0, value),
    {
        proof {
            lemma_cell_index(xy.0 as int, xy.1 as int, self.w as int, self.h as int);
        }
        self.data.set(xy.1 as usize * self.w as usize + xy.0 as usize, value);
    }

    /// Writes `value` at `(x, y)`, which must lie within the grid.
    pub fn put_unchecked_t(&mut self, xy: (isize, isize), value: u8)
        requires
            old(self).wf(),
            old(self).in_bounds(xy.0 as int, xy.1 as int),
        ensures
            final(self).w == old(self).w,
            final(self).h == old(self).h,
            final(self).data@ == old(self).data@.update(xy.1 * old(self).w + xy.0, value),
    {
        proof {
            lemma_cell_index(xy.0 as int, xy.1 as int, self.w as int, self.h as int);
        }
        self.data.set(xy.1 as usize * self.w as usize + xy.0 as usize, value);
    }

    /// The points whose cell holds `value`, in row-major order.
    pub fn find(&self, value: u8) -> (r: Vec<Vector>)
        requires
            self.wf(),
        ensures
            forall|i: int|
                0 <= i < r.len() ==> self.in_bounds(r@[i].0 as int, r@[i].1 as int)
                    && self.cell(r@[i].0 as int, r@[i].1 as int) == value,
            forall|i: int, j: int|
                0 <= i < j < r.len() ==> r@[i].1 < r@[j].1 || (r@[i].1 == r@[j].1 && r@[i].0
                    < r@[j].0),
            forall|x: int, y: int|
                self.in_bounds(x, y) && self.cell(x, y) == value ==> r@.contains(
                    Vector(x as i32, y as i32),
                ),
    {
        let mut results: Vec<Vector> = Vec::new();
        let mut y: i32 = 0;
        while y < self.h
            invariant
                self.wf(),
                0 <= y <= self.h,
                forall|i: int|
                    0 <= i < results.len() ==> self.in_bounds(
                        results@[i].0 as int,
                        results@[i].1 as int,
                    ) && self.cell(results@[i].0 as int, results@[i].1 as int) == value
                        && results@[i].1 < y,
                forall|i: int, j: int|
                    0 <= i < j < results.len() ==> results@[i].1 < results@[j].1 || (
                    results@[i].1 == results@[j].1 && results@[i].0 < results@[j].0),
                forall|px: int, py: int|
                    self.in_bounds(px, py) && py < y && self.cell(px, py) == value
                        ==> results@.contains(Vector(px as i32, py as i32)),
            decreases self.h - y,
        {
            let mut x: i32 = 0;
            while x < self.w
                invariant
                    self.wf(),
                    0 <= y < self.h,
                    0 <= x <= self.w,
                    forall|i: int|
                        0 <= i < results.len() ==> self.in_bounds(
                            results@[i].0 as int,
                            results@[i].1 as int,
                        ) && self.cell(results@[i].0 as int, results@[i].1 as int) == value
                            && (results@[i].1 < y || (results@[i].1 == y && results@[i].0 < x)),
                    forall|i: int, j: int|
                        0 <= i < j < results.len() ==> results@[i].1 < results@[j].1 || (
                        results@[i].1 == results@[j].1 && results@[i].0 < results@[j].0),
                    forall|px: int, py: int|
                        self.in_bounds(px, py) && (py < y || (py == y && px < x)) && self.cell(
                            px,
                            py,
                        ) == value ==> results@.contains(Vector(px as i32, py as i32)),
                decreases self.w - x,
            {
                let c = self.get_unchecked(&Vector(x, y));
                if c == value {
                    let ghost old_results = results@;
                    results.push(Vector::new(x, y));
                    assert forall|px: int, py: int|
                        self.in_bounds(px, py) && (py < y || (py == y && px < x + 1))
                            && self.cell(px, py) == value implies results@.contains(
                        Vector(px as i32, py as i32),
                    ) by {
                        if py == y && px == x {
                            assert(results@[results.len() - 1] == Vector(px as i32, py as i32));
                        } else {
                            assert(old_results.contains(Vector(px as i32, py as i32)));
                            let k = choose|k: int|
                                0 <= k < old_results.len() && old_results[k] == Vector(
                                    px as i32,
                                    py as i32,
                                );
                            assert(results@[k] == Vector(px as i32, py as i32));
                        }
                    }
                }
                x += 1;
            }
            y += 1;
        }
        results
    }

    /// A grid read from text, one row per line; every row is taken as it
    /// stands, the width being that of the first.
    pub fn from_str(s: &str) -> (r: Grid)
        requires
            text_lines(s.spec_bytes()).len() > 0,
            text_lines(s.spec_bytes()).len() <= i32::MAX,
            text_lines(s.spec_bytes())[0].len() <= i32::MAX,
        ensures
            r.h == text_lines(s.spec_bytes()).len(),
            r.w == text_lines(s.spec_bytes())[0].len(),
            r.data@ == flatten_rows(text_lines(s.spec_bytes())),
    {
        let b = s.as_bytes();
        let ghost bs = b@;
        let mut data: Vec<u8> = Vec::new();
        let mut w: usize = 0;
        let mut h: usize = 0;
        let mut i: usize = 0;
        let mut st: usize = 0;
        let ghost mut done: Seq<Seq<u8>> = Seq::empty();
        while i < b.len() || (i == b.len() && st < b.len())
            invariant
                bs == b@,
                bs == s.spec_bytes(),
                st <= i <= b.len(),
                text_lines(bs) == done + crate::text::lines_from(bs, i as int, st as int),
                done.len() == h,
                h > 0 ==> w == done[0].len(),
                data@ == flatten_rows(done),
                text_lines(bs).len() <= i32::MAX,
            ensures
                text_lines(bs) == done,
                done.len() == h,
                h > 0 ==> w == done[0].len(),
                data@ == flatten_rows(done),
            decreases b.len() + 1 - i,
        {
            if i == b.len() || b[i] == crate::text::NEWLINE {
                let nl = i < b.len();
                let mut e: usize = i;
                if nl && e > st && b[e - 1] == crate::text::CARRIAGE_RETURN {
                    e = e - 1;
                }
                let ghost rest = if nl {
                    crate::text::lines_from(bs, i + 1, i + 1)
                } else {
                    Seq::<Seq<u8>>::empty()
                };
                let line = &b[st..e];
                assert(line@ == crate::text::line_of(bs, st as int, i as int, nl));
                assert(crate::text::lines_from(bs, i as int, st as int) == seq![line@] + rest);
                assert(text_lines(bs) == done.push(line@) + rest) by {
                    assert(done + (seq![line@] + rest) =~= done.push(line@) + rest);
                }
                if h == 0 {
                    w = line.len();
                }
                let mut x: usize = 0;
                let ghost base = data@;
                while x < line.len()
                    invariant
                        x <= line.len(),
                        data@ == base + line@.take(x as int),
                    decreases line.len() - x,
                {
                    data.push(line[x]);
                    x += 1;
                    assert(data@ =~= base + line@.take(x as int));
                }
                proof {
                    assert(line@.take(x as int) =~= line@);
                    let nd = done.push(line@);
                    assert(nd.drop_last() =~= done);
                    if h == 0 {
                        assert(nd[0] == line@);
                    } else {
                        assert(nd[0] == done[0]);
                    }
                    done = nd;
                    assert(text_lines(bs) == done + crate::text::lines_from(bs, i + 1, i + 1)) by {
                        if !nl {
                            assert(crate::text::lines_from(bs, i + 1, i + 1) =~= Seq::<Seq<u8>>::empty());
                            assert(done + Seq::<Seq<u8>>::empty() =~= done);
                        }
                    }
                }
                h += 1;
                if nl {
                    st = i + 1;
                    i = i + 1;
                } else {
                    st = i;
                    assert(crate::text::lines_from(bs, i + 1, i + 1) =~= Seq::<Seq<u8>>::empty());
                    assert(text_lines(bs) =~= done);
                    break;
                }
            } else {
                i += 1;
            }
            proof {
                if !(i < b.len() || (i == b.len() && st < b.len())) {
                    assert(crate::text::lines_from(bs, i as int, st as int) =~= Seq::<Seq<u8>>::empty());
                    assert(text_lines(bs) =~= done);
                }
            }
        }
        Grid { w: w as i32, h: h as i32, data }
    }

    /// The grid as text, with `@` drawn at `pt`.
    pub fn to_string_with_pt(&self, pt: &Vector) -> (r: String)
        requires
            self.wf(),
            self.in_bounds(pt.0 as int, pt.1 as int),
        ensures
            r@ == rows_text(
                self.data@.update(pt.1 * self.w + pt.0, AT_SIGN),
                self.w as int,
                self.h as int,
            ),
    {
        let mut data: Vec<u8> = Vec::with_capacity(self.data.len());
        let mut i: usize = 0;
        while i < self.data.len()
            invariant
                i <= self.data.len(),
                data@ == self.data@.take(i as int),
            decreases self.data.len() - i,
        {
            data.push(self.data[i]);
            i += 1;
            assert(data@ =~= self.data@.take(i as int));
        }
        assert(data@ =~= self.data@);
        let mut g = Grid { w: self.w, h: self.h, data };
        proof {
            lemma_cell_index(pt.0 as int, pt.1 as int, self.w as int, self.h as int);
        }
        g.put_unchecked(pt, AT_SIGN);
        g.to_string()
    }

    /// Replaces every cell `c` by `f(c)`.
    pub fn replace_fn<F: Fn(u8) -> u8>(&mut self, f: F)
        requires
            old(self).wf(),
            forall|c: u8| f.requires((c,)),
        ensures
            final(self).w == old(self).w,
            final(self).h == old(self).h,
            final(self).data.len() == old(self).data.len(),
            forall|i: int| 0 <= i < old(self).data.len() ==> f.ensures((old(self).data@[i],), #[trigger] final(self).data@[i]),
    {
        let mut i: usize = 0;
        while i < self.data.len()
            invariant
                self.w == old(self).w,
                self.h == old(self).h,
                self.data.len() == old(self).data.len(),
                i <= self.data.len(),
                forall|c: u8| f.requires((c,)),
                forall|j: int| i <= j < self.data.len() ==> self.data@[j] == old(self).data@[j],
                forall|j: int| 0 <= j < i ==> f.ensures((old(self).data@[j],), #[trigger] self.data@[j]),
            decreases self.data.len() - i,
        {
            let c = f(self.data[i]);
            self.data.set(i, c);
            i += 1;
        }
    }

    /// The points whose cell `c` has `f(c)` true, in row-major order.
    pub fn find_fn<F: Fn(u8) -> bool>(&self, f: F) -> (r: Vec<Vector>)
        requires
            self.wf(),
            forall|c: u8| f.requires((c,)),
        ensures
            forall|i: int|
                0 <= i < r.len() ==> self.in_bounds(r@[i].0 as int, r@[i].1 as int),
            forall|i: int, j: int|
                0 <= i < j < r.len() ==> r@[i].1 < r@[j].1 || (r@[i].1 == r@[j].1 && r@[i].0
                    < r@[j].0),
            forall|x: int, y: int|
                self.in_bounds(x, y) ==> (r@.contains(Vector(x as i32, y as i32)) ==> f.ensures(
                    (self.cell(x, y),),
                    true,
                )) && (!r@.contains(Vector(x as i32, y as i32)) ==> f.ensures((self.cell(x, y),), false)),
    {
        let mut results: Vec<Vector> = Vec::new();
        let mut y: i32 = 0;
        while y < self.h
            invariant
                self.wf(),
                0 <= y <= self.h,
                forall|c: u8| f.requires((c,)),
                forall|i: int|
                    0 <= i < results.len() ==> self.in_bounds(
                        results@[i].0 as int,
                        results@[i].1 as int,
                    ) && results@[i].1 < y,
                forall|i: int, j: int|
                    0 <= i < j < results.len() ==> results@[i].1 < results@[j].1 || (
                    results@[i].1 == results@[j].1 && results@[i].0 < results@[j].0),
                forall|px: int, py: int|
                    self.in_bounds(px, py) && py < y ==> (results@.contains(Vector(px as i32, py as i32))
                        ==> f.ensures((self.cell(px, py),), true)) && (!results@.contains(
                        Vector(px as i32, py as i32),
                    ) ==> f.ensures((self.cell(px, py),), false)),
            decreases self.h - y,
        {
            let mut x: i32 = 0;
            while x < self.w
                invariant
                    self.wf(),
                    0 <= y < self.h,
                    0 <= x <= self.w,
                    forall|c: u8| f.requires((c,)),
                    forall|i: int|
                        0 <= i < results.len() ==> self.in_bounds(
                            results@[i].0 as int,
                            results@[i].1 as int,
                        ) && (results@[i].1 < y || (results@[i].1 == y && results@[i].0 < x)),
                    forall|i: int, j: int|
                        0 <= i < j < results.len() ==> results@[i].1 < results@[j].1 || (
                        results@[i].1 == results@[j].1 && results@[i].0 < results@[j].0),
                    forall|px: int, py: int|
                        self.in_bounds(px, py) && (py < y || (py == y && px < x)) ==> (
                        results@.contains(Vector(px as i32, py as i32)) ==> f.ensures(
                            (self.cell(px, py),),
                            true,
                        )) && (!results@.contains(Vector(px as i32, py as i32)) ==> f.ensures(
                            (self.cell(px, py),),
                            false,
                        )),
                decreases self.w - x,
            {
                let c = self.get_unchecked(&Vector(x, y));
                let keep = f(c);
                let ghost old_results = results@;
                if keep {
                    results.push(Vector::new(x, y));
                }
                assert forall|px: int, py: int|
                    self.in_bounds(px, py) && (py < y || (py == y && px < x + 1)) implies (
                    results@.contains(Vector(px as i32, py as i32)) ==> f.ensures(
                        (self.cell(px, py),),
                        true,
                    )) && (!results@.contains(Vector(px as i32, py as i32)) ==> f.ensures(
                        (self.cell(px, py),),
                        false,
                    )) by {
                    let v = Vector(px as i32, py as i32);
                    if py == y && px == x {
                        if keep {
                            assert(results@[results.len() - 1] == v);
                        } else {
                            assert(results@ == old_results);
                            if results@.contains(v) {
                                let k = choose|k: int| 0 <= k < old_results.len() && old_results[k] == v;
                                assert(old_results[k].1 < y || (old_results[k].1 == y && old_results[k].0 < x));
                            }
                        }
                    } else {
                        if keep {
                            if results@.contains(v) {
                                let k = choose|k: int| 0 <= k < results@.len() && results@[k] == v;
                                if k < old_results.len() {
                                    assert(old_results[k] == v);
                                }
                            }
                            if old_results.contains(v) {
                                let k = choose|k: int| 0 <= k < old_results.len() && old_results[k] == v;
                                assert(results@[k] == v);
                            }
                        }
                    }
                }
                x += 1;
            }
            y += 1;
        }
        results
    }

    /// The grid as text: each row's bytes as characters, then a newline.
    pub fn to_string(&self) -> (r: String)
        requires
            self.wf(),
        ensures
            r@ == rows_text(self.data@, self.w as int, self.h as int),
    {
        let mut s = String::new();
        let mut y: i32 = 0;
        while y < self.h
            invariant
                self.wf(),
                0 <= y <= self.h,
                s@ == rows_text(self.data@, self.w as int, y as int),
            decreases self.h - y,
        {
            let mut x: i32 = 0;
            let ghost base = s@;
            proof {
                assert(y * self.w + self.w <= self.h * self.w) by (nonlinear_arith)
                    requires
                        0 <= y < self.h,
                        0 <= self.w,
                ;
                assert(0 <= y * self.w) by (nonlinear_arith)
                    requires
                        0 <= y,
                        0 <= self.w,
                ;
                assert(self.data@.subrange(y * self.w, y * self.w) =~= seq![]);
                assert(s@ =~= base + bytes_text(self.data@.subrange(y * self.w, y * self.w)));
            }
            while x < self.w
                invariant
                    self.wf(),
                    0 <= y * self.w,
                    y * self.w + self.w <= self.data.len(),
                    0 <= y < self.h,
                    0 <= x <= self.w,
                    s@ == base + bytes_text(
                        self.data@.subrange(y * self.w, y * self.w + x),
                    ),
                decreases self.w - x,
            {
                let c = self.get_unchecked(&Vector(x, y));
                push_char(&mut s, c as char);
                proof {
                    lemma_cell_index(x as int, y as int, self.w as int, self.h as int);
                    assert(self.data@.subrange(y * self.w, y * self.w + x + 1) =~= self.data@.subrange(
                        y * self.w,
                        y * self.w + x,
                    ).push(c));
                    assert(s@ =~= base + bytes_text(
                        self.data@.subrange(y * self.w, y * self.w + x + 1),
                    ));
                }
                x += 1;
            }
            push_char(&mut s, '\n');
            proof {
                assert((y + 1) * self.w == y * self.w + self.w) by (nonlinear_arith);
                assert(self.data@.subrange(y * self.w, y * self.w + self.w)
                    == self.data@.subrange((y + 1 - 1) * self.w, (y + 1) * self.w));
                assert(s@ =~= rows_text(self.data@, self.w as int, y + 1));
            }
            y += 1;
        }
        s
    }
}

} // verus!
