//! `Level`: a parsed maze with its walls held in `LevelBitmap`, one bit per cell.
use vstd::prelude::*;
use crate::obj::Obj;
use crate::path2::Move2;
use crate::grid::flatten_rows;
use vstd::string::StringSliceAdditionalSpecFns;
use crate::text::{cells_text, push_char, row_text, text_lines, NEWLINE, CARRIAGE_RETURN};
use vstd::set::*;
use crate::vector::{Vector, VectorSm};

verus! {

/// The widest level that a bitmap row can hold.
pub const MAX_LEVEL_WIDTH: u16 = 192;
/// The tallest level that a bitmap can hold.
pub const MAX_LEVEL_HEIGHT: u16 = 255;

/// Setting bit `k` of a word sets that bit and keeps the others.
proof fn lemma_bit_set(a: u64, k: u64, j: u64)
    requires
        k < 64,
        j < 64,
    ensures
        ((a | (1u64 << k)) & (1u64 << j) != 0) == (j == k || (a & (1u64 << j)) != 0),
{
    assert(((a | (1u64 << k)) & (1u64 << j) != 0) == (j == k || (a & (1u64 << j)) != 0))
        by (bit_vector)
        requires
            k < 64,
            j < 64,
    ;
}

/// Clearing bit `k` of a word clears that bit and keeps the others.
proof fn lemma_bit_clear(a: u64, k: u64, j: u64)
    requires
        k < 64,
        j < 64,
    ensures
        ((a & !(1u64 << k)) & (1u64 << j) != 0) == (j != k && (a & (1u64 << j)) != 0),
{
    assert(((a & !(1u64 << k)) & (1u64 << j) != 0) == (j != k && (a & (1u64 << j)) != 0))
        by (bit_vector)
        requires
            k < 64,
            j < 64,
    ;
}

/// No bit of zero is set.
proof fn lemma_bit_zero(j: u64)
    requires
        j < 64,
    ensures
        (0u64 & (1u64 << j)) == 0,
{
    assert((0u64 & (1u64 << j)) == 0) by (bit_vector)
        requires
            j < 64,
    ;
}

/// `#` for a set bit, `.` for a clear one.
pub open spec fn bit_char(b: bool) -> char {
    if b {
        '#'
    } else {
        '.'
    }
}

/// One bit per cell, 64 cells to a word, three words to a row.
#[derive(Clone)]
pub struct LevelBitmap {
    pub w: u8,
    pub h: u8,
    pub bitmap: Vec<[u64; 3]>,
}

impl LevelBitmap {
    pub open spec fn wf(&self) -> bool {
        self.bitmap.len() == self.h
    }

    /// Whether the bit of cell `(x, y)` is set.
    pub open spec fn bit(&self, x: int, y: int) -> bool {
        (self.bitmap@[y][x / 64] & (1u64 << ((x % 64) as u64))) != 0
    }

    /// A bitmap of `w` by `h` cells, none of them set.
    pub fn new(w: usize, h: usize) -> (r: LevelBitmap)
        requires
            w <= u8::MAX,
            h <= u8::MAX,
        ensures
            r.wf(),
            r.w == w,
            r.h == h,
            forall|x: int, y: int| 0 <= x < MAX_LEVEL_WIDTH && 0 <= y < h ==> !r.bit(x, y),
    {
        let mut bitmap: Vec<[u64; 3]> = Vec::new();
        while bitmap.len() < h
            invariant
                bitmap.len() <= h,
                forall|y: int, k: int| 0 <= y < bitmap.len() && 0 <= k < 3 ==> bitmap@[y]@[k] == 0,
            decreases h - bitmap.len(),
        {
            let row: [u64; 3] = [0u64, 0u64, 0u64];
            assert(row@[0] == 0 && row@[1] == 0 && row@[2] == 0);
            bitmap.push(row);
        }
        let r = LevelBitmap { w: w as u8, h: h as u8, bitmap };
        assert forall|x: int, y: int| 0 <= x < MAX_LEVEL_WIDTH && 0 <= y < h implies !r.bit(x, y) by {
            lemma_bit_zero((x % 64) as u64);
            assert(r.bitmap@[y]@[x / 64] == 0);
        }
        r
    }

    /// Sets the bit of cell `v`.
    pub fn set_v(&mut self, v: Vector)
        requires
            old(self).wf(),
            0 <= v.0 < MAX_LEVEL_WIDTH,
            0 <= v.1 < old(self).h,
        ensures
            final(self).wf(),
            final(self).w == old(self).w,
            final(self).h == old(self).h,
            forall|x: int, y: int|
                0 <= x < MAX_LEVEL_WIDTH && 0 <= y < old(self).h ==> final(self).bit(x, y) == (
                old(self).bit(x, y) || (x == v.0 && y == v.1)),
    {
        let y = v.1 as usize;
        let xn = v.0 as usize / 64;
        let xr = v.0 as usize % 64;
        let mut row = self.bitmap[y];
        let word = row[xn] | (1u64 << xr as u64);
        row[xn] = word;
        self.bitmap.set(y, row);
        assert forall|x: int, yy: int|
            0 <= x < MAX_LEVEL_WIDTH && 0 <= yy < old(self).h implies self.bit(x, yy) == (old(self).bit(
            x,
            yy,
        ) || (x == v.0 && yy == v.1)) by {
            if yy == y && x / 64 == xn {
                lemma_bit_set(old(self).bitmap@[y as int]@[xn as int], xr as u64, (x % 64) as u64);
            }
        }
    }

    /// Clears the bit of cell `v`.
    pub fn clear_v(&mut self, v: Vector)
        requires
            old(self).wf(),
            0 <= v.0 < MAX_LEVEL_WIDTH,
            0 <= v.1 < old(self).h,
        ensures
            final(self).wf(),
            final(self).w == old(self).w,
            final(self).h == old(self).h,
            forall|x: int, y: int|
                0 <= x < MAX_LEVEL_WIDTH && 0 <= y < old(self).h ==> final(self).bit(x, y) == (
                old(self).bit(x, y) && !(x == v.0 && y == v.1)),
    {
        let y = v.1 as usize;
        let xn = v.0 as usize / 64;
        let xr = v.0 as usize % 64;
        let mut row = self.bitmap[y];
        let word = row[xn] & !(1u64 << xr as u64);
        row[xn] = word;
        self.bitmap.set(y, row);
        assert forall|x: int, yy: int|
            0 <= x < MAX_LEVEL_WIDTH && 0 <= yy < old(self).h implies self.bit(x, yy) == (old(self).bit(
            x,
            yy,
        ) && !(x == v.0 && yy == v.1)) by {
            if yy == y && x / 64 == xn {
                lemma_bit_clear(old(self).bitmap@[y as int]@[xn as int], xr as u64, (x % 64) as u64);
            }
        }
    }

    /// Whether the bit of cell `v` is set.
    pub fn get_v(&self, v: Vector) -> (r: bool)
        requires
            self.wf(),
            0 <= v.0 < MAX_LEVEL_WIDTH,
            0 <= v.1 < self.h,
        ensures
            r == self.bit(v.0 as int, v.1 as int),
    {
        let y = v.1 as usize;
        let xn = v.0 as usize / 64;
        let xr = v.0 as usize % 64;
        self.bitmap[y][xn] & (1u64 << xr as u64) != 0
    }

    /// The bitmap as text: `#` for a set bit, `.` for a clear one, each row
    /// ended by a newline.
    pub fn to_string(&self) -> (r: String)
        requires
            self.wf(),
            self.w <= MAX_LEVEL_WIDTH,
        ensures
            r@ == cells_text(|x: int, y: int| bit_char(self.bit(x, y)), self.w as int, self.h as int),
    {
        let mut s = String::new();
        let mut y: u8 = 0;
        while y < self.h
            invariant
                self.wf(),
                self.w <= MAX_LEVEL_WIDTH,
                y <= self.h,
                s@ == cells_text(|x: int, y: int| bit_char(self.bit(x, y)), self.w as int, y as int),
            decreases self.h - y,
        {
            let ghost base = s@;
            let mut x: u8 = 0;
            while x < self.w
                invariant
                    self.wf(),
                    self.w <= MAX_LEVEL_WIDTH,
                    y < self.h,
                    x <= self.w,
                    s@ == base + row_text(|x: int, y: int| bit_char(self.bit(x, y)), y as int, x as int),
                decreases self.w - x,
            {
                let c = if self.get_v(Vector(x as i32, y as i32)) {
                    '#'
                } else {
                    '.'
                };
                push_char(&mut s, c);
                x += 1;
            }
            push_char(&mut s, '\n');
            y += 1;
        }
        s
    }
}


/// The points visited by following `path` from `start`, `start` included.
pub open spec fn walk_pts(start: Vector, path: Seq<Move2>) -> Seq<Vector>
    decreases path.len(),
{
    if path.len() == 0 {
        seq![start]
    } else {
        let pre = walk_pts(start, path.drop_last());
        pre.push(pre.last().moved(path.last()))
    }
}

/// Where following `path` from `start` ends.
pub open spec fn walk_end(start: Vector, path: Seq<Move2>) -> Vector {
    walk_pts(start, path).last()
}

/// Following a path visits one point more than it has moves.
pub proof fn lemma_walk_pts_len(start: Vector, path: Seq<Move2>)
    ensures
        walk_pts(start, path).len() == path.len() + 1,
        walk_pts(start, path)[0] == start,
    decreases path.len(),
{
    if path.len() > 0 {
        lemma_walk_pts_len(start, path.drop_last());
    }
}

/// Why a text is not a level.
#[derive(Clone, Copy, PartialEq, Eq, Structural, Debug)]
pub enum ParseError {
    /// The start or the end marker is absent.
    MissingMarker,
    /// The start or the end marker appears more than once.
    DuplicateMarker,
    /// The level is narrower or shorter than three cells.
    TooSmall,
    /// The level is wider or taller than a bitmap can hold.
    TooLarge,
    /// A line is not as long as the first.
    RaggedRows,
    /// A cell is not one of `.`, `#`, `S`, `E`.
    BadCharacter,
}

/// A maze: its size, the start and end points, the deer's place and heading,
/// the cells, and a bitmap of the walls that the search reads.
#[derive(Clone)]
pub struct Level {
    pub w: u16,
    pub h: u16,
    /// Where the deer stands.
    pub deer_pos: Vector,
    /// Where the deer faces; the search starts out facing this way.
    pub deer_dir: Move2,
    pub end_pos: Vector,
    pub start_pos: Vector,
    /// The cells, row by row.
    pub data: Vec<Obj>,
    /// The walls; a set bit is a cell that cannot be entered.
    pub wall_bmp: LevelBitmap,
}

impl Level {
    /// The cells and the bitmap have the level's size, which a bitmap can
    /// hold, and the start and end lie within the level.
    pub open spec fn wf(&self) -> bool {
        &&& 1 <= self.w <= MAX_LEVEL_WIDTH
        &&& 1 <= self.h <= MAX_LEVEL_HEIGHT
        &&& self.in_bounds(self.start_pos)
        &&& self.in_bounds(self.end_pos)
        &&& self.store_ok()
    }

    pub open spec fn store_ok(&self) -> bool {
        &&& self.data.len() == self.w * self.h
        &&& self.wall_bmp.wf()
        &&& self.wall_bmp.w == self.w
        &&& self.wall_bmp.h == self.h
    }

    pub open spec fn in_bounds(&self, v: Vector) -> bool {
        0 <= v.0 < self.w && 0 <= v.1 < self.h
    }

    /// Whether the cell at `(x, y)` is a wall.
    pub open spec fn is_wall(&self, x: int, y: int) -> bool {
        self.wall_bmp.bit(x, y)
    }

    /// The cells, row by row.
    pub open spec fn cells(&self) -> Seq<Obj> {
        self.data@
    }

    /// Whether the deer can stand at `v`: it lies within the level and is no wall.
    pub open spec fn open_at(&self, v: Vector) -> bool {
        self.in_bounds(v) && !self.is_wall(v.0 as int, v.1 as int)
    }

    /// What stands at `pt`: a wall, else the deer, else empty space.
    pub open spec fn obj_at(&self, pt: Vector) -> Obj {
        if self.is_wall(pt.0 as int, pt.1 as int) {
            Obj::Wall
        } else if self.deer_pos == pt {
            Obj::Deer
        } else {
            Obj::Space
        }
    }

    /// Every move of `path`, followed from the start, lands on an open cell.
    pub open spec fn valid_walk(&self, path: Seq<Move2>) -> bool
        decreases path.len(),
    {
        path.len() == 0 || (self.valid_walk(path.drop_last()) && self.open_at(
            walk_end(self.start_pos, path),
        ))
    }

    /// The same level with the same walls, but for `extra` walls added.
    pub open spec fn walls_added(&self, other: &Level, extra: Set<(int, int)>) -> bool {
        &&& other.w == self.w
        &&& other.h == self.h
        &&& other.start_pos == self.start_pos
        &&& other.end_pos == self.end_pos
        &&& other.deer_dir == self.deer_dir
        &&& forall|x: int, y: int|
            0 <= x < self.w && 0 <= y < self.h ==> other.is_wall(x, y) == (self.is_wall(x, y)
                || extra.contains((x, y)))
    }

    /// What stands at `pt`, which must lie within the level.
    pub fn get_obj_at_pt(&self, pt: &Vector) -> (r: Obj)
        requires
            self.wf(),
            self.in_bounds(*pt),
        ensures
            r == self.obj_at(*pt),
    {
        if self.wall_bmp.get_v(*pt) {
            return Obj::Wall;
        }
        if self.deer_pos == *pt {
            return Obj::Deer;
        }
        Obj::Space
    }

    /// Writes `obj` into the cell at `pt`, which must lie within the level.
    pub fn set_obj_at_pt(&mut self, pt: &Vector, obj: Obj)
        requires
            old(self).wf(),
            old(self).in_bounds(*pt),
        ensures
            final(self).wf(),
            final(self).cells() == old(self).cells().update(pt.0 + pt.1 * old(self).w, obj),
            final(self).w == old(self).w,
            final(self).h == old(self).h,
            final(self).deer_pos == old(self).deer_pos,
            final(self).deer_dir == old(self).deer_dir,
            final(self).start_pos == old(self).start_pos,
            final(self).end_pos == old(self).end_pos,
            forall|x: int, y: int| final(self).is_wall(x, y) == old(self).is_wall(x, y),
    {
        proof {
            crate::grid::lemma_cell_index(pt.0 as int, pt.1 as int, self.w as int, self.h as int);
        }
        self.data.set((pt.0 as usize) + (pt.1 as usize) * (self.w as usize), obj);
    }

    /// What stands at `pt`; a wall anywhere outside the level.
    pub fn get_obj_at_pt_checked(&self, pt: &Vector) -> (r: Obj)
        requires
            self.wf(),
        ensures
            r == (if self.in_bounds(*pt) {
                self.obj_at(*pt)
            } else {
                Obj::Wall
            }),
    {
        if pt.0 < 0 || pt.0 >= self.w as i32 || pt.1 < 0 || pt.1 >= self.h as i32 {
            Obj::Wall
        } else {
            self.get_obj_at_pt(pt)
        }
    }

    /// Writes `obj` into the cell at `pt`, which must lie within the level.
    pub fn set_obj_at_pt_checked(&mut self, pt: &Vector, obj: Obj)
        requires
            old(self).wf(),
            old(self).in_bounds(*pt),
        ensures
            final(self).wf(),
            final(self).cells() == old(self).cells().update(pt.0 + pt.1 * old(self).w, obj),
            final(self).w == old(self).w,
            final(self).h == old(self).h,
            final(self).deer_pos == old(self).deer_pos,
            final(self).deer_dir == old(self).deer_dir,
            final(self).start_pos == old(self).start_pos,
            final(self).end_pos == old(self).end_pos,
            forall|x: int, y: int| final(self).is_wall(x, y) == old(self).is_wall(x, y),
    {
        self.set_obj_at_pt(pt, obj);
    }

    /// Whether the deer stands on the end.
    pub fn have_win_condition(&self) -> (r: bool)
        ensures
            r == (self.deer_pos == self.end_pos),
    {
        self.deer_pos == self.end_pos
    }

    /// Sets the bit of every wall cell.
    pub fn init_level(&mut self)
        requires
            old(self).wf(),
        ensures
            final(self).wf(),
            final(self).cells() == old(self).cells(),
            final(self).w == old(self).w,
            final(self).h == old(self).h,
            final(self).deer_pos == old(self).deer_pos,
            final(self).deer_dir == old(self).deer_dir,
            final(self).start_pos == old(self).start_pos,
            final(self).end_pos == old(self).end_pos,
            forall|x: int, y: int|
                0 <= x < old(self).w && 0 <= y < old(self).h ==> final(self).is_wall(x, y) == (
                old(self).is_wall(x, y) || old(self).cells()[y * old(self).w + x] == Obj::Wall),
    {
        let mut y: u16 = 0;
        while y < self.h
            invariant
                self.wf(),
                y <= self.h,
                self.cells() == old(self).cells(),
                self.w == old(self).w,
                self.h == old(self).h,
                self.deer_pos == old(self).deer_pos,
                self.deer_dir == old(self).deer_dir,
                self.start_pos == old(self).start_pos,
                self.end_pos == old(self).end_pos,
                forall|px: int, py: int|
                    0 <= px < self.w && 0 <= py < self.h ==> self.is_wall(px, py) == (old(
                        self,
                    ).is_wall(px, py) || (py < y && self.data@[py * self.w + px] == Obj::Wall)),
            decreases self.h - y,
        {
            let mut x: u16 = 0;
            while x < self.w
                invariant
                    self.wf(),
                    self.w <= MAX_LEVEL_WIDTH,
                    y < self.h,
                    x <= self.w,
                    self.cells() == old(self).cells(),
                    self.w == old(self).w,
                    self.h == old(self).h,
                    self.deer_pos == old(self).deer_pos,
                    self.deer_dir == old(self).deer_dir,
                    self.start_pos == old(self).start_pos,
                    self.end_pos == old(self).end_pos,
                    forall|px: int, py: int|
                        0 <= px < self.w && 0 <= py < self.h ==> self.is_wall(px, py) == (old(
                            self,
                        ).is_wall(px, py) || ((py < y || (py == y && px < x)) && self.data@[py
                            * self.w + px] == Obj::Wall)),
                decreases self.w - x,
            {
                proof {
                    crate::grid::lemma_cell_index(x as int, y as int, self.w as int, self.h as int);
                }
                let idx: usize = y as usize * self.w as usize + x as usize;
                let ghost before = *self;
                if self.data[idx] == Obj::Wall {
                    self.wall_bmp.set_v(Vector(x as i32, y as i32));
                }
                assert forall|px: int, py: int|
                    0 <= px < self.w && 0 <= py < self.h implies self.is_wall(px, py) == (old(
                        self,
                    ).is_wall(px, py) || ((py < y || (py == y && px < x + 1)) && self.data@[py
                        * self.w + px] == Obj::Wall)) by {
                    crate::grid::lemma_cell_index(px, py, self.w as int, self.h as int);
                    assert(before.is_wall(px, py) == (old(self).is_wall(px, py) || ((py < y || (py
                        == y && px < x)) && self.data@[py * self.w + px] == Obj::Wall)));
                }
                x += 1;
            }
            y += 1;
        }
    }

    /// Clears the deer from the cells: a deer cell at its place becomes space.
    pub fn clear_deer(&mut self)
        requires
            old(self).wf(),
            old(self).in_bounds(old(self).deer_pos),
        ensures
            final(self).wf(),
            final(self).cells() == old(self).cells().update(
                old(self).deer_pos.0 + old(self).deer_pos.1 * old(self).w,
                if old(self).obj_at(old(self).deer_pos) == Obj::Deer {
                    Obj::Space
                } else {
                    old(self).obj_at(old(self).deer_pos)
                },
            ),
            final(self).deer_pos == old(self).deer_pos,
            forall|x: int, y: int| final(self).is_wall(x, y) == old(self).is_wall(x, y),
    {
        let pt = self.deer_pos;
        let obj = self.get_obj_at_pt(&pt);
        let obj2 = match obj {
            Obj::Deer => Obj::Space,
            _ => obj,
        };
        self.set_obj_at_pt(&pt, obj2);
    }

    /// Whether `v` is a wall cell of the level.
    pub fn in_wall_pts(&self, v: &Vector) -> (r: bool)
        requires
            self.wf(),
        ensures
            r == (self.in_bounds(*v) && self.is_wall(v.0 as int, v.1 as int)),
    {
        self.vector_in_bounds(v) && self.wall_bmp.get_v(*v)
    }

    /// Whether `v` is a wall cell of the level.
    pub fn in_wall_pts8(&self, v: &VectorSm) -> (r: bool)
        requires
            self.wf(),
        ensures
            r == (self.in_bounds(Vector(v.0 as i32, v.1 as i32)) && self.is_wall(v.0 as int, v.1 as int)),
    {
        self.in_wall_pts(&v.intov())
    }

    /// Whether the two levels hold the same cells and the deer stands at the same place.
    pub fn eq_data(&self, b: &Level) -> (r: bool)
        ensures
            r == (self.cells() == b.cells() && self.deer_pos == b.deer_pos),
    {
        if self.data.len() != b.data.len() {
            return false;
        }
        let mut i: usize = 0;
        while i < self.data.len()
            invariant
                self.data.len() == b.data.len(),
                i <= self.data.len(),
                forall|j: int| 0 <= j < i ==> self.data@[j] == b.data@[j],
            decreases self.data.len() - i,
        {
            if self.data[i] != b.data[i] {
                return false;
            }
            i += 1;
        }
        assert(self.data@ =~= b.data@);
        self.deer_pos == b.deer_pos
    }

    pub fn vector_in_bounds(&self, v: &Vector) -> (r: bool)
        ensures
            r == self.in_bounds(*v),
    {
        v.0 >= 0 && v.0 < self.w as i32 && v.1 >= 0 && v.1 < self.h as i32
    }

    pub fn vector_in_bounds8(&self, v: &VectorSm) -> (r: bool)
        ensures
            r == self.in_bounds(Vector(v.0 as i32, v.1 as i32)),
    {
        v.0 >= 0 && (v.0 as i32) < (self.w as i32) && v.1 >= 0 && (v.1 as i32) < (self.h as i32)
    }

    /// The level as text, one character for what stands in each cell, each row
    /// ended by a newline.
    pub fn to_string(&self) -> (r: String)
        requires
            self.wf(),
        ensures
            r@ == cells_text(
                |x: int, y: int| self.obj_at(Vector(x as i32, y as i32)).spec_char(),
                self.w as int,
                self.h as int,
            ),
    {
        let mut s = String::new();
        let mut y: i32 = 0;
        while y < self.h as i32
            invariant
                self.wf(),
                0 <= y <= self.h,
                s@ == cells_text(
                    |x: int, y: int| self.obj_at(Vector(x as i32, y as i32)).spec_char(),
                    self.w as int,
                    y as int,
                ),
            decreases self.h - y,
        {
            let ghost base = s@;
            let mut x: i32 = 0;
            while x < self.w as i32
                invariant
                    self.wf(),
                    0 <= y < self.h,
                    0 <= x <= self.w,
                    s@ == base + row_text(
                        |x: int, y: int| self.obj_at(Vector(x as i32, y as i32)).spec_char(),
                        y as int,
                        x as int,
                    ),
                decreases self.w - x,
            {
                let c = self.get_obj_at_pt(&Vector(x, y)).to_char();
                push_char(&mut s, c);
                x += 1;
            }
            push_char(&mut s, '\n');
            y += 1;
        }
        s
    }

    /// Whether the deer can stand at `v`: it lies within the level and is no wall.
    pub fn has_space_at(&self, v: Vector) -> (r: bool)
        requires
            self.wf(),
        ensures
            r == self.open_at(v),
    {
        self.vector_in_bounds(&v) && !self.wall_bmp.get_v(v)
    }

    /// Makes the cell at `v`, which must lie within the level, a wall.
    pub fn add_wall(&mut self, v: Vector)
        requires
            old(self).wf(),
            old(self).in_bounds(v),
        ensures
            final(self).wf(),
            old(self).walls_added(final(self), set![(v.0 as int, v.1 as int)]),
            final(self).cells() == old(self).cells(),
            final(self).deer_pos == old(self).deer_pos,
    {
        self.wall_bmp.set_v(v);
    }

    /// The points visited by following `path` from the start, the start included.
    pub fn get_path_pts(&self, path: &Vec<Move2>) -> (r: Vec<Vector>)
        requires
            self.wf(),
            path.len() + MAX_LEVEL_WIDTH + MAX_LEVEL_HEIGHT <= i32::MAX,
        ensures
            r@ == walk_pts(self.start_pos, path@),
    {
        let mut pos = self.start_pos;
        let mut vecs: Vec<Vector> = Vec::new();
        vecs.push(pos);
        let mut i: usize = 0;
        while i < path.len()
            invariant
                self.wf(),
                i <= path.len(),
                path.len() + MAX_LEVEL_WIDTH + MAX_LEVEL_HEIGHT <= i32::MAX,
                vecs@ == walk_pts(self.start_pos, path@.take(i as int)),
                pos == vecs@.last(),
                -(i as int) <= pos.0 <= MAX_LEVEL_WIDTH + i,
                -(i as int) <= pos.1 <= MAX_LEVEL_HEIGHT + i,
            decreases path.len() - i,
        {
            proof {
                assert(path@.take(i + 1).drop_last() =~= path@.take(i as int));
            }
            pos = pos.apply_dir(&path[i]);
            vecs.push(pos);
            i += 1;
        }
        assert(path@.take(i as int) =~= path@);
        vecs
    }
}

/// The byte of an empty cell, `.`.
pub const SPACE_MARK: u8 = 46;
/// The byte of a wall, `#`.
pub const WALL_MARK: u8 = 35;
/// The byte of the deer, `d`.
pub const DEER_MARK: u8 = 100;
/// The byte of the start marker, `S`.
pub const START_MARK: u8 = 83;
/// The byte of the end marker, `E`.
pub const END_MARK: u8 = 69;

/// Whether `c` may stand in a cell of a level's text.
pub open spec fn cell_byte_ok(c: u8) -> bool {
    c == SPACE_MARK || c == WALL_MARK || c == DEER_MARK || c == START_MARK || c == END_MARK
}

/// What a cell's byte stands for; the markers stand on empty space.
pub open spec fn obj_of_byte(c: u8) -> Obj {
    if c == WALL_MARK {
        Obj::Wall
    } else if c == DEER_MARK {
        Obj::Deer
    } else {
        Obj::Space
    }
}

/// How many times `c` occurs in `s`.
pub open spec fn count_byte(s: Seq<u8>, c: u8) -> nat
    decreases s.len(),
{
    if s.len() == 0 {
        0
    } else {
        count_byte(s.drop_last(), c) + if s.last() == c {
            1nat
        } else {
            0nat
        }
    }
}

/// There is at least one row and all rows are as long as the first.
pub open spec fn rows_rect(rows: Seq<Seq<u8>>) -> bool {
    rows.len() > 0 && forall|y: int| 0 <= y < rows.len() ==> #[trigger] rows[y].len() == rows[0].len()
}

/// Every cell holds one of the bytes a level may hold.
pub open spec fn rows_cells_ok(rows: Seq<Seq<u8>>) -> bool {
    forall|y: int, x: int| 0 <= y < rows.len() && 0 <= x < rows[y].len() ==> cell_byte_ok(#[trigger] rows[y][x])
}

/// The rows of a text that is a level: rectangular, at least 3 by 3 and at
/// most what a bitmap holds, only cell bytes, one start and one end.
pub open spec fn level_rows_ok(rows: Seq<Seq<u8>>) -> bool {
    &&& rows_rect(rows)
    &&& rows_cells_ok(rows)
    &&& count_byte(flatten_rows(rows), START_MARK) == 1
    &&& count_byte(flatten_rows(rows), END_MARK) == 1
    &&& 3 <= rows[0].len() <= MAX_LEVEL_WIDTH
    &&& 3 <= rows.len() <= MAX_LEVEL_HEIGHT
}

proof fn lemma_count_push(s: Seq<u8>, b: u8, c: u8)
    ensures
        count_byte(s.push(b), c) == count_byte(s, c) + if b == c { 1nat } else { 0nat },
{
    assert(s.push(b).drop_last() =~= s);
}

proof fn lemma_count_append(a: Seq<u8>, b: Seq<u8>, c: u8)
    ensures
        count_byte(a + b, c) == count_byte(a, c) + count_byte(b, c),
    decreases b.len(),
{
    if b.len() > 0 {
        lemma_count_append(a, b.drop_last(), c);
        assert((a + b).drop_last() =~= a + b.drop_last());
    } else {
        assert(a + b =~= a);
    }
}

proof fn lemma_flatten_append(a: Seq<Seq<u8>>, b: Seq<Seq<u8>>)
    ensures
        flatten_rows(a + b) == flatten_rows(a) + flatten_rows(b),
    decreases b.len(),
{
    if b.len() > 0 {
        lemma_flatten_append(a, b.drop_last());
        assert((a + b).drop_last() =~= a + b.drop_last());
        assert(flatten_rows(a + b) =~= flatten_rows(a) + flatten_rows(b));
    } else {
        assert(a + b =~= a);
        assert(flatten_rows(a) + flatten_rows(b) =~= flatten_rows(a));
    }
}

/// In rows all `w` long, byte `x` of row `y` stands at `y * w + x` of the flattened rows.
proof fn lemma_flatten_index(rows: Seq<Seq<u8>>, w: int, x: int, y: int)
    requires
        forall|j: int| 0 <= j < rows.len() ==> #[trigger] rows[j].len() == w,
        0 <= x < w,
        0 <= y < rows.len(),
    ensures
        flatten_rows(rows).len() == rows.len() * w,
        flatten_rows(rows)[y * w + x] == rows[y][x],
    decreases rows.len(),
{
    lemma_flatten_len(rows, w);
    lemma_flatten_len(rows.drop_last(), w);
    assert(flatten_rows(rows) == flatten_rows(rows.drop_last()) + rows.last());
    if y < rows.len() - 1 {
        lemma_flatten_index(rows.drop_last(), w, x, y);
        crate::grid::lemma_cell_index(x, y, w, rows.len() - 1);
        assert(w * (rows.len() - 1) == (rows.len() - 1) * w) by (nonlinear_arith);
    } else {
        assert((rows.len() - 1) * w == rows.len() * w - w) by (nonlinear_arith);
        assert(y * w + x == (rows.len() - 1) * w + x);
    }
}

proof fn lemma_flatten_len(rows: Seq<Seq<u8>>, w: int)
    requires
        forall|j: int| 0 <= j < rows.len() ==> #[trigger] rows[j].len() == w,
    ensures
        flatten_rows(rows).len() == rows.len() * w,
    decreases rows.len(),
{
    if rows.len() > 0 {
        lemma_flatten_len(rows.drop_last(), w);
        assert((rows.len() - 1) * w + w == rows.len() * w) by (nonlinear_arith);
    }
}

/// The state of a parse: the cells read so far and where the markers are.
struct Scan {
    w: usize,
    data: Vec<Obj>,
    start: Option<(usize, usize)>,
    end: Option<(usize, usize)>,
}

impl Scan {
    /// `flat` holds the bytes of the cells read so far, which are all cell bytes.
    spec fn scan_ok(&self, flat: Seq<u8>) -> bool {
        &&& self.data@.len() == flat.len()
        &&& forall|j: int| 0 <= j < flat.len() ==> cell_byte_ok(#[trigger] flat[j]) && self.data@[j] == obj_of_byte(flat[j])
        &&& self.marker_ok(self.start, flat, START_MARK)
        &&& self.marker_ok(self.end, flat, END_MARK)
    }

    spec fn marker_ok(&self, m: Option<(usize, usize)>, flat: Seq<u8>, c: u8) -> bool {
        match m {
            None => count_byte(flat, c) == 0,
            Some((x, y)) => count_byte(flat, c) == 1 && x < self.w && y * self.w + x < flat.len()
                && flat[y * self.w + x] == c,
        }
    }

    /// Reads the cells of `line`, row `y`; stops at a byte that cannot stand
    /// in a cell and at a second marker.
    fn scan_line(&mut self, line: &[u8], y: usize, Ghost(flat): Ghost<Seq<u8>>) -> (r: Result<(), ParseError>)
        requires
            old(self).scan_ok(flat),
            line@.len() == old(self).w,
            flat.len() == y * old(self).w,
        ensures
            final(self).w == old(self).w,
            r is Ok ==> final(self).scan_ok(flat + line@),
            r matches Err(e) ==> (e == ParseError::BadCharacter && exists|x: int| 0 <= x < line@.len() && !cell_byte_ok(#[trigger] line@[x]))
                || (e == ParseError::DuplicateMarker && (count_byte(flat + line@, START_MARK) > 1 || count_byte(flat + line@, END_MARK) > 1)),
    {
        let mut x: usize = 0;
        while x < line.len()
            invariant
                self.w == old(self).w,
                line@.len() == self.w,
                flat.len() == y * self.w,
                x <= line.len(),
                self.scan_ok(flat + line@.take(x as int)),
            decreases line.len() - x,
        {
            let ghost f0 = flat + line@.take(x as int);
            let c = line[x];
            assert(flat + line@.take(x + 1) =~= f0.push(c));
            proof {
                lemma_count_push(f0, c, START_MARK);
                lemma_count_push(f0, c, END_MARK);
                lemma_count_append(f0.push(c), line@.skip(x + 1), START_MARK);
                lemma_count_append(f0.push(c), line@.skip(x + 1), END_MARK);
                assert(f0.push(c) + line@.skip(x + 1) =~= flat + line@);
                assert(y * self.w + x < y * self.w + self.w);
            }
            if c == START_MARK {
                if self.start.is_some() {
                    return Err(ParseError::DuplicateMarker);
                }
                self.start = Some((x, y));
                self.data.push(Obj::Space);
            } else if c == END_MARK {
                if self.end.is_some() {
                    return Err(ParseError::DuplicateMarker);
                }
                self.end = Some((x, y));
                self.data.push(Obj::Space);
            } else if c == SPACE_MARK {
                self.data.push(Obj::Space);
            } else if c == WALL_MARK {
                self.data.push(Obj::Wall);
            } else if c == DEER_MARK {
                self.data.push(Obj::Deer);
            } else {
                assert(!cell_byte_ok(line@[x as int]));
                return Err(ParseError::BadCharacter);
            }
            x += 1;
        }
        assert(line@.take(x as int) =~= line@);
        Ok(())
    }
}

impl Level {
    /// Parses a level: one line per row, `#` for a wall, `.` for empty space,
    /// `d` for the deer, `S` for the start and `E` for the end, each marker
    /// exactly once. The deer starts on the start, facing right.
    pub fn from_str(level_str: &str) -> (r: Result<Level, ParseError>)
        requires
            level_str.spec_bytes().len() < usize::MAX,
        ensures
            ({
                let rows = text_lines(level_str.spec_bytes());
                &&& r is Ok <==> level_rows_ok(rows)
                &&& r matches Ok(level) ==> {
                    &&& level.wf()
                    &&& level.w == rows[0].len()
                    &&& level.h == rows.len()
                    &&& rows[level.start_pos.1 as int][level.start_pos.0 as int] == START_MARK
                    &&& rows[level.end_pos.1 as int][level.end_pos.0 as int] == END_MARK
                    &&& level.deer_pos == level.start_pos
                    &&& level.deer_dir == Move2::Right
                    &&& forall|x: int, y: int| 0 <= x < level.w && 0 <= y < level.h ==> {
                        &&& level.is_wall(x, y) == (rows[y][x] == WALL_MARK)
                        &&& level.cells()[y * level.w + x] == obj_of_byte(rows[y][x])
                    }
                }
                &&& r matches Err(e) ==> match e {
                    ParseError::RaggedRows => !rows_rect(rows),
                    ParseError::BadCharacter => !rows_cells_ok(rows),
                    ParseError::DuplicateMarker => count_byte(flatten_rows(rows), START_MARK) > 1
                        || count_byte(flatten_rows(rows), END_MARK) > 1,
                    ParseError::MissingMarker => rows_cells_ok(rows)
                        && (rows.len() == 0 || rows_rect(rows))
                        && (count_byte(flatten_rows(rows), START_MARK) == 0
                        || count_byte(flatten_rows(rows), END_MARK) == 0),
                    ParseError::TooSmall => rows_rect(rows) && rows_cells_ok(rows)
                        && count_byte(flatten_rows(rows), START_MARK) == 1
                        && count_byte(flatten_rows(rows), END_MARK) == 1
                        && (rows[0].len() < 3 || rows.len() < 3),
                    ParseError::TooLarge => rows_rect(rows) && rows_cells_ok(rows)
                        && count_byte(flatten_rows(rows), START_MARK) == 1
                        && count_byte(flatten_rows(rows), END_MARK) == 1
                        && 3 <= rows[0].len() && 3 <= rows.len()
                        && (rows[0].len() > MAX_LEVEL_WIDTH || rows.len() > MAX_LEVEL_HEIGHT),
                }
            }),
    {
        let b = level_str.as_bytes();
        let ghost bs = b@;
        let mut scan = Scan { w: 0, data: Vec::new(), start: None, end: None };
        let mut i: usize = 0;
        let mut s: usize = 0;
        let mut y: usize = 0;
        let ghost mut done: Seq<Seq<u8>> = Seq::empty();
        assert(scan.scan_ok(flatten_rows(done)));
        while i <= b.len() && s < b.len()
            invariant
                bs == b@,
                bs == level_str.spec_bytes(),
                s <= i,
                i <= b.len() + 1,
                text_lines(bs) == done + crate::text::lines_from(bs, i as int, s as int),
                done.len() == y,
                y > 0 ==> scan.w == done[0].len(),
                forall|j: int| 0 <= j < done.len() ==> #[trigger] done[j].len() == scan.w,
                forall|j: int| s <= j < i ==> bs[j] != NEWLINE,
                scan.scan_ok(flatten_rows(done)),
                flatten_rows(done).len() == y * scan.w,
                y <= i,
                b.len() < usize::MAX,
                i == b.len() + 1 ==> s == b.len() + 1,
            decreases b.len() + 1 - i,
        {
            if i == b.len() || b[i] == NEWLINE {
                let nl = i < b.len();
                let mut e: usize = i;
                if nl && e > s && b[e - 1] == CARRIAGE_RETURN {
                    e = e - 1;
                }
                let line: &[u8] = &b[s..e];
                assert(line@ == crate::text::line_of(bs, s as int, i as int, nl));
                let ghost rest = if nl {
                    crate::text::lines_from(bs, i + 1, i + 1)
                } else {
                    Seq::<Seq<u8>>::empty()
                };
                assert(crate::text::lines_from(bs, i as int, s as int) == seq![line@] + rest);
                assert(text_lines(bs) == done.push(line@) + rest) by {
                    assert(done + (seq![line@] + rest) =~= done.push(line@) + rest);
                }
                assert(text_lines(bs)[y as int] == line@);
                if y == 0 {
                    scan.w = line.len();
                    assert(flatten_rows(done) =~= Seq::<u8>::empty());
                }
                if line.len() != scan.w {
                    proof {
                        assert(text_lines(bs)[0] == done[0]);
                    }
                    return Err(ParseError::RaggedRows);
                }
                let ghost flat0 = flatten_rows(done);
                let res = scan.scan_line(line, y, Ghost(flat0));
                proof {
                    let rows = text_lines(bs);
                    lemma_flatten_append(done.push(line@), rest);
                    assert(done.push(line@).drop_last() =~= done);
                    assert(flatten_rows(done.push(line@)) == flat0 + line@);
                    lemma_count_append(flat0 + line@, flatten_rows(rest), START_MARK);
                    lemma_count_append(flat0 + line@, flatten_rows(rest), END_MARK);
                    if res is Err {
                        if exists|x: int| 0 <= x < line@.len() && !cell_byte_ok(#[trigger] line@[x]) {
                            let x = choose|x: int| 0 <= x < line@.len() && !cell_byte_ok(#[trigger] line@[x]);
                            assert(!cell_byte_ok(rows[y as int][x]));
                        }
                    }
                }
                match res {
                    Err(e) => {
                        return Err(e);
                    },
                    Ok(()) => {},
                }
                proof {
                    let nd = done.push(line@);
                    assert(nd.drop_last() =~= done);
                    lemma_flatten_len(nd, scan.w as int);
                    assert(y * scan.w + scan.w == (y + 1) * scan.w) by (nonlinear_arith);
                    done = nd;
                    assert(text_lines(bs) == done + crate::text::lines_from(bs, i + 1, i + 1)) by {
                        if !nl {
                            assert(crate::text::lines_from(bs, i + 1, i + 1) =~= Seq::<Seq<u8>>::empty());
                            assert(done + Seq::<Seq<u8>>::empty() =~= done);
                        }
                    }
                }
                y += 1;
                s = i + 1;
            }
            i += 1;
        }
        let ghost rows = text_lines(bs);
        proof {
            assert(crate::text::lines_from(bs, i as int, s as int) =~= Seq::<Seq<u8>>::empty());
            assert(rows =~= done);
            let flat = flatten_rows(done);
            lemma_flatten_len(done, scan.w as int);
            assert forall|yy: int, x: int| 0 <= yy < rows.len() && 0 <= x < rows[yy].len() implies cell_byte_ok(
                #[trigger] rows[yy][x],
            ) by {
                lemma_flatten_index(done, scan.w as int, x, yy);
                crate::grid::lemma_cell_index(x, yy, scan.w as int, y as int);
                assert(yy * scan.w + x < y * scan.w) by (nonlinear_arith)
                    requires
                        yy < y,
                        x < scan.w,
                        0 <= yy,
                        0 <= x,
                ;
                assert(cell_byte_ok(flat[yy * scan.w + x]));
            }
            if y > 0 {
                assert(rows_rect(rows));
            }
        }
        let (sp, ep) = match (scan.start, scan.end) {
            (Some(sp), Some(ep)) => (sp, ep),
            _ => {
                return Err(ParseError::MissingMarker);
            },
        };
        proof {
            if y == 0 {
                assert(flatten_rows(done) =~= Seq::<u8>::empty());
            }
            assert(rows_rect(rows));
        }
        if scan.w < 3 || y < 3 {
            return Err(ParseError::TooSmall);
        }
        if scan.w > MAX_LEVEL_WIDTH as usize || y > MAX_LEVEL_HEIGHT as usize {
            return Err(ParseError::TooLarge);
        }
        proof {
            let w = scan.w as int;
            assert(sp.1 < y) by (nonlinear_arith)
                requires
                    sp.1 * w + sp.0 < y * w,
                    0 <= sp.0,
                    w > 0,
            ;
            assert(ep.1 < y) by (nonlinear_arith)
                requires
                    ep.1 * w + ep.0 < y * w,
                    0 <= ep.0,
                    w > 0,
            ;
            lemma_flatten_index(done, w, sp.0 as int, sp.1 as int);
            lemma_flatten_index(done, w, ep.0 as int, ep.1 as int);
            assert(w * (y as int) == (y as int) * w) by (nonlinear_arith);
        }
        let start = Vector(sp.0 as i32, sp.1 as i32);
        let end = Vector(ep.0 as i32, ep.1 as i32);
        let ghost flat = flatten_rows(done);
        let mut level = Level {
            w: scan.w as u16,
            h: y as u16,
            deer_pos: start,
            deer_dir: Move2::Right,
            end_pos: end,
            start_pos: start,
            data: scan.data,
            wall_bmp: LevelBitmap::new(scan.w, y),
        };
        let ghost before = level;
        level.init_level();
        proof {
            assert forall|x: int, yy: int| #![trigger rows[yy][x]] 0 <= x < level.w && 0 <= yy < level.h implies {
                &&& level.is_wall(x, yy) == (rows[yy][x] == WALL_MARK)
                &&& level.cells()[yy * level.w + x] == obj_of_byte(rows[yy][x])
            } by {
                lemma_flatten_index(done, scan.w as int, x, yy);
                crate::grid::lemma_cell_index(x, yy, level.w as int, level.h as int);
                assert(!before.is_wall(x, yy));
                lemma_mul_comm(level.w as int, level.h as int);
            }
        }
        Ok(level)
    }
}

/// Multiplication commutes.
proof fn lemma_mul_comm(a: int, b: int)
    ensures
        a * b == b * a,
{
}


} // verus!
