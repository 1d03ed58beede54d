//! The bisection over an ordered list of obstacles: the first prefix of the
//! list whose walls cut the start off from the end.
use vstd::prelude::*;
use crate::level::{walk_end, Level};
use crate::path2::{Move2, SHRUNK_PATH_CAPACITY};
use crate::solve::{is_reachable, reaches_end};
use crate::vector::Vector;

verus! {

/// The cells of obstacles `0..=i`.
pub open spec fn walls_upto(obstacles: Seq<Vector>, i: int) -> Set<(int, int)> {
    Set::new(
        |p: (int, int)|
            exists|j: int| 0 <= j <= i && p == (#[trigger] obstacles[j].0 as int, obstacles[j].1 as int),
    )
}

/// Every move of `path`, followed from the start, lands on a cell that is
/// open in `level` and not in `extra`.
pub open spec fn valid_walk_with(level: &Level, extra: Set<(int, int)>, path: Seq<Move2>) -> bool
    decreases path.len(),
{
    path.len() == 0 || (valid_walk_with(level, extra, path.drop_last()) && {
        let v = walk_end(level.start_pos, path);
        level.open_at(v) && !extra.contains((v.0 as int, v.1 as int))
    })
}

/// `path` leads from the start to the end of `level` with the cells of `extra` walled.
pub open spec fn reaches_end_with(level: &Level, extra: Set<(int, int)>, path: Seq<Move2>) -> bool {
    valid_walk_with(level, extra, path) && walk_end(level.start_pos, path) == level.end_pos
}

/// With obstacles `0..=i` walled, some path of fewer than `max_depth` moves reaches the end.
pub open spec fn probe_passes(level: &Level, obstacles: Seq<Vector>, i: int, max_depth: nat) -> bool {
    exists|q: Seq<Move2>|
        #[trigger] reaches_end_with(level, walls_upto(obstacles, i), q) && q.len() < max_depth
}

/// A walk in a level with walls added is a walk with those cells walled.
proof fn lemma_walk_with(level: &Level, more: &Level, extra: Set<(int, int)>, q: Seq<Move2>)
    requires
        level.wf(),
        more.wf(),
        level.walls_added(more, extra),
    ensures
        more.valid_walk(q) == valid_walk_with(level, extra, q),
    decreases q.len(),
{
    if q.len() > 0 {
        lemma_walk_with(level, more, extra, q.drop_last());
    }
}

impl Level {
    /// A copy of this level with obstacles `0..=upto` walled.
    pub fn with_walls(&self, obstacles: &Vec<Vector>, upto: usize) -> (r: Level)
        requires
            self.wf(),
            upto < obstacles.len(),
            forall|j: int| 0 <= j < obstacles.len() ==> self.in_bounds(#[trigger] obstacles@[j]),
        ensures
            r.wf(),
            self.walls_added(&r, walls_upto(obstacles@, upto as int)),
            r.cells() == self.cells(),
            r.deer_pos == self.deer_pos,
    {
        let mut data: Vec<crate::obj::Obj> = Vec::new();
        let mut i: usize = 0;
        while i < self.data.len()
            invariant
                i <= self.data.len(),
                data@ == self.data@.take(i as int),
            decreases self.data.len() - i,
        {
            data.push(self.data[i]);
            i += 1;
            assert(data@ =~= self.data@.take(i as int));
        }
        assert(data@ =~= self.data@);
        let mut bitmap: Vec<[u64; 3]> = Vec::new();
        let mut y: usize = 0;
        while y < self.wall_bmp.bitmap.len()
            invariant
                y <= self.wall_bmp.bitmap.len(),
                bitmap@ == self.wall_bmp.bitmap@.take(y as int),
            decreases self.wall_bmp.bitmap.len() - y,
        {
            bitmap.push(self.wall_bmp.bitmap[y]);
            y += 1;
            assert(bitmap@ =~= self.wall_bmp.bitmap@.take(y as int));
        }
        assert(bitmap@ =~= self.wall_bmp.bitmap@);
        let mut r = Level {
            w: self.w,
            h: self.h,
            deer_pos: self.deer_pos,
            deer_dir: self.deer_dir,
            end_pos: self.end_pos,
            start_pos: self.start_pos,
            data,
            wall_bmp: crate::level::LevelBitmap { w: self.wall_bmp.w, h: self.wall_bmp.h, bitmap },
        };
        let mut j: usize = 0;
        while j <= upto
            invariant
                self.wf(),
                r.wf(),
                upto < obstacles.len(),
                j <= upto + 1,
                forall|k: int| 0 <= k < obstacles.len() ==> self.in_bounds(#[trigger] obstacles@[k]),
                self.walls_added(&r, walls_upto(obstacles@, j - 1)),
                r.cells() == self.cells(),
                r.deer_pos == self.deer_pos,
            decreases upto + 1 - j,
        {
            let ghost before = r;
            r.add_wall(obstacles[j]);
            proof {
                let o = obstacles@[j as int];
                assert forall|x: int, yy: int| 0 <= x < self.w && 0 <= yy < self.h implies r.is_wall(x, yy) == (
                    self.is_wall(x, yy) || walls_upto(obstacles@, j as int).contains((x, yy))) by {
                    if walls_upto(obstacles@, j as int).contains((x, yy)) && !walls_upto(obstacles@, j - 1).contains((x, yy)) {
                        let k = choose|k: int| 0 <= k <= j && (x, yy) == (#[trigger] obstacles@[k].0 as int, obstacles@[k].1 as int);
                        if k < j {
                            assert(walls_upto(obstacles@, j - 1).contains((x, yy)));
                        }
                    }
                    if walls_upto(obstacles@, j - 1).contains((x, yy)) {
                        let k = choose|k: int| 0 <= k <= j - 1 && (x, yy) == (#[trigger] obstacles@[k].0 as int, obstacles@[k].1 as int);
                        assert(walls_upto(obstacles@, j as int).contains((x, yy)));
                    }
                    if x == o.0 && yy == o.1 {
                        assert(walls_upto(obstacles@, j as int).contains((x, yy)));
                    }
                }
            }
            j += 1;
        }
        r
    }
}

/// Finds, between `lo` and `hi`, the first obstacle whose walling, together
/// with all before it, leaves no path of fewer than `max_depth` moves to the end.
///
/// `lo` is taken as an index known to pass and `hi` as one known to fail;
/// neither is probed. The answer `r` has `lo < r <= hi`; the probe at
/// `r - 1` passed unless that is `lo`, and the probe at `r` failed unless
/// that is `hi`.
pub fn bisect_first_blocking_index(
    level: &Level,
    obstacles: &Vec<Vector>,
    lo: usize,
    hi: usize,
    max_depth: u64,
) -> (r: usize)
    requires
        level.wf(),
        lo < hi <= obstacles.len(),
        forall|j: int| 0 <= j < obstacles.len() ==> level.in_bounds(#[trigger] obstacles@[j]),
        max_depth <= SHRUNK_PATH_CAPACITY,
    ensures
        lo < r <= hi,
        r - 1 > lo ==> probe_passes(level, obstacles@, r - 1, max_depth as nat),
        r < hi ==> !probe_passes(level, obstacles@, r as int, max_depth as nat),
{
    let mut idx_min = lo;
    let mut idx_max = hi;
    while idx_max - idx_min > 1
        invariant
            level.wf(),
            lo <= idx_min < idx_max <= hi <= obstacles.len(),
            forall|j: int| 0 <= j < obstacles.len() ==> level.in_bounds(#[trigger] obstacles@[j]),
            max_depth <= SHRUNK_PATH_CAPACITY,
            idx_min > lo ==> probe_passes(level, obstacles@, idx_min as int, max_depth as nat),
            idx_max < hi ==> !probe_passes(level, obstacles@, idx_max as int, max_depth as nat),
        decreases idx_max - idx_min,
    {
        let idx = idx_min + (idx_max - idx_min) / 2;
        let probe = level.with_walls(obstacles, idx);
        let ok = is_reachable(&probe, max_depth);
        proof {
            let extra = walls_upto(obstacles@, idx as int);
            if ok {
                let q = choose|q: Seq<Move2>| #[trigger] reaches_end(&probe, q) && q.len() < max_depth;
                lemma_walk_with(level, &probe, extra, q);
                assert(reaches_end_with(level, extra, q));
            } else {
                assert forall|q: Seq<Move2>| #[trigger] reaches_end_with(level, extra, q) implies q.len() >= max_depth by {
                    lemma_walk_with(level, &probe, extra, q);
                    assert(reaches_end(&probe, q));
                }
            }
        }
        if ok {
            idx_min = idx;
        } else {
            idx_max = idx;
        }
    }
    idx_max
}

/// Where the probes pass up to `k` and fail after it, the bisection finds `k + 1`.
pub proof fn law_bisect_finds_first_block(
    level: &Level,
    obstacles: Seq<Vector>,
    lo: int,
    hi: int,
    max_depth: nat,
    k: int,
    r: int,
)
    requires
        lo <= k < hi,
        forall|i: int| lo < i <= k ==> probe_passes(level, obstacles, i, max_depth),
        forall|i: int| k < i < hi ==> !probe_passes(level, obstacles, i, max_depth),
        lo < r <= hi,
        r - 1 > lo ==> probe_passes(level, obstacles, r - 1, max_depth),
        r < hi ==> !probe_passes(level, obstacles, r, max_depth),
    ensures
        r == k + 1,
{
}

} // verus!
