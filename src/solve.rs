//! The path search engine: level-synchronous label-correcting relaxation over
//! (position, facing) states, what its answers mean, the reachability
//! oracle, and the laws that the answers obey.
use vstd::prelude::*;
use crate::level::{lemma_walk_pts_len, walk_end, walk_pts, Level};
use crate::path2::{facing_after, path_cost, step_cost, Move2, SHRUNK_PATH_CAPACITY};
use crate::table::run;
use crate::vector::Vector;

verus! {

/// How a move is charged.
#[derive(Clone, Copy, PartialEq, Eq, Structural, Debug)]
pub enum CostModel {
    /// Every move costs 1; a state is a position.
    Uniform,
    /// A move costs 1, 1001 or 2001 by the turn it needs; a state is a
    /// position and a facing.
    TurnPenalized,
}

/// What the search collects.
#[derive(Clone, Copy, PartialEq, Eq, Structural, Debug)]
pub enum CollectionMode {
    /// Stop as soon as the end is reached; no tiles are collected.
    FirstSolution,
    /// Run to the end; the tiles are those of the one path returned.
    BestPath,
    /// Run to the end; the tiles are those of every path of the best score found.
    AllOptimal,
}

/// Why the search returned no path.
#[derive(Clone, Copy, PartialEq, Eq, Structural, Debug)]
pub enum SearchFailure {
    /// Every state reachable from the start was explored; none is at the end.
    NoSolutionExists,
    /// The round limit came before the exploration was complete.
    DepthLimitExceeded,
}

/// A path found from the start to the end.
#[derive(Clone, Debug)]
pub struct Solution {
    /// What the path costs under the cost model searched with.
    pub score: u64,
    /// The moves from the start to the end.
    pub path: Vec<Move2>,
    /// The tiles that the collection mode asks for, each once.
    pub visited: Vec<Vector>,
    /// Whether the round limit stopped the search before it was complete.
    pub max_depth_hit: bool,
}

/// A search state: a position, and the facing when turns are charged.
pub type NodeId = (Vector, Move2);

/// The state reached by following `path` from the start.
pub open spec fn node_of(level: &Level, turn: bool, path: Seq<Move2>) -> NodeId {
    (
        walk_end(level.start_pos, path),
        if turn {
            facing_after(level.deer_dir, path)
        } else {
            Move2::Up
        },
    )
}

/// What following `path` from the start costs.
pub open spec fn walk_cost(level: &Level, turn: bool, path: Seq<Move2>) -> nat {
    if turn {
        path_cost(level.deer_dir, path)
    } else {
        path.len()
    }
}

/// The state reached from `n` by a move in direction `m`.
pub open spec fn succ(turn: bool, n: NodeId, m: Move2) -> NodeId {
    (
        n.0.moved(m),
        if turn {
            m
        } else {
            Move2::Up
        },
    )
}

/// What a move in direction `m` costs from state `n`.
pub open spec fn move_cost(turn: bool, n: NodeId, m: Move2) -> nat {
    if turn {
        step_cost(n.1, m)
    } else {
        1
    }
}

/// A state of the level: a position within it, facing up when turns are free.
pub open spec fn node_ok(level: &Level, turn: bool, n: NodeId) -> bool {
    level.in_bounds(n.0) && (turn || n.1 == Move2::Up)
}

/// The slot of state `n` in the node table.
pub open spec fn key_of(level: &Level, n: NodeId) -> int {
    (n.0.1 * level.w + n.0.0) * 4 + n.1.index()
}

/// Some walk from the start to state `n`, of cost `s`, passes through `v`.
pub open spec fn on_walk(level: &Level, turn: bool, n: NodeId, s: nat, v: Vector) -> bool {
    exists|q: Seq<Move2>|
        level.valid_walk(q) && node_of(level, turn, q) == n && walk_cost(level, turn, q) == s
            && #[trigger] walk_pts(level.start_pos, q).contains(v)
}

/// `pts` holds the start and the position of `n`, and only points of walks
/// to `n` of cost `s`.
pub open spec fn pts_ok(level: &Level, turn: bool, n: NodeId, s: nat, pts: Seq<Vector>) -> bool {
    &&& pts.contains(level.start_pos)
    &&& pts.contains(n.0)
    &&& forall|v: Vector| pts.contains(v) ==> on_walk(level, turn, n, s, v)
}

/// What the engine records for state `n`: a walk to it of cost `s` and at most
/// `bound` moves, and, when tiles are collected, tiles of walks of that cost.
pub open spec fn record_ok(
    level: &Level,
    turn: bool,
    all: bool,
    n: NodeId,
    s: nat,
    path: Seq<Move2>,
    pts: Seq<Vector>,
    bound: nat,
) -> bool {
    &&& level.valid_walk(path)
    &&& node_of(level, turn, path) == n
    &&& walk_cost(level, turn, path) == s
    &&& path.len() <= bound
    &&& all ==> pts_ok(level, turn, n, s, pts)
}

/// Following one more move extends the walk by one point, and adds the cost of that move.
pub proof fn lemma_walk_extend(level: &Level, turn: bool, q: Seq<Move2>, m: Move2)
    requires
        level.wf(),
        level.valid_walk(q),
        level.open_at(node_of(level, turn, q).0.moved(m)),
    ensures
        level.valid_walk(q.push(m)),
        node_of(level, turn, q.push(m)) == succ(turn, node_of(level, turn, q), m),
        walk_cost(level, turn, q.push(m)) == walk_cost(level, turn, q) + move_cost(
            turn,
            node_of(level, turn, q),
            m,
        ),
        walk_pts(level.start_pos, q.push(m)) == walk_pts(level.start_pos, q).push(
            node_of(level, turn, q).0.moved(m),
        ),
{
    assert(q.push(m).drop_last() =~= q);
}

/// The state reached by a walk is a state of the level.
pub proof fn lemma_walk_node_ok(level: &Level, turn: bool, q: Seq<Move2>)
    requires
        level.wf(),
        level.valid_walk(q),
    ensures
        node_ok(level, turn, node_of(level, turn, q)),
{
}

/// No state is reached twice along the walk.
pub open spec fn repeat_free(level: &Level, turn: bool, w: Seq<Move2>) -> bool {
    forall|i: int, j: int|
        0 <= i < j <= w.len() ==> #[trigger] node_of(level, turn, w.take(i)) != #[trigger] node_of(
            level,
            turn,
            w.take(j),
        )
}

/// A prefix of a walk is a walk.
pub proof fn lemma_valid_prefix(level: &Level, w: Seq<Move2>, k: int)
    requires
        level.valid_walk(w),
        0 <= k <= w.len(),
    ensures
        level.valid_walk(w.take(k)),
    decreases w.len(),
{
    if k == w.len() {
        assert(w.take(k) =~= w);
    } else {
        lemma_valid_prefix(level, w.drop_last(), k);
        assert(w.drop_last().take(k) =~= w.take(k));
    }
}

/// Every move costs at least 1.
pub proof fn lemma_cost_grows(level: &Level, turn: bool, w: Seq<Move2>, i: int, j: int)
    requires
        0 <= i <= j <= w.len(),
    ensures
        walk_cost(level, turn, w.take(j)) >= walk_cost(level, turn, w.take(i)) + (j - i),
    decreases j - i,
{
    if j > i {
        lemma_cost_grows(level, turn, w, i, j - 1);
        assert(w.take(j).drop_last() =~= w.take(j - 1));
    }
}

/// Point `i` of a walk is where its first `i` moves end.
pub proof fn lemma_walk_pts_index(start: Vector, w: Seq<Move2>, i: int)
    requires
        0 <= i <= w.len(),
    ensures
        walk_pts(start, w)[i] == walk_end(start, w.take(i)),
    decreases w.len(),
{
    lemma_walk_pts_len(start, w);
    if i == w.len() {
        assert(w.take(i) =~= w);
    } else {
        lemma_walk_pts_len(start, w.drop_last());
        lemma_walk_pts_index(start, w.drop_last(), i);
        assert(w.drop_last().take(i) =~= w.take(i));
    }
}

/// Cutting out the moves between two visits of one state keeps a walk to
/// the same state, `k` moves after the second visit, and saves their cost.
proof fn lemma_splice(level: &Level, turn: bool, w: Seq<Move2>, i: int, j: int, k: int)
    requires
        level.wf(),
        level.valid_walk(w),
        0 <= i < j <= w.len(),
        node_of(level, turn, w.take(i)) == node_of(level, turn, w.take(j)),
        0 <= k <= w.len() - j,
    ensures
        level.valid_walk(w.take(i) + w.subrange(j, j + k)),
        node_of(level, turn, w.take(i) + w.subrange(j, j + k)) == node_of(level, turn, w.take(j + k)),
        walk_cost(level, turn, w.take(i) + w.subrange(j, j + k)) + walk_cost(level, turn, w.take(j))
            == walk_cost(level, turn, w.take(j + k)) + walk_cost(level, turn, w.take(i)),
    decreases k,
{
    if k == 0 {
        assert(w.take(i) + w.subrange(j, j) =~= w.take(i));
        lemma_valid_prefix(level, w, i);
    } else {
        lemma_splice(level, turn, w, i, j, k - 1);
        let v1 = w.take(i) + w.subrange(j, j + k - 1);
        let p1 = w.take(j + k - 1);
        let m = w[j + k - 1];
        assert(w.take(i) + w.subrange(j, j + k) =~= v1.push(m));
        assert(w.take(j + k) =~= p1.push(m));
        lemma_valid_prefix(level, w, j + k);
        assert(p1.push(m).drop_last() =~= p1);
        assert(level.valid_walk(p1));
        assert(level.open_at(node_of(level, turn, p1).0.moved(m)));
        lemma_walk_extend(level, turn, p1, m);
        lemma_walk_extend(level, turn, v1, m);
    }
}

/// A walk that reaches one state twice has a shorter, cheaper walk to the same state.
pub proof fn lemma_shortcut(level: &Level, turn: bool, w: Seq<Move2>, i: int, j: int)
    requires
        level.wf(),
        level.valid_walk(w),
        0 <= i < j <= w.len(),
        node_of(level, turn, w.take(i)) == node_of(level, turn, w.take(j)),
    ensures
        level.valid_walk(w.take(i) + w.skip(j)),
        node_of(level, turn, w.take(i) + w.skip(j)) == node_of(level, turn, w),
        walk_cost(level, turn, w.take(i) + w.skip(j)) < walk_cost(level, turn, w),
        (w.take(i) + w.skip(j)).len() < w.len(),
{
    let k = w.len() - j;
    lemma_splice(level, turn, w, i, j, k);
    assert(w.subrange(j, j + k) =~= w.skip(j));
    assert(w.take(j + k) =~= w);
    lemma_cost_grows(level, turn, w, i, j);
}

/// A walk of at least as many moves as there are states reaches some state twice.
pub proof fn lemma_long_walk_repeats(level: &Level, turn: bool, w: Seq<Move2>)
    requires
        level.wf(),
        level.valid_walk(w),
        w.len() >= state_count(level),
    ensures
        !repeat_free(level, turn, w),
{
    if repeat_free(level, turn, w) {
        let n = state_count(level) as int;
        let keys = Seq::new((w.len() + 1) as nat, |i: int| key_of(level, node_of(level, turn, w.take(i))));
        assert forall|a: int| 0 <= a < keys.len() implies 0 <= #[trigger] keys[a] < n by {
            lemma_valid_prefix(level, w, a);
            lemma_walk_node_ok(level, turn, w.take(a));
            let na = node_of(level, turn, w.take(a));
            lemma_key(level, turn, na, na);
        }
        assert(keys.no_duplicates()) by {
            assert forall|a: int, b: int| 0 <= a < keys.len() && 0 <= b < keys.len() && a != b implies keys[a]
                != keys[b] by {
                lemma_valid_prefix(level, w, a);
                lemma_valid_prefix(level, w, b);
                lemma_walk_node_ok(level, turn, w.take(a));
                lemma_walk_node_ok(level, turn, w.take(b));
                lemma_key(level, turn, node_of(level, turn, w.take(a)), node_of(level, turn, w.take(b)));
                if a < b {
                    assert(node_of(level, turn, w.take(a)) != node_of(level, turn, w.take(b)));
                } else {
                    assert(node_of(level, turn, w.take(b)) != node_of(level, turn, w.take(a)));
                }
            }
        }
        keys.unique_seq_to_set();
        vstd::set_lib::lemma_int_range(0, n);
        assert(keys.to_set().subset_of(vstd::set_lib::set_int_range(0, n)));
        vstd::set_lib::lemma_len_subset(keys.to_set(), vstd::set_lib::set_int_range(0, n));
    }
}

/// Along a walk with no repeated state, uniform-cost states are positions, so
/// no point is visited twice.
pub proof fn lemma_repeat_free_pts(level: &Level, w: Seq<Move2>)
    requires
        repeat_free(level, false, w),
    ensures
        walk_pts(level.start_pos, w).no_duplicates(),
{
    lemma_walk_pts_len(level.start_pos, w);
    let pts = walk_pts(level.start_pos, w);
    assert forall|a: int, b: int| 0 <= a < pts.len() && 0 <= b < pts.len() && a != b implies pts[a] != pts[b] by {
        lemma_walk_pts_index(level.start_pos, w, a);
        lemma_walk_pts_index(level.start_pos, w, b);
        if a < b {
            assert(node_of(level, false, w.take(a)) != node_of(level, false, w.take(b)));
        } else {
            assert(node_of(level, false, w.take(b)) != node_of(level, false, w.take(a)));
        }
    }
}

/// Distinct states have distinct slots, all below `4 * w * h`.
pub proof fn lemma_key(level: &Level, turn: bool, a: NodeId, b: NodeId)
    requires
        level.wf(),
        node_ok(level, turn, a),
        node_ok(level, turn, b),
    ensures
        0 <= key_of(level, a) < 4 * (level.w * level.h),
        key_of(level, a) == key_of(level, b) ==> a == b,
{
    let w = level.w as int;
    let h = level.h as int;
    crate::grid::lemma_cell_index(a.0.0 as int, a.0.1 as int, w, h);
    crate::grid::lemma_cell_index(b.0.0 as int, b.0.1 as int, w, h);
    if key_of(level, a) == key_of(level, b) {
        let ca = a.0.1 * w + a.0.0;
        let cb = b.0.1 * w + b.0.0;
        assert(ca == cb && a.1.index() == b.1.index());
        if a.0.1 != b.0.1 {
            if a.0.1 < b.0.1 {
                crate::grid::lemma_index_order(a.0.0 as int, a.0.1 as int, b.0.0 as int, b.0.1 as int, w);
            } else {
                crate::grid::lemma_index_order(b.0.0 as int, b.0.1 as int, a.0.0 as int, a.0.1 as int, w);
            }
        }
        assert(a.0.1 == b.0.1);
        assert(a.0.0 == b.0.0);
        assert(a.0 == b.0);
    }
}

/// Whether following `path` from the start stays on open cells and ends at the end.
pub open spec fn reaches_end(level: &Level, path: Seq<Move2>) -> bool {
    level.valid_walk(path) && walk_end(level.start_pos, path) == level.end_pos
}

/// The state the search starts from.
pub open spec fn start_node(level: &Level, turn: bool) -> NodeId {
    (
        level.start_pos,
        if turn {
            level.deer_dir
        } else {
            Move2::Up
        },
    )
}

/// How many search states a level has room for: four facings on every cell.
pub open spec fn state_count(level: &Level) -> nat {
    4 * (level.w * level.h) as nat
}

/// What a search returns. A path that reaches the end in fewer than
/// `max_depth` moves, with its cost as the score, no dearer than any other
/// path of fewer than `max_depth` moves, and the tiles the mode asks for.
/// Unless the round limit cut the search short, no path to the end is
/// cheaper, and in `AllOptimal` mode the tiles are exactly those of the
/// cheapest paths. No path is returned only when every path to the end has
/// at least `max_depth` moves; `NoSolutionExists` only when no path at all
/// reaches the end; `DepthLimitExceeded` only when the limit is at most the
/// number of states.
pub open spec fn search_ok(
    level: &Level,
    turn: bool,
    mode: CollectionMode,
    max_depth: nat,
    r: Result<Solution, SearchFailure>,
) -> bool {
    match r {
        Ok(sol) => solution_ok(level, turn, mode, max_depth, sol),
        Err(SearchFailure::NoSolutionExists) => forall|q: Seq<Move2>| !#[trigger] reaches_end(level, q),
        Err(SearchFailure::DepthLimitExceeded) => max_depth <= state_count(level) && forall|q: Seq<Move2>|
            #[trigger] reaches_end(level, q) ==> q.len() >= max_depth,
    }
}

/// What holds of a solution that a search returns.
pub open spec fn solution_ok(
    level: &Level,
    turn: bool,
    mode: CollectionMode,
    max_depth: nat,
    sol: Solution,
) -> bool {
    &&& reaches_end(level, sol.path@)
    &&& sol.score == walk_cost(level, turn, sol.path@)
    &&& sol.path@.len() < max_depth
    &&& mode == CollectionMode::FirstSolution ==> sol.visited@.len() == 0
    &&& mode == CollectionMode::BestPath ==> sol.visited@ == walk_pts(level.start_pos, sol.path@)
    &&& (mode == CollectionMode::BestPath && !turn) ==> sol.visited@.no_duplicates()
    &&& max_depth > state_count(level) ==> !sol.max_depth_hit
    &&& mode == CollectionMode::AllOptimal ==> {
        &&& sol.visited@.no_duplicates()
        &&& sol.visited@.contains(level.start_pos)
        &&& sol.visited@.contains(level.end_pos)
        &&& forall|v: Vector| #[trigger] sol.visited@.contains(v) ==> on_end_walk(level, turn, sol.score as nat, v)
    }
    &&& mode != CollectionMode::FirstSolution ==> forall|q: Seq<Move2>|
        #[trigger] reaches_end(level, q) && q.len() < max_depth ==> sol.score <= walk_cost(level, turn, q)
    &&& (mode == CollectionMode::FirstSolution && !turn) ==> forall|q: Seq<Move2>|
        #[trigger] reaches_end(level, q) ==> sol.score <= walk_cost(level, turn, q)
    &&& (mode != CollectionMode::FirstSolution && !sol.max_depth_hit) ==> forall|q: Seq<Move2>|
        #[trigger] reaches_end(level, q) ==> sol.score <= walk_cost(level, turn, q)
    &&& (mode == CollectionMode::AllOptimal && !sol.max_depth_hit) ==> forall|q: Seq<Move2>, v: Vector|
        reaches_end(level, q) && walk_cost(level, turn, q) == sol.score
            && #[trigger] walk_pts(level.start_pos, q).contains(v) ==> #[trigger] sol.visited@.contains(v)
}

/// Some walk from the start to the end, of cost `s`, passes through `v`.
pub open spec fn on_end_walk(level: &Level, turn: bool, s: nat, v: Vector) -> bool {
    exists|q: Seq<Move2>|
        reaches_end(level, q) && walk_cost(level, turn, q) == s && #[trigger] walk_pts(
            level.start_pos,
            q,
        ).contains(v)
}

/// Searches `level` for a cheapest path from the start to the end, testing
/// the states reached in each of `max_depth` rounds of relaxation, so that
/// only paths of fewer than `max_depth` moves are found. Every queued state
/// is reached by a walk that repeats no state, so a limit above the number of
/// states always lets the search run to completion.
///
/// Each round relaxes every move out of the states queued by the round
/// before; a state is queued again when its score falls, or, when all the
/// tiles of the best paths are collected, when its tiles grow.
pub fn search(level: &Level, max_depth: u64, cost: CostModel, mode: CollectionMode) -> (r: Result<
    Solution,
    SearchFailure,
>)
    requires
        level.wf(),
        max_depth <= SHRUNK_PATH_CAPACITY,
    ensures
        search_ok(level, cost == CostModel::TurnPenalized, mode, max_depth as nat, r),
{
    run(level, max_depth, cost, mode)
}

/// The cheapest path under turn penalties, with every tile that lies on a
/// cheapest path; `None` when the end is not reached.
pub fn find_best_path_16(level: &Level, max_depth: u64) -> (r: Option<Solution>)
    requires
        level.wf(),
        max_depth <= SHRUNK_PATH_CAPACITY,
    ensures
        r matches Some(sol) ==> solution_ok(level, true, CollectionMode::AllOptimal, max_depth as nat, sol),
        r is None <==> forall|q: Seq<Move2>| #[trigger] reaches_end(level, q) ==> q.len() >= max_depth,
{
    let res = search(level, max_depth, CostModel::TurnPenalized, CollectionMode::AllOptimal);
    match res {
        Ok(sol) => Some(sol),
        Err(_) => None,
    }
}

/// The shortest path, counting moves, with the tiles it visits; `None` when
/// the end is not reached.
pub fn find_best_path_18(level: &Level, max_depth: u64) -> (r: Option<Solution>)
    requires
        level.wf(),
        max_depth <= SHRUNK_PATH_CAPACITY,
    ensures
        r matches Some(sol) ==> solution_ok(level, false, CollectionMode::BestPath, max_depth as nat, sol),
        r is None <==> forall|q: Seq<Move2>| #[trigger] reaches_end(level, q) ==> q.len() >= max_depth,
{
    let res = search(level, max_depth, CostModel::Uniform, CollectionMode::BestPath);
    match res {
        Ok(sol) => Some(sol),
        Err(_) => None,
    }
}

/// Some path to the end, the search stopping as soon as the end is reached;

/// `None` when it is not.
pub fn find_any_path_18(level: &Level, max_depth: u64) -> (r: Option<Solution>)
    requires
        level.wf(),
        max_depth <= SHRUNK_PATH_CAPACITY,
    ensures
        r matches Some(sol) ==> solution_ok(level, false, CollectionMode::FirstSolution, max_depth as nat, sol),
        r is None <==> forall|q: Seq<Move2>| #[trigger] reaches_end(level, q) ==> q.len() >= max_depth,
{
    let res = search(level, max_depth, CostModel::Uniform, CollectionMode::FirstSolution);
    match res {
        Ok(sol) => Some(sol),
        Err(_) => None,
    }
}

/// Whether some path of at most `max_depth` moves leads from the start to the end.
pub fn is_reachable(level: &Level, max_depth: u64) -> (r: bool)
    requires
        level.wf(),
        max_depth <= SHRUNK_PATH_CAPACITY,
    ensures
        r == exists|q: Seq<Move2>| #[trigger] reaches_end(level, q) && q.len() < max_depth,
{
    find_any_path_18(level, max_depth).is_some()
}

/// Two searches of one level with one round limit agree on the score, and,
/// when the tiles of all cheapest paths are collected and neither search was
/// cut short (as when the limit exceeds the number of states), on those
/// tiles, whichever cheapest path each returns.
pub proof fn law_search_repeatable(
    level: &Level,
    turn: bool,
    mode: CollectionMode,
    max_depth: nat,
    a: Solution,
    b: Solution,
)
    requires
        mode != CollectionMode::FirstSolution,
        solution_ok(level, turn, mode, max_depth, a),
        solution_ok(level, turn, mode, max_depth, b),
    ensures
        a.score == b.score,
        max_depth > state_count(level) ==> !a.max_depth_hit && !b.max_depth_hit,
        (mode == CollectionMode::AllOptimal && !a.max_depth_hit && !b.max_depth_hit) ==> forall|v: Vector|
            a.visited@.contains(v) <==> b.visited@.contains(v),
{
    assert(reaches_end(level, a.path@));
    assert(reaches_end(level, b.path@));
    if mode == CollectionMode::AllOptimal && !a.max_depth_hit && !b.max_depth_hit {
        assert forall|v: Vector| a.visited@.contains(v) <==> b.visited@.contains(v) by {
            if a.visited@.contains(v) {
                let q = choose|q: Seq<Move2>|
                    reaches_end(level, q) && walk_cost(level, turn, q) == a.score as nat
                        && #[trigger] walk_pts(level.start_pos, q).contains(v);
                assert(b.visited@.contains(v));
            }
            if b.visited@.contains(v) {
                let q = choose|q: Seq<Move2>|
                    reaches_end(level, q) && walk_cost(level, turn, q) == b.score as nat
                        && #[trigger] walk_pts(level.start_pos, q).contains(v);
                assert(a.visited@.contains(v));
            }
        }
    }
}

/// Two searches of one level with one round limit either both find a path
/// or both find none.
pub proof fn law_search_outcome_repeatable(
    level: &Level,
    turn: bool,
    mode: CollectionMode,
    max_depth: nat,
    a: Result<Solution, SearchFailure>,
    b: Result<Solution, SearchFailure>,
)
    requires
        search_ok(level, turn, mode, max_depth, a),
        search_ok(level, turn, mode, max_depth, b),
    ensures
        a is Ok <==> b is Ok,
{
    if let Ok(sa) = a {
        assert(reaches_end(level, sa.path@));
    }
    if let Ok(sb) = b {
        assert(reaches_end(level, sb.path@));
    }
}

/// Walls only take paths away: every path to the end in a level with walls
/// added is a path to the end, of the same cost, in the level without them.
pub proof fn law_walls_remove_paths(level: &Level, more: &Level, extra: Set<(int, int)>, turn: bool, q: Seq<Move2>)
    requires
        level.wf(),
        more.wf(),
        level.walls_added(more, extra),
        reaches_end(more, q),
    ensures
        reaches_end(level, q),
        walk_cost(level, turn, q) == walk_cost(more, turn, q),
{
    lemma_valid_walk_fewer_walls(level, more, extra, q);
}

proof fn lemma_valid_walk_fewer_walls(level: &Level, more: &Level, extra: Set<(int, int)>, q: Seq<Move2>)
    requires
        level.wf(),
        more.wf(),
        level.walls_added(more, extra),
        more.valid_walk(q),
    ensures
        level.valid_walk(q),
    decreases q.len(),
{
    if q.len() > 0 {
        lemma_valid_walk_fewer_walls(level, more, extra, q.drop_last());
        let v = walk_end(level.start_pos, q);
        assert(more.open_at(v));
    }
}

/// Adding walls never lowers the best score, and never lets the end be
/// reached where it could not be.
pub proof fn law_walls_never_help(
    level: &Level,
    more: &Level,
    extra: Set<(int, int)>,
    turn: bool,
    mode: CollectionMode,
    max_depth: nat,
    before: Solution,
    after: Solution,
)
    requires
        level.wf(),
        more.wf(),
        level.walls_added(more, extra),
        mode != CollectionMode::FirstSolution,
        solution_ok(level, turn, mode, max_depth, before),
        solution_ok(more, turn, mode, max_depth, after),
    ensures
        before.score <= after.score,
{
    law_walls_remove_paths(level, more, extra, turn, after.path@);
}

/// Where no path reaches the end, none does once walls are added.
pub proof fn law_walls_keep_unreachable(level: &Level, more: &Level, extra: Set<(int, int)>)
    requires
        level.wf(),
        more.wf(),
        level.walls_added(more, extra),
        forall|q: Seq<Move2>| !#[trigger] reaches_end(level, q),
    ensures
        forall|q: Seq<Move2>| !#[trigger] reaches_end(more, q),
{
    assert forall|q: Seq<Move2>| !#[trigger] reaches_end(more, q) by {
        if reaches_end(more, q) {
            law_walls_remove_paths(level, more, extra, false, q);
        }
    }
}

/// Where no path leads from the start to the end, a search returns no
/// solution, whatever its round limit, cost model and mode; once the limit
/// exceeds the number of states it says that no solution exists.
pub proof fn law_unreachable_end_has_no_solution(
    level: &Level,
    turn: bool,
    mode: CollectionMode,
    max_depth: nat,
    r: Result<Solution, SearchFailure>,
)
    requires
        search_ok(level, turn, mode, max_depth, r),
        forall|q: Seq<Move2>| !#[trigger] reaches_end(level, q),
    ensures
        r is Err,
        max_depth > state_count(level) ==> r == Err::<Solution, SearchFailure>(SearchFailure::NoSolutionExists),
{
    if let Ok(sol) = r {
        assert(reaches_end(level, sol.path@));
    }
}

} // verus!
