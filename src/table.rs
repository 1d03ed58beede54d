//! The node table behind the search engine: one slot per search state, the
//! frontier entries, the relaxation of moves, and the invariants of the
//! rounds that the engine's contract rests on.
use vstd::prelude::*;
use crate::level::{lemma_walk_pts_len, walk_pts, Level};
use crate::path2::{lemma_path_cost_bound, Move2, ShrunkPath, COST_REVERSE, SHRUNK_PATH_CAPACITY};
use crate::solve::{
    lemma_shortcut, repeat_free, state_count, lemma_long_walk_repeats, lemma_repeat_free_pts, key_of, lemma_key, lemma_walk_extend, lemma_walk_node_ok, move_cost, node_of, node_ok,
    on_end_walk, on_walk, pts_ok, reaches_end, record_ok, search_ok, start_node, succ, walk_cost,
    CollectionMode, CostModel, NodeId, SearchFailure, Solution,
};
use crate::vector::Vector;

verus! {

/// A frontier entry: a state with the record it had when it was queued.
struct Edge {
    pos: Vector,
    dir: Move2,
    s: u64,
    path: ShrunkPath,
    pts: Vec<Vector>,
}

/// The node table, one slot per state.
struct Table {
    seen: Vec<bool>,
    scores: Vec<u64>,
    paths: Vec<ShrunkPath>,
    pts: Vec<Vec<Vector>>,
}

impl Table {
    spec fn sized(&self, n: nat) -> bool {
        &&& self.seen.len() == n
        &&& self.scores.len() == n
        &&& self.paths.len() == n
        &&& self.pts.len() == n
    }

    spec fn seen_at(&self, k: int) -> bool {
        self.seen@[k]
    }

    /// Every recorded state has a sound record.
    spec fn records_ok(&self, level: &Level, turn: bool, all: bool, bound: nat) -> bool {
        forall|n: NodeId|
            #![trigger self.seen_at(key_of(level, n))]
            node_ok(level, turn, n) && self.seen_at(key_of(level, n)) ==> record_ok(
                level,
                turn,
                all,
                n,
                self.scores@[key_of(level, n)] as nat,
                self.paths@[key_of(level, n)]@,
                self.pts@[key_of(level, n)]@,
                bound,
            ) && self.paths@[key_of(level, n)].wf() && self.pts@[key_of(level, n)]@.no_duplicates()
                && repeat_free(level, turn, self.paths@[key_of(level, n)]@)
    }

    /// Every move from `n` onto an open cell leads to a recorded state.
    spec fn closed(&self, level: &Level, turn: bool, n: NodeId) -> bool {
        forall|m: Move2|
            level.open_at(#[trigger] n.0.moved(m)) ==> self.seen_at(key_of(level, succ(turn, n, m)))
    }

    /// Every move from `n` onto an open cell leads to a recorded state that is
    /// no dearer than going through `n`, and that holds the tiles of `n` where
    /// it costs the same.
    spec fn relaxed(&self, level: &Level, turn: bool, all: bool, n: NodeId) -> bool {
        forall|m: Move2|
            level.open_at(#[trigger] n.0.moved(m)) ==> {
                let k = key_of(level, n);
                let k2 = key_of(level, succ(turn, n, m));
                &&& self.seen_at(k2)
                &&& self.scores@[k2] <= self.scores@[k] + move_cost(turn, n, m)
                &&& (all && self.scores@[k2] == self.scores@[k] + move_cost(turn, n, m)) ==> (
                forall|v: Vector| self.pts@[k]@.contains(v) ==> self.pts@[k2]@.contains(v))
            }
    }
}

/// Some entry of `f` from `lo` on is queued for `n` with score `s` and tiles `pts`.
spec fn queued(f: Seq<Edge>, lo: int, all: bool, n: NodeId, s: u64, pts: Seq<Vector>) -> bool {
    exists|j: int|
        lo <= j < f.len() && #[trigger] f[j].pos == n.0 && f[j].dir == n.1 && f[j].s == s && (all
            ==> f[j].pts@ == pts)
}

/// Some entry of `f` from `lo` on is queued for `n` with a score of at most `s`.
spec fn queued_le(f: Seq<Edge>, lo: int, n: NodeId, s: u64) -> bool {
    exists|j: int| lo <= j < f.len() && #[trigger] f[j].pos == n.0 && f[j].dir == n.1 && f[j].s <= s
}

/// Every entry of `f` holds a walk of exactly `d` moves that reaches no state twice.
spec fn edges_exact(level: &Level, turn: bool, f: Seq<Edge>, d: nat) -> bool {
    forall|j: int| 0 <= j < f.len() ==> #[trigger] f[j].path@.len() == d && repeat_free(level, turn, f[j].path@)
}

/// A walk of `depth + 1` moves to a state whose recorded score is not below
/// the walk's cost reaches no state twice: a repeat would give a shorter,
/// cheaper walk, whose cost bounds that score.
proof fn lemma_fresh_walk(t: &Table, level: &Level, turn: bool, depth: nat, w: Seq<Move2>)
    requires
        level.wf(),
        level.valid_walk(w),
        w.len() == depth + 1,
        reach_inv(t, level, turn, depth),
        t.seen_at(key_of(level, node_of(level, turn, w))) ==> t.scores@[key_of(level, node_of(level, turn, w))]
            >= walk_cost(level, turn, w),
    ensures
        repeat_free(level, turn, w),
{
    assert forall|i: int, j: int| 0 <= i < j <= w.len() implies #[trigger] node_of(level, turn, w.take(i))
        != #[trigger] node_of(level, turn, w.take(j)) by {
        if node_of(level, turn, w.take(i)) == node_of(level, turn, w.take(j)) {
            lemma_shortcut(level, turn, w, i, j);
            let v = w.take(i) + w.skip(j);
            assert(level.valid_walk(v));
        }
    }
}

/// Scores that only fall keep the bound on walks.
proof fn lemma_reach_monotone(t0: &Table, t: &Table, level: &Level, turn: bool, depth: nat)
    requires
        level.wf(),
        reach_inv(t0, level, turn, depth),
        t0.monotone(t, 4 * (level.w * level.h) as nat),
    ensures
        reach_inv(t, level, turn, depth),
{
    assert forall|q: Seq<Move2>| #![trigger level.valid_walk(q)]
        level.valid_walk(q) && q.len() <= depth implies t.seen_at(key_of(level, node_of(level, turn, q)))
            && t.scores@[key_of(level, node_of(level, turn, q))] <= walk_cost(level, turn, q) by {
        lemma_walk_node_ok(level, turn, q);
        let nq = node_of(level, turn, q);
        lemma_key(level, turn, nq, nq);
        assert(t0.seen@[key_of(level, nq)]);
    }
}

/// Every entry of `f` holds a sound record of at most `bound` moves.
spec fn edges_ok(level: &Level, turn: bool, all: bool, f: Seq<Edge>, bound: nat) -> bool {
    forall|j: int|
        0 <= j < f.len() ==> node_ok(level, turn, (#[trigger] f[j].pos, f[j].dir)) && record_ok(
            level,
            turn,
            all,
            (f[j].pos, f[j].dir),
            f[j].s as nat,
            f[j].path@,
            f[j].pts@,
            bound,
        ) && f[j].path.wf() && f[j].pts@.no_duplicates()
}

/// A walk that passes through `v` still does after one more move.
proof fn lemma_on_walk_extend(level: &Level, turn: bool, n: NodeId, s: nat, v: Vector, m: Move2)
    requires
        level.wf(),
        on_walk(level, turn, n, s, v),
        level.open_at(n.0.moved(m)),
    ensures
        on_walk(level, turn, succ(turn, n, m), s + move_cost(turn, n, m), v),
{
    let q = choose|q: Seq<Move2>|
        level.valid_walk(q) && node_of(level, turn, q) == n && walk_cost(level, turn, q) == s
            && #[trigger] walk_pts(level.start_pos, q).contains(v);
    lemma_walk_extend(level, turn, q, m);
    let q2 = q.push(m);
    assert(walk_pts(level.start_pos, q2).contains(v)) by {
        let i = choose|i: int|
            0 <= i < walk_pts(level.start_pos, q).len() && walk_pts(level.start_pos, q)[i] == v;
        assert(walk_pts(level.start_pos, q2)[i] == v);
    }
}

/// A walk to `n` extended by one move passes through the position it reaches.
proof fn lemma_on_walk_step(level: &Level, turn: bool, q: Seq<Move2>, m: Move2)
    requires
        level.wf(),
        level.valid_walk(q),
        level.open_at(node_of(level, turn, q).0.moved(m)),
    ensures
        on_walk(
            level,
            turn,
            succ(turn, node_of(level, turn, q), m),
            walk_cost(level, turn, q) + move_cost(turn, node_of(level, turn, q), m),
            node_of(level, turn, q).0.moved(m),
        ),
{
    lemma_walk_extend(level, turn, q, m);
    let q2 = q.push(m);
    lemma_walk_pts_len(level.start_pos, q2);
    let pts2 = walk_pts(level.start_pos, q2);
    assert(pts2[pts2.len() - 1] == node_of(level, turn, q).0.moved(m));
    assert(pts2.contains(node_of(level, turn, q).0.moved(m)));
}

/// A walk that ends at `n` passes through the start and through the position of `n`.
proof fn lemma_on_walk_ends(level: &Level, turn: bool, q: Seq<Move2>)
    requires
        level.wf(),
        level.valid_walk(q),
    ensures
        on_walk(level, turn, node_of(level, turn, q), walk_cost(level, turn, q), level.start_pos),
        on_walk(
            level,
            turn,
            node_of(level, turn, q),
            walk_cost(level, turn, q),
            node_of(level, turn, q).0,
        ),
{
    lemma_walk_pts_len(level.start_pos, q);
    let pts = walk_pts(level.start_pos, q);
    assert(pts[0] == level.start_pos);
    assert(pts.contains(level.start_pos));
    assert(pts[pts.len() - 1] == node_of(level, turn, q).0);
    assert(pts.contains(node_of(level, turn, q).0));
}

/// A copy of a list of points.
fn copy_pts(v: &Vec<Vector>) -> (r: Vec<Vector>)
    ensures
        r@ == v@,
{
    let mut r: Vec<Vector> = Vec::with_capacity(v.len());
    let mut i: usize = 0;
    while i < v.len()
        invariant
            i <= v.len(),
            r@ == v@.take(i as int),
        decreases v.len() - i,
    {
        r.push(v[i]);
        i += 1;
        assert(r@ =~= v@.take(i as int));
    }
    assert(r@ =~= v@);
    r
}

/// Adds `p` to `dst` unless it is there already; says whether it was added.
fn add_pt(dst: &mut Vec<Vector>, p: Vector) -> (grew: bool)
    ensures
        forall|v: Vector| #[trigger] final(dst)@.contains(v) <==> (old(dst)@.contains(v) || v == p),
        !grew ==> final(dst)@ == old(dst)@,
        old(dst)@.no_duplicates() ==> final(dst)@.no_duplicates(),
{
    let mut i: usize = 0;
    while i < dst.len()
        invariant
            i <= dst.len(),
            forall|j: int| 0 <= j < i ==> dst@[j] != p,
        decreases dst.len() - i,
    {
        if dst[i] == p {
            return false;
        }
        i += 1;
    }
    let ghost before = dst@;
    dst.push(p);
    assert(before.no_duplicates() ==> dst@.no_duplicates()) by {
        if before.no_duplicates() {
            assert forall|a: int, b: int| 0 <= a < dst@.len() && 0 <= b < dst@.len() && a != b implies dst@[a] != dst@[b] by {
                if a < before.len() && b < before.len() {
                    assert(before[a] == dst@[a] && before[b] == dst@[b]);
                }
            }
        }
    }
    assert forall|v: Vector| dst@.contains(v) <==> (before.contains(v) || v == p) by {
        if before.contains(v) {
            let j = choose|j: int| 0 <= j < before.len() && before[j] == v;
            assert(dst@[j] == v);
        }
        if v == p {
            assert(dst@[before.len() as int] == v);
        }
        if dst@.contains(v) {
            let j = choose|j: int| 0 <= j < dst@.len() && dst@[j] == v;
            if j < before.len() {
                assert(before[j] == v);
            }
        }
    }
    true
}

/// Adds to `dst` each point of `src` that is not there yet; says whether any was added.
fn union_into(dst: &mut Vec<Vector>, src: &Vec<Vector>) -> (grew: bool)
    ensures
        forall|v: Vector|
            #[trigger] final(dst)@.contains(v) <==> (old(dst)@.contains(v) || src@.contains(v)),
        !grew ==> final(dst)@ == old(dst)@,
        old(dst)@.no_duplicates() ==> final(dst)@.no_duplicates(),
{
    let mut grew = false;
    let mut i: usize = 0;
    while i < src.len()
        invariant
            i <= src.len(),
            forall|v: Vector|
                dst@.contains(v) <==> (old(dst)@.contains(v) || src@.take(i as int).contains(v)),
            old(dst)@.no_duplicates() ==> dst@.no_duplicates(),
            !grew ==> dst@ == old(dst)@,
        decreases src.len() - i,
    {
        let added = add_pt(dst, src[i]);
        grew = grew || added;
        assert forall|v: Vector|
            dst@.contains(v) <==> (old(dst)@.contains(v) || src@.take(i + 1).contains(v)) by {
            if src@.take(i as int).contains(v) {
                let j = choose|j: int| 0 <= j < i && #[trigger] src@.take(i as int)[j] == v;
                assert(src@.take(i + 1)[j] == v);
            }
            if v == src@[i as int] {
                assert(src@.take(i + 1)[i as int] == v);
            }
            if src@.take(i + 1).contains(v) {
                let j = choose|j: int| 0 <= j < i + 1 && #[trigger] src@.take(i + 1)[j] == v;
                if j < i {
                    assert(src@.take(i as int)[j] == v);
                }
            }
        }
        i += 1;
    }
    assert(src@.take(i as int) =~= src@);
    grew
}

/// The slot of the state at `p` facing `d`.
fn node_key(level: &Level, turn: bool, p: Vector, d: Move2) -> (k: usize)
    requires
        level.wf(),
        node_ok(level, turn, (p, d)),
    ensures
        k == key_of(level, (p, d)),
        k < 4 * (level.w * level.h),
{
    proof {
        lemma_key(level, turn, (p, d), (p, d));
        crate::grid::lemma_cell_index(p.0 as int, p.1 as int, level.w as int, level.h as int);
        assert(level.w * level.h <= 192 * 255) by (nonlinear_arith)
            requires
                level.w <= 192,
                level.h <= 255,
        ;
    }
    (p.1 as usize * level.w as usize + p.0 as usize) * 4 + d.code() as usize
}

impl Table {
    /// Whether the table changed at slot `k` between `self` and `t`.
    spec fn changed_at(&self, t: &Table, k: int) -> bool {
        t.seen_at(k) && (!self.seen@[k] || t.scores@[k] != self.scores@[k] || t.pts@[k]@
            != self.pts@[k]@)
    }

    /// From `self` to `t`, slots are only added, scores only fall, and tiles
    /// only grow while the score stays.
    spec fn monotone(&self, t: &Table, n: nat) -> bool {
        forall|k: int|
            0 <= k < n && #[trigger] self.seen@[k] ==> t.seen@[k] && t.scores@[k] <= self.scores@[k]
                && (t.scores@[k] == self.scores@[k] ==> forall|v: Vector|
                self.pts@[k]@.contains(v) ==> t.pts@[k]@.contains(v))
    }

    /// Every state that changed from `self` to `t` is queued in `f` from `lo` on.
    spec fn changes_queued(
        &self,
        t: &Table,
        level: &Level,
        turn: bool,
        all: bool,
        f: Seq<Edge>,
        lo: int,
    ) -> bool {
        forall|n: NodeId|
            #![trigger t.seen_at(key_of(level, n))]
            node_ok(level, turn, n) && self.changed_at(t, key_of(level, n)) ==> queued(
                f,
                lo,
                all,
                n,
                t.scores@[key_of(level, n)],
                t.pts@[key_of(level, n)]@,
            )
    }

    /// Relaxes the move in direction `m` from the state of entry `e`.
    #[verifier::rlimit(50)]
    fn relax(
        &mut self,
        level: &Level,
        turn: bool,
        all: bool,
        e: &Edge,
        m: Move2,
        next: &mut Vec<Edge>,
        Ghost(depth): Ghost<nat>,
    )
        requires
            level.wf(),
            old(self).sized(4 * (level.w * level.h) as nat),
            depth + 1 <= SHRUNK_PATH_CAPACITY,
            node_ok(level, turn, (e.pos, e.dir)),
            record_ok(level, turn, all, (e.pos, e.dir), e.s as nat, e.path@, e.pts@, depth),
            e.path.wf(),
            e.pts@.no_duplicates(),
            e.path@.len() == depth,
            reach_inv(old(self), level, turn, depth),
            edges_exact(level, turn, old(next)@, depth + 1),
            old(self).records_ok(level, turn, all, depth + 1),
            edges_ok(level, turn, all, old(next)@, depth + 1),
        ensures
            final(self).sized(4 * (level.w * level.h) as nat),
            final(self).records_ok(level, turn, all, depth + 1),
            edges_ok(level, turn, all, final(next)@, depth + 1),
            edges_exact(level, turn, final(next)@, depth + 1),
            reach_inv(final(self), level, turn, depth),
            final(next)@.len() >= old(next)@.len(),
            forall|j: int| 0 <= j < old(next)@.len() ==> final(next)@[j] == old(next)@[j],
            old(self).monotone(final(self), 4 * (level.w * level.h) as nat),
            forall|k: int|
                0 <= k < 4 * (level.w * level.h) && k != key_of(level, succ(turn, (e.pos, e.dir), m))
                    ==> final(self).seen@[k] == old(self).seen@[k] && final(self).scores@[k]
                    == old(self).scores@[k] && final(self).pts@[k] == old(self).pts@[k],
            old(self).changes_queued(final(self), level, turn, all, final(next)@, old(next)@.len() as int),
            level.open_at(e.pos.moved(m)) ==> {
                let k2 = key_of(level, succ(turn, (e.pos, e.dir), m));
                &&& final(self).seen@[k2]
                &&& final(self).scores@[k2] <= e.s + move_cost(turn, (e.pos, e.dir), m)
                &&& (all && final(self).scores@[k2] == e.s + move_cost(turn, (e.pos, e.dir), m))
                    ==> (forall|v: Vector| e.pts@.contains(v) ==> final(self).pts@[k2]@.contains(v))
            },
            !level.open_at(e.pos.moved(m)) ==> *final(self) == *old(self) && final(next)@ == old(next)@,
    {
        let ghost n: NodeId = (e.pos, e.dir);
        let ghost nkeys: nat = 4 * (level.w * level.h) as nat;
        let q = e.pos.apply_dir(&m);
        if !level.has_space_at(q) {
            return;
        }
        let nd = if turn {
            m
        } else {
            Move2::Up
        };
        let ghost n2: NodeId = (q, nd);
        assert(n2 == succ(turn, n, m));
        let k2 = node_key(level, turn, q, nd);
        proof {
            lemma_walk_extend(level, turn, e.path@, m);
            lemma_path_cost_bound(level.deer_dir, e.path@);
        }
        let c: u64 = if turn {
            ShrunkPath::calc_score(&m, &e.dir)
        } else {
            1
        };
        assert(c == move_cost(turn, n, m));
        assert(e.s <= COST_REVERSE * depth) by (nonlinear_arith)
            requires
                e.s <= COST_REVERSE * e.path@.len() || e.s == e.path@.len(),
                e.path@.len() <= depth,
        ;
        let ns: u64 = e.s + c;
        let ghost old_next_len = next@.len();
        if !self.seen[k2] || ns < self.scores[k2] {
            proof {
                lemma_fresh_walk(old(self), level, turn, depth, e.path@.push(m));
            }
            let mut path = e.path;
            path.push(&m);
            let mut pts: Vec<Vector> = Vec::new();
            assert(pts@.no_duplicates());
            if all {
                pts = copy_pts(&e.pts);
                add_pt(&mut pts, q);
            }
            let edge = Edge { pos: q, dir: nd, s: ns, path, pts: copy_pts(&pts) };
            proof {
                if all {
                    lemma_on_walk_step(level, turn, e.path@, m);
                    assert forall|v: Vector| pts@.contains(v) implies on_walk(level, turn, n2, ns as nat, v) by {
                        if v != q {
                            lemma_on_walk_extend(level, turn, n, e.s as nat, v, m);
                        }
                    }
                }
                assert(record_ok(level, turn, all, n2, ns as nat, path@, pts@, depth + 1));
            }
            assert(record_ok(level, turn, all, n2, ns as nat, edge.path@, edge.pts@, depth + 1));
            self.seen.set(k2, true);
            self.scores.set(k2, ns);
            self.paths.set(k2, path);
            self.pts.set(k2, pts);
            next.push(edge);
            proof {
                assert forall|x: NodeId|
                    #![trigger self.seen_at(key_of(level, x))]
                    node_ok(level, turn, x) && self.seen_at(key_of(level, x)) implies record_ok(
                    level,
                    turn,
                    all,
                    x,
                    self.scores@[key_of(level, x)] as nat,
                    self.paths@[key_of(level, x)]@,
                    self.pts@[key_of(level, x)]@,
                    depth + 1,
                ) && self.paths@[key_of(level, x)].wf() && self.pts@[key_of(level, x)]@.no_duplicates()
                    && repeat_free(level, turn, self.paths@[key_of(level, x)]@) by {
                    lemma_key(level, turn, x, n2);
                    if key_of(level, x) != k2 {
                        assert(old(self).seen_at(key_of(level, x)));
                    }
                }
                assert forall|x: NodeId|
                    #![trigger self.seen_at(key_of(level, x))]
                    node_ok(level, turn, x) && old(self).changed_at(self, key_of(level, x)) implies queued(
                    next@,
                    old_next_len as int,
                    all,
                    x,
                    self.scores@[key_of(level, x)],
                    self.pts@[key_of(level, x)]@,
                ) by {
                    lemma_key(level, turn, x, n2);
                    assert(next@[old_next_len as int].pos == x.0);
                }
                assert(old(self).changes_queued(self, level, turn, all, next@, old_next_len as int));
                assert forall|k: int|
                    0 <= k < nkeys && #[trigger] old(self).seen@[k] implies self.seen@[k]
                        && self.scores@[k] <= old(self).scores@[k] && (self.scores@[k]
                        == old(self).scores@[k] ==> forall|v: Vector|
                        old(self).pts@[k]@.contains(v) ==> self.pts@[k]@.contains(v)) by {
                }
            }
        } else if all && ns == self.scores[k2] {
            let mut merged = copy_pts(&self.pts[k2]);
            let grew = union_into(&mut merged, &e.pts);
            assert(old(self).seen_at(key_of(level, n2)));
            assert(old(self).pts@[k2 as int]@.contains(n2.0));
            assert(old(self).pts@[k2 as int]@.contains(level.start_pos));
            proof {
                lemma_fresh_walk(old(self), level, turn, depth, e.path@.push(m));
            }
            if grew {
                let mut epath = e.path;
                epath.push(&m);
                let edge = Edge { pos: q, dir: nd, s: ns, path: epath, pts: copy_pts(&merged) };
                proof {
                    assert(old(self).seen_at(key_of(level, n2)));
                    assert forall|v: Vector| merged@.contains(v) implies on_walk(level, turn, n2, ns as nat, v) by {
                        if !old(self).pts@[k2 as int]@.contains(v) {
                            assert(e.pts@.contains(v));
                            lemma_on_walk_extend(level, turn, n, e.s as nat, v, m);
                        } else {
                            assert(on_walk(level, turn, n2, old(self).scores@[k2 as int] as nat, v));
                        }
                    }
                }
                assert(pts_ok(level, turn, n2, ns as nat, merged@));
                assert(record_ok(level, turn, all, n2, ns as nat, edge.path@, edge.pts@, depth + 1));
                self.pts.set(k2, merged);
                next.push(edge);
                proof {
                    assert forall|x: NodeId|
                        #![trigger self.seen_at(key_of(level, x))]
                        node_ok(level, turn, x) && self.seen_at(key_of(level, x)) implies record_ok(
                        level,
                        turn,
                        all,
                        x,
                        self.scores@[key_of(level, x)] as nat,
                        self.paths@[key_of(level, x)]@,
                        self.pts@[key_of(level, x)]@,
                        depth + 1,
                    ) && self.paths@[key_of(level, x)].wf() && self.pts@[key_of(level, x)]@.no_duplicates()
                    && repeat_free(level, turn, self.paths@[key_of(level, x)]@) by {
                        lemma_key(level, turn, x, n2);
                        assert(old(self).seen_at(key_of(level, x)));
                        if key_of(level, x) == k2 {
                            assert(x == n2);
                            assert(self.pts@[k2 as int]@ == merged@);
                            assert(merged@.contains(level.start_pos));
                            assert(merged@.contains(n2.0));
                            assert(pts_ok(level, turn, n2, ns as nat, merged@));
                        }
                    }
                    assert forall|x: NodeId|
                        #![trigger self.seen_at(key_of(level, x))]
                        node_ok(level, turn, x) && old(self).changed_at(self, key_of(level, x)) implies queued(
                        next@,
                        old_next_len as int,
                        all,
                        x,
                        self.scores@[key_of(level, x)],
                        self.pts@[key_of(level, x)]@,
                    ) by {
                        lemma_key(level, turn, x, n2);
                        assert(next@[old_next_len as int].pos == x.0);
                    }
                assert forall|k: int|
                        0 <= k < nkeys && #[trigger] old(self).seen@[k] implies self.seen@[k]
                            && self.scores@[k] <= old(self).scores@[k] && (self.scores@[k]
                            == old(self).scores@[k] ==> forall|v: Vector|
                            old(self).pts@[k]@.contains(v) ==> self.pts@[k]@.contains(v)) by {
                        if k == k2 as int {
                            assert(self.pts@[k]@ == merged@);
                        }
                    }
                }
            } else {
                assert(*self == *old(self));
                assert(next@ == old(next)@);
                assert(old(self).changes_queued(self, level, turn, all, next@, old_next_len as int));
            }
        } else {
            assert(*self == *old(self));
            assert(next@ == old(next)@);
            assert(old(self).changes_queued(self, level, turn, all, next@, old_next_len as int));
        }
        proof {
            lemma_reach_monotone(old(self), self, level, turn, depth);
        }
    }
}

/// Changes queued in two steps are queued overall.
proof fn lemma_changes_trans(
    a: &Table,
    b: &Table,
    c: &Table,
    level: &Level,
    turn: bool,
    all: bool,
    fb: Seq<Edge>,
    fc: Seq<Edge>,
    lo: int,
    mid: int,
)
    requires
        a.changes_queued(b, level, turn, all, fb, lo),
        b.changes_queued(c, level, turn, all, fc, mid),
        a.monotone(b, 4 * (level.w * level.h) as nat),
        level.wf(),
        0 <= lo <= mid <= fb.len() <= fc.len(),
        forall|j: int| 0 <= j < fb.len() ==> fc[j] == fb[j],
    ensures
        a.changes_queued(c, level, turn, all, fc, lo),
{
    assert forall|n: NodeId|
        #![trigger c.seen_at(key_of(level, n))]
        node_ok(level, turn, n) && a.changed_at(c, key_of(level, n)) implies queued(
        fc,
        lo,
        all,
        n,
        c.scores@[key_of(level, n)],
        c.pts@[key_of(level, n)]@,
    ) by {
        let k = key_of(level, n);
        lemma_key(level, turn, n, n);
        if b.changed_at(c, k) {
            assert(queued(fc, mid, all, n, c.scores@[k], c.pts@[k]@));
            let j = choose|j: int|
                mid <= j < fc.len() && #[trigger] fc[j].pos == n.0 && fc[j].dir == n.1 && fc[j].s
                    == c.scores@[k] && (all ==> fc[j].pts@ == c.pts@[k]@);
            assert(fc[j].pos == n.0);
        } else {
            assert(a.changed_at(b, k));
            assert(b.seen_at(k));
            assert(queued(fb, lo, all, n, b.scores@[k], b.pts@[k]@));
            let j = choose|j: int|
                lo <= j < fb.len() && #[trigger] fb[j].pos == n.0 && fb[j].dir == n.1 && fb[j].s
                    == b.scores@[k] && (all ==> fb[j].pts@ == b.pts@[k]@);
            assert(fc[j] == fb[j]);
            assert(fc[j].pos == n.0);
        }
    }
}

impl Table {
    /// Relaxes every move from the state of entry `e`.
    fn process_edge(
        &mut self,
        level: &Level,
        turn: bool,
        all: bool,
        e: &Edge,
        next: &mut Vec<Edge>,
        Ghost(depth): Ghost<nat>,
    )
        requires
            level.wf(),
            old(self).sized(4 * (level.w * level.h) as nat),
            depth + 1 <= SHRUNK_PATH_CAPACITY,
            node_ok(level, turn, (e.pos, e.dir)),
            record_ok(level, turn, all, (e.pos, e.dir), e.s as nat, e.path@, e.pts@, depth),
            e.path.wf(),
            e.pts@.no_duplicates(),
            e.path@.len() == depth,
            reach_inv(old(self), level, turn, depth),
            edges_exact(level, turn, old(next)@, depth + 1),
            old(self).records_ok(level, turn, all, depth + 1),
            edges_ok(level, turn, all, old(next)@, depth + 1),
        ensures
            final(self).sized(4 * (level.w * level.h) as nat),
            final(self).records_ok(level, turn, all, depth + 1),
            edges_ok(level, turn, all, final(next)@, depth + 1),
            edges_exact(level, turn, final(next)@, depth + 1),
            reach_inv(final(self), level, turn, depth),
            final(next)@.len() >= old(next)@.len(),
            forall|j: int| 0 <= j < old(next)@.len() ==> final(next)@[j] == old(next)@[j],
            old(self).monotone(final(self), 4 * (level.w * level.h) as nat),
            old(self).changes_queued(final(self), level, turn, all, final(next)@, old(next)@.len() as int),
            final(self).seen@[key_of(level, (e.pos, e.dir))] == old(self).seen@[key_of(level, (e.pos, e.dir))],
            final(self).scores@[key_of(level, (e.pos, e.dir))] == old(self).scores@[key_of(level, (e.pos, e.dir))],
            final(self).pts@[key_of(level, (e.pos, e.dir))] == old(self).pts@[key_of(level, (e.pos, e.dir))],
            final(self).closed(level, turn, (e.pos, e.dir)),
            forall|m: Move2|
                level.open_at(#[trigger] e.pos.moved(m)) ==> {
                    let k2 = key_of(level, succ(turn, (e.pos, e.dir), m));
                    &&& final(self).scores@[k2] <= e.s + move_cost(turn, (e.pos, e.dir), m)
                    &&& (all && final(self).scores@[k2] == e.s + move_cost(turn, (e.pos, e.dir), m))
                        ==> (forall|v: Vector| e.pts@.contains(v) ==> final(self).pts@[k2]@.contains(v))
                },
    {
        let ghost n: NodeId = (e.pos, e.dir);
        let ghost kn = key_of(level, n);
        let ghost nkeys: nat = 4 * (level.w * level.h) as nat;
        let ghost lo = next@.len() as int;
        proof {
            lemma_key(level, turn, n, n);
        }
        let mut mi: u8 = 0;
        while mi < 4
            invariant
                level.wf(),
                mi <= 4,
                self.sized(nkeys),
                depth + 1 <= SHRUNK_PATH_CAPACITY,
                node_ok(level, turn, n),
                n == (e.pos, e.dir),
                kn == key_of(level, n),
                0 <= kn < nkeys,
                nkeys == 4 * (level.w * level.h),
                record_ok(level, turn, all, n, e.s as nat, e.path@, e.pts@, depth),
                e.path.wf(),
                e.pts@.no_duplicates(),
                e.path@.len() == depth,
                reach_inv(self, level, turn, depth),
                edges_exact(level, turn, next@, depth + 1),
                self.records_ok(level, turn, all, depth + 1),
                edges_ok(level, turn, all, next@, depth + 1),
                next@.len() >= lo,
                lo == old(next)@.len(),
                forall|j: int| 0 <= j < lo ==> next@[j] == old(next)@[j],
                old(self).monotone(self, nkeys),
                old(self).changes_queued(self, level, turn, all, next@, lo),
                self.seen@[kn] == old(self).seen@[kn],
                self.scores@[kn] == old(self).scores@[kn],
                self.pts@[kn] == old(self).pts@[kn],
                forall|m: Move2|
                    m.index() < mi && level.open_at(#[trigger] e.pos.moved(m)) ==> {
                        let k2 = key_of(level, succ(turn, n, m));
                        &&& self.seen_at(k2)
                        &&& self.scores@[k2] <= e.s + move_cost(turn, n, m)
                        &&& (all && self.scores@[k2] == e.s + move_cost(turn, n, m))
                            ==> (forall|v: Vector| e.pts@.contains(v) ==> self.pts@[k2]@.contains(v))
                    },
            decreases 4 - mi,
        {
            let m = Move2::from_u8_unchecked(mi);
            let ghost before = *self;
            let ghost next_before = next@;
            self.relax(level, turn, all, e, m, next, Ghost(depth));
            proof {
                let k2 = key_of(level, succ(turn, n, m));
                if level.open_at(e.pos.moved(m)) {
                    lemma_key(level, turn, n, succ(turn, n, m));
                    assert(k2 != kn) by {
                        assert(succ(turn, n, m).0 != n.0);
                    }
                    assert forall|m2: Move2|
                        m2.index() < mi + 1 && level.open_at(#[trigger] e.pos.moved(m2)) implies {
                            let k3 = key_of(level, succ(turn, n, m2));
                            &&& self.seen_at(k3)
                            &&& self.scores@[k3] <= e.s + move_cost(turn, n, m2)
                            &&& (all && self.scores@[k3] == e.s + move_cost(turn, n, m2))
                                ==> (forall|v: Vector| e.pts@.contains(v) ==> self.pts@[k3]@.contains(v))
                        } by {
                        if m2 != m {
                            lemma_key(level, turn, succ(turn, n, m2), succ(turn, n, m));
                            assert(succ(turn, n, m2).0 != succ(turn, n, m).0);
                        }
                    }
                }
                lemma_changes_trans(old(self), &before, self, level, turn, all, next_before, next@, lo, next_before.len() as int);
            }
            mi += 1;
        }
        proof {
            assert forall|m: Move2| level.open_at(#[trigger] n.0.moved(m)) implies self.seen_at(
                key_of(level, succ(turn, n, m)),
            ) by {
                assert(m.index() < 4);
            }
        }
    }
}

impl Table {
    /// A table of `n` empty slots.
    fn new(n: usize) -> (r: Table)
        ensures
            r.sized(n as nat),
            forall|k: int| 0 <= k < n ==> !r.seen@[k] && r.pts@[k]@.len() == 0,
    {
        let mut t = Table { seen: Vec::new(), scores: Vec::new(), paths: Vec::new(), pts: Vec::new() };
        while t.seen.len() < n
            invariant
                t.sized(t.seen.len() as nat),
                t.seen.len() <= n,
                forall|k: int| 0 <= k < t.seen.len() ==> !t.seen@[k] && t.pts@[k]@.len() == 0,
            decreases n - t.seen.len(),
        {
            t.seen.push(false);
            t.scores.push(0);
            t.paths.push(ShrunkPath::new());
            t.pts.push(Vec::new());
        }
        t
    }

    /// Every recorded state is relaxed.
    spec fn all_relaxed(&self, level: &Level, turn: bool, all: bool) -> bool {
        forall|n: NodeId|
            #![trigger self.seen_at(key_of(level, n))]
            node_ok(level, turn, n) && self.seen_at(key_of(level, n)) ==> self.relaxed(level, turn, all, n)
    }

    /// The start state is recorded at no cost, its tiles holding the start.
    spec fn start_ok(&self, level: &Level, turn: bool, all: bool) -> bool {
        let k = key_of(level, start_node(level, turn));
        &&& self.seen_at(k)
        &&& self.scores@[k] == 0
        &&& all ==> self.pts@[k]@.contains(level.start_pos)
    }
}

/// Once every recorded state is relaxed, every walk leads to a recorded state
/// whose score is at most the walk's cost, and whose tiles hold the walk's
/// points when the two are equal.
proof fn lemma_converged(t: &Table, level: &Level, turn: bool, all: bool, q: Seq<Move2>, bound: nat)
    requires
        level.wf(),
        t.sized(4 * (level.w * level.h) as nat),
        t.records_ok(level, turn, all, bound),
        t.all_relaxed(level, turn, all),
        t.start_ok(level, turn, all),
        level.valid_walk(q),
    ensures
        t.seen_at(key_of(level, node_of(level, turn, q))),
        t.scores@[key_of(level, node_of(level, turn, q))] <= walk_cost(level, turn, q),
        all && t.scores@[key_of(level, node_of(level, turn, q))] == walk_cost(level, turn, q) ==> (
        forall|v: Vector|
            walk_pts(level.start_pos, q).contains(v) ==> t.pts@[key_of(
                level,
                node_of(level, turn, q),
            )]@.contains(v)),
    decreases q.len(),
{
    if q.len() == 0 {
        assert(node_of(level, turn, q) == start_node(level, turn));
        assert forall|v: Vector| walk_pts(level.start_pos, q).contains(v) implies v == level.start_pos by {
        }
    } else {
        let q1 = q.drop_last();
        let m = q.last();
        lemma_converged(t, level, turn, all, q1, bound);
        assert(q1.push(m) =~= q);
        lemma_walk_extend(level, turn, q1, m);
        lemma_walk_node_ok(level, turn, q1);
        let n1 = node_of(level, turn, q1);
        let k1 = key_of(level, n1);
        let k = key_of(level, node_of(level, turn, q));
        assert(t.relaxed(level, turn, all, n1));
        assert(level.open_at(n1.0.moved(m)));
        if all && t.scores@[k] == walk_cost(level, turn, q) {
            assert(t.scores@[k1] == walk_cost(level, turn, q1));
            assert(t.scores@[k] == t.scores@[k1] + move_cost(turn, n1, m));
            assert forall|v: Vector| walk_pts(level.start_pos, q).contains(v) implies t.pts@[k]@.contains(v) by {
                let pts1 = walk_pts(level.start_pos, q1);
                if pts1.contains(v) {
                    assert(t.pts@[k1]@.contains(v));
                } else {
                    let i = choose|i: int| 0 <= i < walk_pts(level.start_pos, q).len() && walk_pts(level.start_pos, q)[i] == v;
                    assert(i == pts1.len()) by {
                        if i < pts1.len() {
                            assert(pts1[i] == v);
                        }
                    }
                    lemma_walk_node_ok(level, turn, q);
                    assert(t.seen_at(k));
                    assert(v == node_of(level, turn, q).0);
                }
            }
        }
    }
}

/// Within a round: each recorded state is queued in the rest of the
/// frontier, queued for the next round, or relaxed.
spec fn round_inv1(t: &Table, level: &Level, turn: bool, all: bool, f: Seq<Edge>, i: int, nx: Seq<Edge>) -> bool {
    forall|n: NodeId|
        #![trigger t.seen_at(key_of(level, n))]
        node_ok(level, turn, n) && t.seen_at(key_of(level, n)) ==> queued(
            f,
            i,
            all,
            n,
            t.scores@[key_of(level, n)],
            t.pts@[key_of(level, n)]@,
        ) || queued(nx, 0, all, n, t.scores@[key_of(level, n)], t.pts@[key_of(level, n)]@)
            || t.relaxed(level, turn, all, n)
}

/// Within a round: each state recorded when the round began is queued in the
/// rest of the frontier at no more than its score then, or every move from it
/// leads to a recorded state no dearer than going through it at that score.
spec fn round_inv2(t0: &Table, t: &Table, level: &Level, turn: bool, f: Seq<Edge>, i: int) -> bool {
    forall|n: NodeId|
        #![trigger t0.seen_at(key_of(level, n))]
        node_ok(level, turn, n) && t0.seen_at(key_of(level, n)) ==> queued_le(
            f,
            i,
            n,
            t0.scores@[key_of(level, n)],
        ) || t.relaxed_below(level, turn, n, t0.scores@[key_of(level, n)] as nat)
}

impl Table {
    /// Every move from `n` onto an open cell leads to a recorded state that
    /// costs at most `s` plus the move.
    spec fn relaxed_below(&self, level: &Level, turn: bool, n: NodeId, s: nat) -> bool {
        forall|m: Move2|
            level.open_at(#[trigger] n.0.moved(m)) ==> self.seen_at(key_of(level, succ(turn, n, m)))
                && self.scores@[key_of(level, succ(turn, n, m))] <= s + move_cost(turn, n, m)
    }
}

/// What processing entry `e` leaves for its moves.
spec fn edge_done(t: &Table, level: &Level, turn: bool, all: bool, e: &Edge) -> bool {
    &&& t.closed(level, turn, (e.pos, e.dir))
    &&& forall|m: Move2|
        level.open_at(#[trigger] e.pos.moved(m)) ==> {
            let k2 = key_of(level, succ(turn, (e.pos, e.dir), m));
            &&& t.scores@[k2] <= e.s + move_cost(turn, (e.pos, e.dir), m)
            &&& (all && t.scores@[k2] == e.s + move_cost(turn, (e.pos, e.dir), m)) ==> (forall|v: Vector|
                e.pts@.contains(v) ==> t.pts@[k2]@.contains(v))
        }
}

/// Processing entry `i` of the frontier keeps both round invariants.
proof fn lemma_round_step(
    t0: &Table,
    before: &Table,
    after: &Table,
    level: &Level,
    turn: bool,
    all: bool,
    f: Seq<Edge>,
    i: int,
    nb: Seq<Edge>,
    na: Seq<Edge>,
)
    requires
        level.wf(),
        0 <= i < f.len(),
        before.sized(4 * (level.w * level.h) as nat),
        after.sized(4 * (level.w * level.h) as nat),
        node_ok(level, turn, (f[i].pos, f[i].dir)),
        round_inv1(before, level, turn, all, f, i, nb),
        round_inv2(t0, before, level, turn, f, i),
        t0.monotone(before, 4 * (level.w * level.h) as nat),
        na.len() >= nb.len(),
        forall|j: int| 0 <= j < nb.len() ==> na[j] == nb[j],
        before.monotone(after, 4 * (level.w * level.h) as nat),
        before.changes_queued(after, level, turn, all, na, nb.len() as int),
        after.seen@[key_of(level, (f[i].pos, f[i].dir))] == before.seen@[key_of(level, (f[i].pos, f[i].dir))],
        after.scores@[key_of(level, (f[i].pos, f[i].dir))] == before.scores@[key_of(level, (f[i].pos, f[i].dir))],
        after.pts@[key_of(level, (f[i].pos, f[i].dir))] == before.pts@[key_of(level, (f[i].pos, f[i].dir))],
        edge_done(after, level, turn, all, &f[i]),
    ensures
        round_inv1(after, level, turn, all, f, i + 1, na),
        round_inv2(t0, after, level, turn, f, i + 1),
        t0.monotone(after, 4 * (level.w * level.h) as nat),
{
    let nk = 4 * (level.w * level.h);
    let e = &f[i];
    assert forall|n: NodeId|
        #![trigger after.seen_at(key_of(level, n))]
        node_ok(level, turn, n) && after.seen_at(key_of(level, n)) implies queued(
            f,
            i + 1,
            all,
            n,
            after.scores@[key_of(level, n)],
            after.pts@[key_of(level, n)]@,
        ) || queued(na, 0, all, n, after.scores@[key_of(level, n)], after.pts@[key_of(level, n)]@)
            || after.relaxed(level, turn, all, n) by {
        let k = key_of(level, n);
        lemma_key(level, turn, n, n);
        if before.changed_at(after, k) {
            assert(queued(na, nb.len() as int, all, n, after.scores@[k], after.pts@[k]@));
            let j = choose|j: int|
                nb.len() <= j < na.len() && #[trigger] na[j].pos == n.0 && na[j].dir == n.1 && na[j].s
                    == after.scores@[k] && (all ==> na[j].pts@ == after.pts@[k]@);
            assert(na[j].pos == n.0);
        } else {
            assert(before.seen_at(k));
            assert(after.scores@[k] == before.scores@[k] && after.pts@[k]@ == before.pts@[k]@);
            if queued(f, i, all, n, before.scores@[k], before.pts@[k]@) {
                let j = choose|j: int|
                    i <= j < f.len() && #[trigger] f[j].pos == n.0 && f[j].dir == n.1 && f[j].s
                        == before.scores@[k] && (all ==> f[j].pts@ == before.pts@[k]@);
                if j == i {
                    assert(n == (e.pos, e.dir));
                    assert forall|m: Move2| level.open_at(#[trigger] n.0.moved(m)) implies {
                        let k2 = key_of(level, succ(turn, n, m));
                        &&& after.seen_at(k2)
                        &&& after.scores@[k2] <= after.scores@[k] + move_cost(turn, n, m)
                        &&& (all && after.scores@[k2] == after.scores@[k] + move_cost(turn, n, m)) ==> (
                        forall|v: Vector| after.pts@[k]@.contains(v) ==> after.pts@[k2]@.contains(v))
                    } by {
                        assert(e.pos.moved(m) == n.0.moved(m));
                    }
                    assert(after.relaxed(level, turn, all, n));
                } else {
                    assert(f[j].pos == n.0);
                }
            } else if queued(nb, 0, all, n, before.scores@[k], before.pts@[k]@) {
                let j = choose|j: int|
                    0 <= j < nb.len() && #[trigger] nb[j].pos == n.0 && nb[j].dir == n.1 && nb[j].s
                        == before.scores@[k] && (all ==> nb[j].pts@ == before.pts@[k]@);
                assert(na[j] == nb[j]);
                assert(na[j].pos == n.0);
            } else {
                assert(before.relaxed(level, turn, all, n));
                assert forall|m: Move2| level.open_at(#[trigger] n.0.moved(m)) implies {
                    let k2 = key_of(level, succ(turn, n, m));
                    &&& after.seen_at(k2)
                    &&& after.scores@[k2] <= after.scores@[k] + move_cost(turn, n, m)
                    &&& (all && after.scores@[k2] == after.scores@[k] + move_cost(turn, n, m)) ==> (
                    forall|v: Vector| after.pts@[k]@.contains(v) ==> after.pts@[k2]@.contains(v))
                } by {
                    let k2 = key_of(level, succ(turn, n, m));
                    lemma_key(level, turn, succ(turn, n, m), n);
                    assert(before.seen_at(k2));
                    assert(before.seen@[k2]);
                }
            }
        }
    }
    assert forall|n: NodeId|
        #![trigger t0.seen_at(key_of(level, n))]
        node_ok(level, turn, n) && t0.seen_at(key_of(level, n)) implies queued_le(
            f,
            i + 1,
            n,
            t0.scores@[key_of(level, n)],
        ) || after.relaxed_below(level, turn, n, t0.scores@[key_of(level, n)] as nat) by {
        let s0 = t0.scores@[key_of(level, n)];
        if queued_le(f, i, n, s0) {
            let j = choose|j: int| i <= j < f.len() && #[trigger] f[j].pos == n.0 && f[j].dir == n.1 && f[j].s <= s0;
            if j == i {
                assert(n == (e.pos, e.dir));
                assert forall|m: Move2| level.open_at(#[trigger] n.0.moved(m)) implies after.seen_at(
                    key_of(level, succ(turn, n, m))) && after.scores@[key_of(level, succ(turn, n, m))]
                    <= s0 + move_cost(turn, n, m) by {
                    assert(e.pos.moved(m) == n.0.moved(m));
                }
            } else {
                assert(f[j].pos == n.0);
            }
        } else {
            assert forall|m: Move2| level.open_at(#[trigger] n.0.moved(m)) implies after.seen_at(
                key_of(level, succ(turn, n, m))) && after.scores@[key_of(level, succ(turn, n, m))]
                <= s0 + move_cost(turn, n, m) by {
                lemma_key(level, turn, succ(turn, n, m), n);
                assert(before.seen@[key_of(level, succ(turn, n, m))]);
            }
        }
    }
    assert forall|k: int|
        0 <= k < nk && #[trigger] t0.seen@[k] implies after.seen@[k] && after.scores@[k] <= t0.scores@[k]
            && (after.scores@[k] == t0.scores@[k] ==> forall|v: Vector|
            t0.pts@[k]@.contains(v) ==> after.pts@[k]@.contains(v)) by {
        assert(before.seen@[k]);
    }
}

/// Every walk of at most `depth` moves leads to a recorded state whose score
/// is at most the walk's cost.
spec fn reach_inv(t: &Table, level: &Level, turn: bool, depth: nat) -> bool {
    forall|q: Seq<Move2>|
        #![trigger level.valid_walk(q)]
        level.valid_walk(q) && q.len() <= depth ==> t.seen_at(key_of(level, node_of(level, turn, q)))
            && t.scores@[key_of(level, node_of(level, turn, q))] <= walk_cost(level, turn, q)
}

/// After a round, walks one move longer are covered.
proof fn lemma_reach_step(t0: &Table, t: &Table, level: &Level, turn: bool, f: Seq<Edge>, depth: nat)
    requires
        level.wf(),
        reach_inv(t0, level, turn, depth),
        t0.monotone(t, 4 * (level.w * level.h) as nat),
        round_inv2(t0, t, level, turn, f, f.len() as int),
    ensures
        reach_inv(t, level, turn, depth + 1),
{
    assert forall|q: Seq<Move2>| #![trigger level.valid_walk(q)]
        level.valid_walk(q) && q.len() <= depth + 1 implies t.seen_at(key_of(level, node_of(level, turn, q)))
            && t.scores@[key_of(level, node_of(level, turn, q))] <= walk_cost(level, turn, q) by {
        lemma_walk_node_ok(level, turn, q);
        lemma_key(level, turn, node_of(level, turn, q), node_of(level, turn, q));
        if q.len() <= depth {
            assert(t0.seen@[key_of(level, node_of(level, turn, q))]);
        } else {
            let q1 = q.drop_last();
            let m = q.last();
            assert(level.valid_walk(q1));
            assert(q1.push(m) =~= q);
            lemma_walk_extend(level, turn, q1, m);
            lemma_walk_node_ok(level, turn, q1);
            let n1 = node_of(level, turn, q1);
            assert(t0.seen_at(key_of(level, n1)));
            assert(!queued_le(f, f.len() as int, n1, t0.scores@[key_of(level, n1)]));
            assert(t.relaxed_below(level, turn, n1, t0.scores@[key_of(level, n1)] as nat));
            assert(level.open_at(n1.0.moved(m)));
        }
    }
}

impl Table {
    /// Some state at the end is recorded.
    spec fn any_end_seen(&self, level: &Level, turn: bool) -> bool {
        exists|d: Move2|
            node_ok(level, turn, (level.end_pos, d)) && #[trigger] self.seen_at(
                key_of(level, (level.end_pos, d)),
            )
    }

    /// Whether some state at the end is recorded.
    fn end_reached(&self, level: &Level, turn: bool) -> (r: bool)
        requires
            level.wf(),
            self.sized(4 * (level.w * level.h) as nat),
        ensures
            r == self.any_end_seen(level, turn),
    {
        let mut di: u8 = 0;
        while di < 4
            invariant
                level.wf(),
                self.sized(4 * (level.w * level.h) as nat),
                di <= 4,
                forall|d: Move2|
                    d.index() < di && node_ok(level, turn, (level.end_pos, d)) ==> !#[trigger] self.seen_at(
                        key_of(level, (level.end_pos, d)),
                    ),
            decreases 4 - di,
        {
            let d = Move2::from_u8_unchecked(di);
            if turn || di == 0 {
                let k = node_key(level, turn, level.end_pos, d);
                if self.seen[k] {
                    assert(node_ok(level, turn, (level.end_pos, d)));
                    assert(self.seen_at(key_of(level, (level.end_pos, d))));
                    return true;
                }
            }
            di += 1;
        }
        false
    }

    /// Builds the answer from the table once the rounds are over.
    fn finish(
        &self,
        level: &Level,
        turn: bool,
        all: bool,
        mode: CollectionMode,
        converged: bool,
        max_depth_hit: bool,
        Ghost(depth): Ghost<nat>,
        Ghost(limit): Ghost<nat>,
    ) -> (r: Result<Solution, SearchFailure>)
        requires
            level.wf(),
            depth <= limit < SHRUNK_PATH_CAPACITY,
            all == (mode == CollectionMode::AllOptimal),
            self.sized(4 * (level.w * level.h) as nat),
            self.records_ok(level, turn, all, depth),
            self.start_ok(level, turn, all),
            reach_inv(self, level, turn, depth),
            converged ==> self.all_relaxed(level, turn, all),
            converged || depth >= limit || (mode == CollectionMode::FirstSolution
                && self.any_end_seen(level, turn)),
            max_depth_hit == (!converged && depth >= limit),
            !converged ==> depth < state_count(level),
        ensures
            search_ok(level, turn, mode, limit + 1, r),
    {
        let ghost nk: nat = 4 * (level.w * level.h) as nat;
        let mut found = false;
        let mut best_k: usize = 0;
        let mut best_s: u64 = 0;
        let mut best_d = Move2::Up;
        let mut di: u8 = 0;
        while di < 4
            invariant
                level.wf(),
                self.sized(nk),
                nk == 4 * (level.w * level.h),
                di <= 4,
                found ==> node_ok(level, turn, (level.end_pos, best_d)) && best_k == key_of(level, (level.end_pos, best_d))
                    && self.seen_at(best_k as int) && best_s == self.scores@[best_k as int],
                !found ==> forall|d: Move2|
                    d.index() < di && node_ok(level, turn, (level.end_pos, d)) ==> !#[trigger] self.seen_at(
                        key_of(level, (level.end_pos, d)),
                    ),
                found ==> forall|d: Move2|
                    d.index() < di && node_ok(level, turn, (level.end_pos, d)) && #[trigger] self.seen_at(
                        key_of(level, (level.end_pos, d))) ==> best_s <= self.scores@[key_of(level, (level.end_pos, d))],
            decreases 4 - di,
        {
            let d = Move2::from_u8_unchecked(di);
            if turn || di == 0 {
                let k = node_key(level, turn, level.end_pos, d);
                if self.seen[k] && (!found || self.scores[k] < best_s) {
                    found = true;
                    best_k = k;
                    best_s = self.scores[k];
                    best_d = d;
                }
            }
            di += 1;
        }
        if !found {
            proof {
                assert forall|d: Move2| node_ok(level, turn, (level.end_pos, d)) implies !#[trigger] self.seen_at(
                    key_of(level, (level.end_pos, d))) by {
                    assert(d.index() < 4);
                }
                assert(!self.any_end_seen(level, turn));
                if converged {
                    assert forall|q: Seq<Move2>| !#[trigger] reaches_end(level, q) by {
                        if reaches_end(level, q) {
                            lemma_converged(self, level, turn, all, q, depth);
                            lemma_walk_node_ok(level, turn, q);
                            assert(node_of(level, turn, q).0 == level.end_pos);
                        }
                    }
                } else {
                    assert forall|q: Seq<Move2>| #[trigger] reaches_end(level, q) implies q.len() > limit by {
                        if q.len() <= limit {
                            assert(level.valid_walk(q));
                            lemma_walk_node_ok(level, turn, q);
                            assert(node_of(level, turn, q).0 == level.end_pos);
                        }
                    }
                }
            }
            if converged {
                return Err(SearchFailure::NoSolutionExists);
            } else {
                return Err(SearchFailure::DepthLimitExceeded);
            }
        }
        let ghost bn: NodeId = (level.end_pos, best_d);
        proof {
            lemma_key(level, turn, bn, bn);
        }
        assert(record_ok(level, turn, all, bn, best_s as nat, self.paths@[best_k as int]@, self.pts@[best_k as int]@, depth));
        let path = self.paths[best_k].to_path();
        let mut visited: Vec<Vector> = Vec::new();
        if all {
            visited = copy_pts(&self.pts[best_k]);
            let mut dj: u8 = 0;
            while dj < 4
                invariant
                    level.wf(),
                    self.sized(nk),
                    nk == 4 * (level.w * level.h),
                    dj <= 4,
                    all,
                    self.records_ok(level, turn, all, depth),
                    visited@.no_duplicates(),
                    visited@.contains(level.start_pos),
                    visited@.contains(level.end_pos),
                    forall|v: Vector| #[trigger] visited@.contains(v) ==> on_end_walk(level, turn, best_s as nat, v),
                    forall|v: Vector| self.pts@[best_k as int]@.contains(v) ==> #[trigger] visited@.contains(v),
                    forall|d: Move2, v: Vector|
                        d.index() < dj && node_ok(level, turn, (level.end_pos, d)) && self.seen_at(
                            key_of(level, (level.end_pos, d))) && self.scores@[key_of(level, (level.end_pos, d))] == best_s
                            && #[trigger] self.pts@[key_of(level, (level.end_pos, d))]@.contains(v)
                            ==> #[trigger] visited@.contains(v),
                decreases 4 - dj,
            {
                let d = Move2::from_u8_unchecked(dj);
                if turn || dj == 0 {
                    let k = node_key(level, turn, level.end_pos, d);
                    if self.seen[k] && self.scores[k] == best_s {
                        proof {
                            let dn: NodeId = (level.end_pos, d);
                            assert(self.seen_at(key_of(level, dn)));
                            assert forall|v: Vector| self.pts@[k as int]@.contains(v) implies on_end_walk(level, turn, best_s as nat, v) by {
                                assert(on_walk(level, turn, dn, best_s as nat, v));
                                let q = choose|q: Seq<Move2>|
                                    level.valid_walk(q) && node_of(level, turn, q) == dn && walk_cost(level, turn, q) == best_s as nat
                                        && #[trigger] walk_pts(level.start_pos, q).contains(v);
                                assert(reaches_end(level, q));
                            }
                        }
                        union_into(&mut visited, &self.pts[k]);
                    }
                }
                dj += 1;
            }
        } else if mode == CollectionMode::BestPath {
            visited = level.get_path_pts(&path);
            proof {
                if !turn {
                    lemma_repeat_free_pts(level, path@);
                }
            }
        }
        let sol = Solution { score: best_s, path, visited, max_depth_hit };
        proof {
            if mode != CollectionMode::FirstSolution {
                assert forall|q: Seq<Move2>| #[trigger] reaches_end(level, q) && q.len() < limit + 1 implies sol.score
                    <= walk_cost(level, turn, q) by {
                    lemma_walk_node_ok(level, turn, q);
                    let nq = node_of(level, turn, q);
                    assert(nq.1.index() < 4);
                    if converged {
                        lemma_converged(self, level, turn, all, q, depth);
                    } else {
                        assert(level.valid_walk(q));
                    }
                }
            }
            if mode == CollectionMode::FirstSolution && !turn {
                assert forall|q: Seq<Move2>| #[trigger] reaches_end(level, q) implies sol.score <= walk_cost(level, turn, q) by {
                    lemma_walk_node_ok(level, turn, q);
                    let nq = node_of(level, turn, q);
                    assert(nq.1.index() < 4);
                    if converged {
                        lemma_converged(self, level, turn, all, q, depth);
                    } else if q.len() <= depth {
                        assert(level.valid_walk(q));
                    }
                }
            }
            if all {
                assert forall|v: Vector| #[trigger] sol.visited@.contains(v) implies on_end_walk(level, turn, sol.score as nat, v) by {
                }
            }
            if mode != CollectionMode::FirstSolution && !max_depth_hit {
                assert(converged);
                assert forall|q: Seq<Move2>| #[trigger] reaches_end(level, q) implies sol.score <= walk_cost(level, turn, q) by {
                    lemma_converged(self, level, turn, all, q, depth);
                    lemma_walk_node_ok(level, turn, q);
                    let dq = node_of(level, turn, q).1;
                    assert(dq.index() < 4);
                }
                if all {
                    assert forall|q: Seq<Move2>, v: Vector|
                        reaches_end(level, q) && walk_cost(level, turn, q) == sol.score
                            && #[trigger] walk_pts(level.start_pos, q).contains(v) implies #[trigger] sol.visited@.contains(v) by {
                        lemma_converged(self, level, turn, all, q, depth);
                        lemma_walk_node_ok(level, turn, q);
                        let nq = node_of(level, turn, q);
                        assert(nq.1.index() < 4);
                        assert(self.scores@[key_of(level, nq)] == best_s);
                        assert(self.pts@[key_of(level, nq)]@.contains(v));
                    }
                }
            }
        }
        Ok(sol)
    }
}

/// Runs the rounds of relaxation and builds the answer; see `search`.
pub(crate) fn run(level: &Level, max_depth: u64, cost: CostModel, mode: CollectionMode) -> (r: Result<
    Solution,
    SearchFailure,
>)
    requires
        level.wf(),
        max_depth <= SHRUNK_PATH_CAPACITY,
    ensures
        search_ok(level, cost == CostModel::TurnPenalized, mode, max_depth as nat, r),
{
    if max_depth == 0 {
        return Err(SearchFailure::DepthLimitExceeded);
    }
    let limit: u64 = max_depth - 1;
    let turn = cost == CostModel::TurnPenalized;
    let all = mode == CollectionMode::AllOptimal;
    let first = mode == CollectionMode::FirstSolution;
    let ghost nk: nat = 4 * (level.w * level.h) as nat;
    proof {
        assert(level.w * level.h <= 192 * 255) by (nonlinear_arith)
            requires
                level.w <= 192,
                level.h <= 255,
        ;
        assert(1 <= level.w * level.h) by (nonlinear_arith)
            requires
                level.w >= 1,
                level.h >= 1,
        ;
    }
    let nkeys: usize = 4 * (level.w as usize * level.h as usize);
    let mut table = Table::new(nkeys);
    let sd = if turn {
        level.deer_dir
    } else {
        Move2::Up
    };
    let ghost sn: NodeId = start_node(level, turn);
    let ks = node_key(level, turn, level.start_pos, sd);
    let mut start_pts: Vec<Vector> = Vec::new();
    if all {
        start_pts.push(level.start_pos);
    }
    let start_edge = Edge {
        pos: level.start_pos,
        dir: sd,
        s: 0,
        path: ShrunkPath::new(),
        pts: copy_pts(&start_pts),
    };
    proof {
        let q0 = Seq::<Move2>::empty();
        assert(node_of(level, turn, q0) == sn);
        if all {
            lemma_on_walk_ends(level, turn, q0);
            assert forall|v: Vector| start_pts@.contains(v) implies on_walk(level, turn, sn, 0, v) by {
                assert(v == level.start_pos);
            }
        }
        assert(record_ok(level, turn, all, sn, 0, q0, start_pts@, 0));
    }
    table.seen.set(ks, true);
    table.scores.set(ks, 0);
    table.paths.set(ks, ShrunkPath::new());
    table.pts.set(ks, start_pts);
    let mut frontier: Vec<Edge> = Vec::new();
    frontier.push(start_edge);
    let mut depth: u64 = 0;
    proof {
        assert forall|n: NodeId| #![trigger table.seen_at(key_of(level, n))]
            node_ok(level, turn, n) && table.seen_at(key_of(level, n)) implies record_ok(
            level, turn, all, n,
            table.scores@[key_of(level, n)] as nat,
            table.paths@[key_of(level, n)]@,
            table.pts@[key_of(level, n)]@,
            0,
        ) && n == sn by {
            lemma_key(level, turn, n, sn);
        }
        assert forall|n: NodeId| #![trigger table.seen_at(key_of(level, n))]
            node_ok(level, turn, n) && table.seen_at(key_of(level, n)) implies queued(
            frontier@, 0, all, n,
            table.scores@[key_of(level, n)],
            table.pts@[key_of(level, n)]@,
        ) by {
            lemma_key(level, turn, n, sn);
            assert(frontier@[0].pos == n.0);
        }
        assert forall|q: Seq<Move2>| #![trigger level.valid_walk(q)]
            level.valid_walk(q) && q.len() <= 0 implies table.seen_at(key_of(level, node_of(level, turn, q))) by {
            assert(node_of(level, turn, q) == sn);
        }
    }
    let mut end_seen = table.end_reached(level, turn);
    while frontier.len() > 0 && depth < limit && !(first && end_seen)
        invariant
            level.wf(),
            max_depth <= SHRUNK_PATH_CAPACITY,
            limit + 1 == max_depth,
            depth <= limit,
            nk == 4 * (level.w * level.h),
            nkeys == nk,
            turn == (cost == CostModel::TurnPenalized),
            all == (mode == CollectionMode::AllOptimal),
            first == (mode == CollectionMode::FirstSolution),
            table.sized(nk),
            table.records_ok(level, turn, all, depth as nat),
            edges_ok(level, turn, all, frontier@, depth as nat),
            table.start_ok(level, turn, all),
            round_inv1(&table, level, turn, all, frontier@, 0, Seq::<Edge>::empty()),
            reach_inv(&table, level, turn, depth as nat),
            edges_exact(level, turn, frontier@, depth as nat),
            end_seen == table.any_end_seen(level, turn),
            sn == start_node(level, turn),
        decreases limit - depth,
    {
        let ghost t0 = table;
        let mut next: Vec<Edge> = Vec::new();
        let mut i: usize = 0;
        proof {
            assert forall|n: NodeId| #![trigger t0.seen_at(key_of(level, n))]
                node_ok(level, turn, n) && t0.seen_at(key_of(level, n)) implies queued_le(frontier@, 0, n,
                t0.scores@[key_of(level, n)]) || table.relaxed_below(level, turn, n, t0.scores@[key_of(level, n)] as nat) by {
                if queued(frontier@, 0, all, n, table.scores@[key_of(level, n)], table.pts@[key_of(level, n)]@) {
                    let j = choose|j: int| 0 <= j < frontier@.len() && #[trigger] frontier@[j].pos == n.0
                        && frontier@[j].dir == n.1 && frontier@[j].s == table.scores@[key_of(level, n)]
                        && (all ==> frontier@[j].pts@ == table.pts@[key_of(level, n)]@);
                    assert(frontier@[j].pos == n.0);
                } else {
                    assert(table.relaxed(level, turn, all, n));
                }
            }
            assert(round_inv1(&table, level, turn, all, frontier@, 0, next@));
        }
        while i < frontier.len()
            invariant
                level.wf(),
                depth < limit,
                limit < SHRUNK_PATH_CAPACITY,
                nk == 4 * (level.w * level.h),
                i <= frontier.len(),
                sn == start_node(level, turn),
                table.sized(nk),
                t0.sized(nk),
                table.records_ok(level, turn, all, depth as nat + 1),
                edges_ok(level, turn, all, frontier@, depth as nat),
                edges_ok(level, turn, all, next@, depth as nat + 1),
                table.start_ok(level, turn, all),
                round_inv1(&table, level, turn, all, frontier@, i as int, next@),
                round_inv2(&t0, &table, level, turn, frontier@, i as int),
                reach_inv(&table, level, turn, depth as nat),
                edges_exact(level, turn, frontier@, depth as nat),
                edges_exact(level, turn, next@, depth as nat + 1),
                t0.monotone(&table, nk),
                reach_inv(&t0, level, turn, depth as nat),
            decreases frontier.len() - i,
        {
            let ghost before = table;
            let ghost nb = next@;
            table.process_edge(level, turn, all, &frontier[i], &mut next, Ghost(depth as nat));
            proof {
                lemma_round_step(&t0, &before, &table, level, turn, all, frontier@, i as int, nb, next@);
                let k = key_of(level, sn);
                lemma_key(level, turn, sn, sn);
                assert(before.seen@[k]);
            }
            i += 1;
        }
        proof {
            lemma_reach_step(&t0, &table, level, turn, frontier@, depth as nat);
            assert forall|n: NodeId| #![trigger table.seen_at(key_of(level, n))]
                node_ok(level, turn, n) && table.seen_at(key_of(level, n)) implies queued(
                next@, 0, all, n,
                table.scores@[key_of(level, n)],
                table.pts@[key_of(level, n)]@,
            ) || table.relaxed(level, turn, all, n) by {
                assert(!queued(frontier@, frontier@.len() as int, all, n, table.scores@[key_of(level, n)], table.pts@[key_of(level, n)]@));
            }
        }
        frontier = next;
        depth += 1;
        end_seen = table.end_reached(level, turn);
    }
    let converged = frontier.len() == 0;
    let max_depth_hit = frontier.len() > 0 && depth >= limit;
    proof {
        if !converged {
            let w = frontier@[0].path@;
            let p0 = frontier@[0].pos;
            assert(record_ok(level, turn, all, (p0, frontier@[0].dir), frontier@[0].s as nat, w, frontier@[0].pts@, depth as nat));
            assert(frontier@[0].path@.len() == depth as nat && repeat_free(level, turn, w));
            if depth >= state_count(level) {
                lemma_long_walk_repeats(level, turn, w);
            }
        }
        if converged {
            assert forall|n: NodeId| #![trigger table.seen_at(key_of(level, n))]
                node_ok(level, turn, n) && table.seen_at(key_of(level, n)) implies table.relaxed(level, turn, all, n) by {
                assert(!queued(frontier@, 0, all, n, table.scores@[key_of(level, n)], table.pts@[key_of(level, n)]@));
                assert(!queued(Seq::<Edge>::empty(), 0, all, n, table.scores@[key_of(level, n)], table.pts@[key_of(level, n)]@));
            }
            assert(table.all_relaxed(level, turn, all));
        }
    }
    table.finish(level, turn, all, mode, converged, max_depth_hit, Ghost(depth as nat), Ghost(limit as nat))
}

} // verus!
