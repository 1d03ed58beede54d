//! `Move2`: the four directions coded 0 to 3, the cost of a sequence of
//! moves, and `ShrunkPath`, a bounded sequence of moves.
use vstd::prelude::*;
use crate::path::Move;
use crate::stackstack::{StackStack64, STACKSTACK64_MAX};
use crate::text::push_char;
use crate::vector::{Vector, VectorSm};

verus! {

/// A direction of movement, coded 0 to 3 clockwise from up.
#[derive(PartialOrd, Ord, Clone, Copy, PartialEq, Eq, Structural, Debug)]
pub enum Move2 {
    Up,
    Right,
    Down,
    Left,
}

pub const DIR2_U: u8 = 0;
pub const DIR2_R: u8 = 1;
pub const DIR2_D: u8 = 2;
pub const DIR2_L: u8 = 3;

/// Cost of a move in the direction already faced.
pub const COST_FORWARD: u64 = 1;
/// Cost of a move that needs a quarter turn first.
pub const COST_TURN: u64 = 1001;
/// Cost of a move that needs a half turn first.
pub const COST_REVERSE: u64 = 2001;

/// The most moves a `ShrunkPath` can hold.
pub const SHRUNK_PATH_CAPACITY: usize = STACKSTACK64_MAX * 32;


/// The direction with code `n` (codes above 3 wrap).
pub open spec fn move2_of(n: int) -> Move2 {
    if n % 4 == 0 {
        Move2::Up
    } else if n % 4 == 1 {
        Move2::Right
    } else if n % 4 == 2 {
        Move2::Down
    } else {
        Move2::Left
    }
}

impl Move2 {
    /// The code of this direction.
    pub open spec fn index(self) -> u8 {
        match self {
            Move2::Up => 0,
            Move2::Right => 1,
            Move2::Down => 2,
            Move2::Left => 3,
        }
    }

    pub open spec fn dx(self) -> int {
        match self {
            Move2::Right => 1,
            Move2::Left => -1,
            _ => 0,
        }
    }

    pub open spec fn dy(self) -> int {
        match self {
            Move2::Up => -1,
            Move2::Down => 1,
            _ => 0,
        }
    }

    pub open spec fn letter(self) -> char {
        match self {
            Move2::Up => 'U',
            Move2::Right => 'R',
            Move2::Down => 'D',
            Move2::Left => 'L',
        }
    }

    pub open spec fn spec_rotr(self) -> Move2 {
        move2_of(self.index() + 1)
    }

    pub open spec fn spec_rotl(self) -> Move2 {
        move2_of(self.index() + 3)
    }

    pub open spec fn spec_as_move(self) -> Move {
        match self {
            Move2::Up => Move::Up,
            Move2::Right => Move::Right,
            Move2::Down => Move::Down,
            Move2::Left => Move::Left,
        }
    }

    /// The code of this direction, 0 to 3.
    pub fn code(&self) -> (r: u8)
        ensures
            r == self.index(),
            r < 4,
    {
        match self {
            Move2::Up => DIR2_U,
            Move2::Right => DIR2_R,
            Move2::Down => DIR2_D,
            Move2::Left => DIR2_L,
        }
    }

    /// The unit step of this direction (y grows downwards).
    pub fn to_vector(&self) -> (r: Vector)
        ensures
            r.0 == self.dx(),
            r.1 == self.dy(),
    {
        match self {
            Move2::Up => Vector(0, -1),
            Move2::Right => Vector(1, 0),
            Move2::Down => Vector(0, 1),
            Move2::Left => Vector(-1, 0),
        }
    }

    /// The direction with code `n`, which must be below 4.
    pub fn from_u8_unchecked(n: u8) -> (r: Move2)
        requires
            n < 4,
        ensures
            r.index() == n,
            r == move2_of(n as int),
    {
        if n == 0 {
            Move2::Up
        } else if n == 1 {
            Move2::Right
        } else if n == 2 {
            Move2::Down
        } else {
            Move2::Left
        }
    }

    /// The direction with code `n`, if `n` is below 4.
    pub fn from_u8(n: u8) -> (r: Option<Move2>)
        ensures
            n < 4 <==> r.is_some(),
            n < 4 ==> r == Some(move2_of(n as int)),
    {
        match n {
            0 => Some(Move2::Up),
            1 => Some(Move2::Right),
            2 => Some(Move2::Down),
            3 => Some(Move2::Left),
            _ => None,
        }
    }

    /// The unit step of this direction, with small coordinates.
    pub fn to_vector_sm(&self) -> (r: VectorSm)
        ensures
            r.0 == self.dx(),
            r.1 == self.dy(),
    {
        match self {
            Move2::Up => VectorSm(0, -1),
            Move2::Right => VectorSm(1, 0),
            Move2::Down => VectorSm(0, 1),
            Move2::Left => VectorSm(-1, 0),
        }
    }

    /// One letter: `U`, `R`, `D` or `L`.
    pub fn to_string(&self) -> (r: String)
        ensures
            r@ == seq![self.letter()],
    {
        let mut s = String::new();
        push_char(&mut s, self.letter_char());
        assert(s@ =~= seq![self.letter()]);
        s
    }

    fn letter_char(&self) -> (r: char)
        ensures
            r == self.letter(),
    {
        match self {
            Move2::Up => 'U',
            Move2::Right => 'R',
            Move2::Down => 'D',
            Move2::Left => 'L',
        }
    }

    pub fn as_move(&self) -> (r: Move)
        ensures
            r == self.spec_as_move(),
    {
        match self {
            Move2::Up => Move::Up,
            Move2::Right => Move::Right,
            Move2::Down => Move::Down,
            Move2::Left => Move::Left,
        }
    }

    /// Turns 90 degrees clockwise.
    pub fn rotr(&self) -> (r: Move2)
        ensures
            r == self.spec_rotr(),
    {
        match self {
            Move2::Up => Move2::Right,
            Move2::Right => Move2::Down,
            Move2::Down => Move2::Left,
            Move2::Left => Move2::Up,
        }
    }

    /// Turns 90 degrees anticlockwise.
    pub fn rotl(&self) -> (r: Move2)
        ensures
            r == self.spec_rotl(),
    {
        match self {
            Move2::Up => Move2::Left,
            Move2::Left => Move2::Down,
            Move2::Down => Move2::Right,
            Move2::Right => Move2::Up,
        }
    }
}

/// What a move in direction `m` costs when facing `facing`.
pub open spec fn step_cost(facing: Move2, m: Move2) -> nat {
    if facing == m {
        COST_FORWARD as nat
    } else if facing == m.spec_rotr() || facing == m.spec_rotl() {
        COST_TURN as nat
    } else {
        COST_REVERSE as nat
    }
}

/// The direction faced after following `path` from facing `facing`.
pub open spec fn facing_after(facing: Move2, path: Seq<Move2>) -> Move2 {
    if path.len() == 0 {
        facing
    } else {
        path.last()
    }
}

/// The turn-penalised cost of following `path` from facing `facing`.
pub open spec fn path_cost(facing: Move2, path: Seq<Move2>) -> nat
    decreases path.len(),
{
    if path.len() == 0 {
        0
    } else {
        path_cost(facing, path.drop_last()) + step_cost(
            facing_after(facing, path.drop_last()),
            path.last(),
        )
    }
}

/// The letters of the moves of `path`, one each.
pub open spec fn path_text(path: Seq<Move2>) -> Seq<char>
    decreases path.len(),
{
    if path.len() == 0 {
        seq![]
    } else {
        path_text(path.drop_last()).push(path.last().letter())
    }
}

/// A step costs at most a reversal.
pub proof fn lemma_path_cost_bound(facing: Move2, path: Seq<Move2>)
    ensures
        path_cost(facing, path) <= COST_REVERSE * path.len(),
    decreases path.len(),
{
    if path.len() > 0 {
        lemma_path_cost_bound(facing, path.drop_last());
    }
}

/// The two-bit field `j` of a word.
pub open spec fn field(w: u64, j: int) -> u64 {
    (w >> ((2 * j) as u64)) & 3
}

/// The two-bit code of move `i` in a sequence of words, 32 codes to a word.
pub open spec fn code_at(words: Seq<u64>, i: int) -> u64 {
    field(words[i / 32], i % 32)
}

/// Writing field `k` of a word sets that field and keeps the others.
proof fn lemma_field_write(w: u64, m: u64, k: u64, j: u64)
    requires
        k < 32,
        j < 32,
        m < 4,
    ensures
        field((w & !(3u64 << (2 * k))) | (m << (2 * k)), j as int) == if j == k {
            m
        } else {
            field(w, j as int)
        },
{
    assert((((w & !(3u64 << (2 * k))) | (m << (2 * k))) >> (2 * j)) & 3 == if j == k {
        m
    } else {
        (w >> (2 * j)) & 3
    }) by (bit_vector)
        requires
            k < 32,
            j < 32,
            m < 4,
    ;
}

/// A field holds a value below 4.
proof fn lemma_field_small(w: u64, j: u64)
    requires
        j < 32,
    ensures
        field(w, j as int) < 4,
{
    assert((w >> (2 * j)) & 3 < 4) by (bit_vector)
        requires
            j < 32,
    ;
}

/// Field 0 of a word below 4 is the word itself.
proof fn lemma_field_fresh(m: u64)
    requires
        m < 4,
    ensures
        field(m, 0) == m,
{
    assert((m >> 0u64) & 3 == m) by (bit_vector)
        requires
            m < 4,
    ;
}

/// A sequence of at most `SHRUNK_PATH_CAPACITY` moves, two bits each, 32 to
/// a word; it only grows until it is cleared.
#[derive(PartialOrd, Ord, Clone, Copy, PartialEq, Eq, Debug)]
pub struct ShrunkPath {
    count: u16,
    data: StackStack64,
}

impl View for ShrunkPath {
    type V = Seq<Move2>;

    closed spec fn view(&self) -> Seq<Move2> {
        Seq::new(self.count as nat, |i: int| move2_of(code_at(self.data@, i) as int))
    }
}

impl ShrunkPath {
    /// The words hold exactly the blocks that the moves need.
    pub closed spec fn wf(&self) -> bool {
        &&& self.count <= SHRUNK_PATH_CAPACITY
        &&& self.data.wf()
        &&& self.data.next == (self.count + 31) / 32
    }

    pub fn new() -> (r: ShrunkPath)
        ensures
            r.wf(),
            r@ == Seq::<Move2>::empty(),
    {
        let r = ShrunkPath { count: 0, data: StackStack64::new() };
        assert(r@ =~= Seq::<Move2>::empty());
        r
    }

    pub fn clear(&mut self)
        ensures
            final(self).wf(),
            final(self)@ == Seq::<Move2>::empty(),
    {
        self.count = 0;
        self.data.clear();
        assert(self@ =~= Seq::<Move2>::empty());
    }

    pub fn len(&self) -> (r: u16)
        requires
            self.wf(),
        ensures
            r == self@.len(),
            r <= SHRUNK_PATH_CAPACITY,
    {
        self.count
    }

    /// The path of the moves of `path`.
    pub fn from_path(path: &Vec<Move2>) -> (r: ShrunkPath)
        requires
            path.len() <= SHRUNK_PATH_CAPACITY,
        ensures
            r.wf(),
            r@ == path@,
    {
        let mut r = ShrunkPath::new();
        r.append_path(path);
        assert(r@ =~= path@);
        r
    }

    /// Appends one move.
    pub fn push(&mut self, move1: &Move2)
        requires
            old(self).wf(),
            old(self)@.len() < SHRUNK_PATH_CAPACITY,
        ensures
            final(self).wf(),
            final(self)@ == old(self)@.push(*move1),
    {
        self.push_u8(move1.code());
        assert(move2_of(move1.index() as int) == *move1);
    }

    /// Appends the move with code `move1`, which must be below 4.
    pub fn push_u8(&mut self, move1: u8)
        requires
            old(self).wf(),
            move1 < 4,
            old(self)@.len() < SHRUNK_PATH_CAPACITY,
        ensures
            final(self).wf(),
            final(self)@ == old(self)@.push(move2_of(move1 as int)),
    {
        let m = move1 as u64;
        let ghost c = self.count as int;
        proof {
            if c % 32 == 0 {
                assert((c + 32) / 32 == (c + 31) / 32 + 1 && c / 32 == (c + 31) / 32) by (nonlinear_arith)
                    requires
                        c % 32 == 0,
                        c >= 0,
                ;
            } else {
                assert((c + 32) / 32 == (c + 31) / 32 && c / 32 < (c + 31) / 32) by (nonlinear_arith)
                    requires
                        c % 32 != 0,
                        c >= 0,
                ;
            }
            assert((c + 32) / 32 <= STACKSTACK64_MAX) by (nonlinear_arith)
                requires
                    c < SHRUNK_PATH_CAPACITY,
                    SHRUNK_PATH_CAPACITY == STACKSTACK64_MAX * 32,
            ;
        }
        if self.count % 32 == 0 {
            self.data.push(m);
            proof {
                lemma_field_fresh(m);
                assert(self.data@[c / 32] == m);
                assert(code_at(self.data@, c) == m);
                assert forall|i: int| 0 <= i < c implies #[trigger] code_at(self.data@, i) == code_at(
                    old(self).data@,
                    i,
                ) by {
                    assert(self.data@[i / 32] == old(self).data@[i / 32]);
                }
            }
        } else {
            let idx = self.count as usize / 32;
            let shift: u64 = 2 * (self.count % 32) as u64;
            let x = self.data.stack[idx];
            let y = (x & !(3u64 << shift)) | (m << shift);
            self.data.stack[idx] = y;
            proof {
                assert forall|i: int| 0 <= i < c implies #[trigger] code_at(self.data@, i) == code_at(
                    old(self).data@,
                    i,
                ) by {
                    if i / 32 == idx {
                        lemma_field_write(x, m, (c % 32) as u64, (i % 32) as u64);
                    }
                }
                lemma_field_write(x, m, (c % 32) as u64, (c % 32) as u64);
                assert(code_at(self.data@, c) == m);
            }
        }
        self.count = self.count + 1;
        assert(self@ =~= old(self)@.push(move2_of(move1 as int)));
    }

    /// Appends the moves of `path`, in order.
    pub fn append_path(&mut self, path: &Vec<Move2>)
        requires
            old(self).wf(),
            old(self)@.len() + path.len() <= SHRUNK_PATH_CAPACITY,
        ensures
            final(self).wf(),
            final(self)@ == old(self)@ + path@,
    {
        let mut i: usize = 0;
        while i < path.len()
            invariant
                self.wf(),
                i <= path.len(),
                old(self)@.len() + path.len() <= SHRUNK_PATH_CAPACITY,
                self@ == old(self)@ + path@.take(i as int),
            decreases path.len() - i,
        {
            self.push(&path[i]);
            i += 1;
            assert(self@ =~= old(self)@ + path@.take(i as int));
        }
        assert(path@.take(i as int) =~= path@);
    }

    /// The move at position `i`.
    fn move_at(&self, i: usize) -> (r: Move2)
        requires
            self.wf(),
            i < self@.len(),
        ensures
            r == self@[i as int],
    {
        let block = self.data.stack[i / 32];
        let shift: u64 = 2 * (i % 32) as u64;
        let code = (block >> shift) & 3;
        proof {
            let c = self.count as int;
            assert(i as int / 32 < (c + 31) / 32) by (nonlinear_arith)
                requires
                    0 <= i < c,
            ;
            lemma_field_small(block, (i % 32) as u64);
        }
        assert(code == code_at(self.data@, i as int));
        Move2::from_u8_unchecked(code as u8)
    }

    /// The moves, in order.
    pub fn to_path(&self) -> (r: Vec<Move2>)
        requires
            self.wf(),
        ensures
            r@ == self@,
    {
        let mut path: Vec<Move2> = Vec::with_capacity(self.count as usize);
        let mut i: usize = 0;
        while i < self.count as usize
            invariant
                self.wf(),
                i <= self@.len(),
                path@ == self@.take(i as int),
            decreases self@.len() - i,
        {
            path.push(self.move_at(i));
            i += 1;
            assert(path@ =~= self@.take(i as int));
        }
        assert(path@ =~= self@);
        path
    }

    /// What the path costs, starting out facing right: 1 for each move in the
    /// direction faced, 1001 for one after a quarter turn, 2001 for one after a
    /// half turn.
    pub fn score(&self) -> (r: u64)
        requires
            self.wf(),
        ensures
            r == path_cost(Move2::Right, self@),
    {
        let mut score: u64 = 0;
        let mut facing = Move2::Right;
        let mut i: usize = 0;
        while i < self.count as usize
            invariant
                self.wf(),
                i <= self@.len() <= SHRUNK_PATH_CAPACITY,
                score == path_cost(Move2::Right, self@.take(i as int)),
                facing == facing_after(Move2::Right, self@.take(i as int)),
            decreases self@.len() - i,
        {
            proof {
                lemma_path_cost_bound(Move2::Right, self@.take(i as int));
                assert(self@.take(i + 1).drop_last() =~= self@.take(i as int));
            }
            let m = self.move_at(i);
            score = score + ShrunkPath::calc_score(&m, &facing);
            facing = m;
            i += 1;
        }
        assert(self@.take(i as int) =~= self@);
        score
    }

    /// What a move in direction `m0` costs when facing `m`.
    pub fn calc_score(m0: &Move2, m: &Move2) -> (r: u64)
        ensures
            r == step_cost(*m, *m0),
            r == step_cost(*m0, *m),
    {
        if *m0 == *m {
            COST_FORWARD
        } else if *m0 == m.rotr() || *m0 == m.rotl() {
            COST_TURN
        } else {
            COST_REVERSE
        }
    }

    /// One letter for each move: `U`, `R`, `D` or `L`.
    pub fn to_string(&self) -> (r: String)
        requires
            self.wf(),
        ensures
            r@ == path_text(self@),
    {
        let mut s = String::new();
        let mut i: usize = 0;
        while i < self.count as usize
            invariant
                self.wf(),
                i <= self@.len(),
                s@ == path_text(self@.take(i as int)),
            decreases self@.len() - i,
        {
            let piece = self.move_at(i).to_string();
            let ghost before = s@;
            proof {
                assert(self@.take(i + 1).drop_last() =~= self@.take(i as int));
            }
            s.append(piece.as_str());
            i += 1;
            assert(s@ =~= before.push(self@[i - 1].letter()));
        }
        assert(self@.take(i as int) =~= self@);
        s
    }
}

} // verus!
