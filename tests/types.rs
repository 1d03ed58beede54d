use aoc24::grid::Grid;
use aoc24::level::{Level, LevelBitmap};
use aoc24::obj::Obj;
use aoc24::path::Move;
use aoc24::path2::{Move2, ShrunkPath};
use aoc24::stackstack::StackStack64;
use aoc24::vector::{SuperPrefix, Vector, VectorSm};

#[test]
fn vector_arithmetic() {
    let a = Vector::new(3, -4);
    let b = Vector(1, 2);
    assert_eq!(a.add(&b), Vector(4, -2));
    assert_eq!(a.sub(&b), Vector(2, -6));
    assert_eq!(a.distance(&b), 8);
    assert_eq!(a.double(), Vector(6, -8));
    assert_eq!(a.mul(-3), Vector(-9, 12));
    assert_eq!(a.scale_by(2), Vector(6, -8));
    assert_eq!(a.rotr(), Vector(-4, -3));
    assert_eq!(a.rotl(), Vector(4, 3));
    assert!(a.eq(&Vector(3, -4)));
    assert!(!a.eq(&b));
    assert_eq!(Vector(2, 3).to_index(10), 32);
    assert_eq!(Vector(2, 3).to_usize(), (2, 3));
}

#[test]
fn vector_steps() {
    let p = Vector(5, 5);
    assert_eq!(p.add_dir(&Move::Up), Vector(5, 4));
    assert_eq!(p.add_dir(&Move::Left), Vector(4, 5));
    assert_eq!(p.apply_dir(&Move2::Right), Vector(6, 5));
    assert_eq!(p.apply_dir(&Move2::Down), Vector(5, 6));
    assert_eq!(p.add_dir2(&Move::Down), Vector(5, 7));
    assert_eq!(p.add_dir2(&Move::Right), Vector(7, 5));
}

#[test]
fn vector_text() {
    assert_eq!(Vector(12, -305).to_string(), "(12,-305)");
    assert_eq!(Vector(0, i32::MIN).to_string(), "(0,-2147483648)");
    assert_eq!(VectorSm(-7, 100).to_string(), "(-7,100)");
}

#[test]
fn small_vectors() {
    let a = VectorSm::new(2, -3);
    assert_eq!(a.intov(), Vector(2, -3));
    assert!(VectorSm::fromv(&Vector(-5, 9)) == VectorSm(-5, 9));
    assert!(a.add(&VectorSm(1, 1)) == VectorSm(3, -2));
    assert!(a.double() == VectorSm(4, -6));
    assert!(a.mul(3) == VectorSm(6, -9));
    assert!(a.rotr() == VectorSm(-3, -2));
    assert!(a.rotl() == VectorSm(3, 2));
    assert!(a.add_dir(&Move::Up) == VectorSm(2, -4));
    assert!(a.add_dir2(&Move::Left) == VectorSm(0, -3));
    assert_eq!(VectorSm(4, 2).to_index(7), 18);
    assert_eq!(VectorSm(4, 2).to_usize(), (4, 2));
}

#[test]
fn move_bits_and_turns() {
    assert_eq!(Move::Up.u(), 1);
    assert_eq!(Move::Left.u(), 8);
    assert_eq!(Move::Up.rotr(), Move::Right);
    assert_eq!(Move::Up.rotl(), Move::Left);
    assert_eq!(Move::Right.reverse(), Move::Left);
    assert_eq!(Move::from_u8(4), Some(Move::Down));
    assert_eq!(Move::from_u8(3), None);
    assert_eq!(Move::from_u8_unchecked(8), Move::Left);
    assert_eq!(Move::from_char_unchecked('v'), Move::Down);
    assert_eq!(Move::from_char_unchecked('<'), Move::Left);
    assert_eq!(Move::Down.to_vector(), Vector(0, 1));
    assert!(Move::Left.to_vector_sm() == VectorSm(-1, 0));
    assert_eq!(Move::Right.to_string(), "R");
    assert_eq!(Move::Down.as_move2(), Move2::Down);
}

#[test]
fn move2_codes_and_turns() {
    assert_eq!(Move2::Left.rotr(), Move2::Up);
    assert_eq!(Move2::Left.rotl(), Move2::Down);
    assert_eq!(Move2::from_u8(2), Some(Move2::Down));
    assert_eq!(Move2::from_u8(4), None);
    assert_eq!(Move2::from_u8_unchecked(3), Move2::Left);
    assert_eq!(Move2::Up.to_vector(), Vector(0, -1));
    assert!(Move2::Right.to_vector_sm() == VectorSm(1, 0));
    assert_eq!(Move2::Up.to_string(), "U");
    assert_eq!(Move2::Left.to_string(), "L");
    assert_eq!(Move2::Right.as_move(), Move::Right);
    assert_eq!(Move2::Down.code(), 2);
}

#[test]
fn shrunk_path_moves() {
    let mut p = ShrunkPath::new();
    assert_eq!(p.len(), 0);
    p.push(&Move2::Right);
    p.push_u8(2);
    p.append_path(&vec![Move2::Down, Move2::Left]);
    assert_eq!(p.len(), 4);
    assert_eq!(p.to_path(), vec![Move2::Right, Move2::Down, Move2::Down, Move2::Left]);
    assert_eq!(p.to_string(), "RDDL");
    let q = ShrunkPath::from_path(&p.to_path());
    assert_eq!(q.to_path(), p.to_path());
    let copy = p;
    assert_eq!(copy.to_path(), p.to_path());
    p.clear();
    assert_eq!(p.len(), 0);
    assert_eq!(p.to_string(), "");
}

#[test]
fn shrunk_path_long() {
    let moves: Vec<Move2> = (0..100u8).map(|i| Move2::from_u8_unchecked(i % 4)).collect();
    let p = ShrunkPath::from_path(&moves);
    assert_eq!(p.len(), 100);
    assert_eq!(p.to_path(), moves);
    let mut q = ShrunkPath::new();
    for m in moves.iter() {
        q.push(m);
    }
    assert_eq!(q.to_path(), moves);
    assert!(p == q);
}

#[test]
fn shrunk_path_reuse_after_clear() {
    let mut p = ShrunkPath::from_path(&vec![Move2::Left; 40]);
    p.clear();
    p.push(&Move2::Up);
    p.push(&Move2::Right);
    assert_eq!(p.to_path(), vec![Move2::Up, Move2::Right]);
}

#[test]
fn shrunk_path_full_capacity() {
    let moves: Vec<Move2> = (0..10240u32).map(|i| Move2::from_u8_unchecked((i % 4) as u8)).collect();
    let p = ShrunkPath::from_path(&moves);
    assert_eq!(p.len(), 10240);
    assert_eq!(p.to_path(), moves);
}

#[test]
fn shrunk_path_score() {
    assert_eq!(ShrunkPath::new().score(), 0);
    let straight = ShrunkPath::from_path(&vec![Move2::Right; 5]);
    assert_eq!(straight.score(), 5);
    let turn = ShrunkPath::from_path(&vec![Move2::Right, Move2::Up, Move2::Up]);
    assert_eq!(turn.score(), 1 + 1001 + 1);
    let back = ShrunkPath::from_path(&vec![Move2::Left]);
    assert_eq!(back.score(), 2001);
    assert_eq!(ShrunkPath::calc_score(&Move2::Up, &Move2::Up), 1);
    assert_eq!(ShrunkPath::calc_score(&Move2::Up, &Move2::Left), 1001);
    assert_eq!(ShrunkPath::calc_score(&Move2::Up, &Move2::Down), 2001);
}

#[test]
fn stack_push_pop() {
    let mut s = StackStack64::new();
    assert_eq!(s.len(), 0);
    s.push(7);
    s.push(9);
    assert_eq!(s.len(), 2);
    assert_eq!(s.pop(), 9);
    assert_eq!(s.pop(), 7);
    s.push(1);
    s.clear();
    assert_eq!(s.len(), 0);
}

#[test]
fn super_prefix_table() {
    let mut t = SuperPrefix::new();
    assert_eq!(t.add(10), 0);
    assert_eq!(t.add(20), 1);
    assert_eq!(t.add(10), 0);
    assert_eq!(t.len(), 2);
    assert_eq!(t.add_unchecked(10), 2);
    assert_eq!(t.get_by_index(1), Some(20));
    assert_eq!(t.get_by_index(3), None);
}

#[test]
fn obj_chars() {
    assert_eq!(Obj::from_char(&'#'), Obj::Wall);
    assert_eq!(Obj::from_char(&'d'), Obj::Deer);
    assert_eq!(Obj::Space.to_char(), '.');
    assert_eq!(Obj::Wall.to_char(), '#');
}

#[test]
fn grid_access() {
    let mut g = Grid::new_with(4, 3, b'x');
    assert_eq!(g.data.len(), 12);
    assert!(g.put(&Vector(1, 2), b'o'));
    assert!(!g.put(&Vector(4, 0), b'o'));
    assert_eq!(g.get(&Vector(1, 2)), Some(b'o'));
    assert_eq!(g.get(&Vector(-1, 0)), None);
    assert_eq!(g.get_unchecked(&Vector(0, 0)), b'x');
    assert!(g.has_xy(&Vector(3, 2)));
    assert!(!g.has_xy(&Vector(3, 3)));
    assert!(Vector(3, 2).is_valid(&g));
    g.put_unchecked_t((3, 0), b'o');
    assert_eq!(g.find(b'o'), vec![Vector(3, 0), Vector(1, 2)]);
    fn is_o(c: u8) -> bool {
        c == b'o'
    }
    assert_eq!(g.find_fn(is_o), vec![Vector(3, 0), Vector(1, 2)]);
    let n = g.get_neighbours(&Vector(0, 1));
    assert_eq!(n, vec![Some(b'x'), Some(b'x'), Some(b'x'), Some(b'o'), Some(b'x'), None, None, None]);
}

#[test]
fn grid_text() {
    let mut g = Grid::from_str("ab\ncd\r\nef");
    assert_eq!((g.w, g.h), (2, 3));
    assert_eq!(g.data, b"abcdef".to_vec());
    assert_eq!(g.to_string(), "ab\ncd\nef\n");
    assert_eq!(g.to_string_with_pt(&Vector(1, 1)), "ab\nc@\nef\n");
    fn upper(c: u8) -> u8 {
        c.to_ascii_uppercase()
    }
    g.replace_fn(upper);
    assert_eq!(g.to_string(), "AB\nCD\nEF\n");
    assert_eq!(Grid::new(2, 2).to_string(), "..\n..\n");
}

#[test]
fn bitmap_bits() {
    let mut b = LevelBitmap::new(130, 2);
    assert!(!b.get_v(Vector(129, 1)));
    b.set_v(Vector(129, 1));
    b.set_v(Vector(0, 0));
    assert!(b.get_v(Vector(129, 1)));
    assert!(!b.get_v(Vector(65, 1)));
    b.clear_v(Vector(129, 1));
    assert!(!b.get_v(Vector(129, 1)));
    let small = {
        let mut s = LevelBitmap::new(3, 2);
        s.set_v(Vector(1, 0));
        s
    };
    assert_eq!(small.to_string(), ".#.\n...\n");
}

#[test]
fn level_cells_and_deer() {
    let mut level = Level::from_str("#####\n#S.E#\n#.d.#\n#####\n").unwrap();
    assert_eq!(level.get_obj_at_pt(&Vector(0, 0)), Obj::Wall);
    assert_eq!(level.get_obj_at_pt(&Vector(1, 1)), Obj::Deer);
    assert_eq!(level.get_obj_at_pt(&Vector(2, 1)), Obj::Space);
    assert_eq!(level.get_obj_at_pt_checked(&Vector(9, 9)), Obj::Wall);
    assert!(!level.have_win_condition());
    assert!(level.vector_in_bounds(&Vector(4, 3)));
    assert!(!level.vector_in_bounds(&Vector(5, 3)));
    assert!(level.vector_in_bounds8(&VectorSm(4, 3)));
    assert!(level.in_wall_pts8(&VectorSm(0, 3)));
    let copy = level.clone();
    assert!(level.eq_data(&copy));
    level.set_obj_at_pt_checked(&Vector(2, 1), Obj::Deer);
    assert!(!level.eq_data(&copy));
    level.set_obj_at_pt(&Vector(2, 1), Obj::Space);
    assert!(level.eq_data(&copy));
    level.deer_pos = level.end_pos;
    assert!(level.have_win_condition());
    let mut with_deer = Level::from_str("#####\n#S.E#\n#.d.#\n#####\n").unwrap();
    with_deer.deer_pos = Vector(2, 2);
    with_deer.clear_deer();
    let mut without = Level::from_str("#####\n#S.E#\n#...#\n#####\n").unwrap();
    without.deer_pos = Vector(2, 2);
    assert!(with_deer.eq_data(&without));
    let pts = level.get_path_pts(&vec![Move2::Right, Move2::Down]);
    assert_eq!(pts, vec![Vector(1, 1), Vector(2, 1), Vector(2, 2)]);
}

#[test]
fn level_walls_from_text() {
    let mut level = Level::from_str("#####\n#S#E#\n#...#\n#####\n").unwrap();
    assert!(level.in_wall_pts(&Vector(2, 1)));
    assert!(!level.in_wall_pts(&Vector(2, 2)));
    level.add_wall(Vector(2, 2));
    assert!(level.in_wall_pts(&Vector(2, 2)));
    level.init_level();
    assert!(level.in_wall_pts(&Vector(2, 2)));
}
