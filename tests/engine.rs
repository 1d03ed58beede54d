use aoc24::bisect::bisect_first_blocking_index;
use aoc24::grid::Grid;
use aoc24::level::{Level, ParseError};
use aoc24::path2::{Move2, ShrunkPath};
use aoc24::solve::{
    find_any_path_18, find_best_path_16, find_best_path_18, is_reachable, search, CollectionMode,
    CostModel, SearchFailure,
};
use aoc24::vector::Vector;

const MAZE_A: &str = "###############
#.......#....E#
#.#.###.#.###.#
#.....#.#...#.#
#.###.#####.#.#
#.#.#.......#.#
#.#.#####.###.#
#...........#.#
###.#.#####.#.#
#...#.....#.#.#
#.#.#.###.#.#.#
#.....#...#.#.#
#.###.#.#.#.#.#
#S..#.....#...#
###############
";

const MAZE_B: &str = "#################
#...#...#...#..E#
#.#.#.#.#.#.#.#.#
#.#.#.#...#...#.#
#.#.#.#.###.#.#.#
#...#.#.#.....#.#
#.#.#.#.#.#####.#
#.#...#.#.#.....#
#.#.#####.#.###.#
#.#.#.......#...#
#.#.###.#####.###
#.#.#...#.....#.#
#.#.#.#####.###.#
#.#.#.........#.#
#.#.#.#########.#
#S#.............#
#################
";

const BYTES: [(i32, i32); 25] = [
    (5, 4), (4, 2), (4, 5), (3, 0), (2, 1), (6, 3), (2, 4), (1, 5), (0, 6), (3, 3), (2, 6), (5, 1),
    (1, 2), (5, 5), (2, 5), (6, 5), (1, 4), (0, 4), (6, 4), (1, 1), (6, 1), (1, 0), (0, 5), (1, 6),
    (2, 0),
];

fn replay(level: &Level, path: &[Move2]) -> Vector {
    let mut p = level.start_pos;
    for m in path {
        p = p.apply_dir(m);
        assert!(level.has_space_at(p));
    }
    p
}

fn memory_level(count: usize) -> Level {
    let mut grid = Grid::new(7, 7);
    for &(x, y) in BYTES.iter().take(count) {
        grid.put_unchecked(&Vector(x, y), b'#');
    }
    grid.put_unchecked(&Vector(0, 0), b'S');
    grid.put_unchecked(&Vector(6, 6), b'E');
    Level::from_str(&grid.to_string()).unwrap()
}

#[test]
fn turn_maze_small_score_and_tiles() {
    let level = Level::from_str(MAZE_A).unwrap();
    let sol = find_best_path_16(&level, 1000).unwrap();
    assert_eq!(sol.score, 7036);
    assert_eq!(sol.visited.len(), 45);
    assert!(!sol.max_depth_hit);
}

#[test]
fn turn_maze_large_score_and_tiles() {
    let level = Level::from_str(MAZE_B).unwrap();
    let sol = find_best_path_16(&level, 1000).unwrap();
    assert_eq!(sol.score, 11048);
    assert_eq!(sol.visited.len(), 64);
}

#[test]
fn repeated_search_agrees() {
    let level = Level::from_str(MAZE_A).unwrap();
    let a = find_best_path_16(&level, 1000).unwrap();
    let b = find_best_path_16(&level, 1000).unwrap();
    assert_eq!(a.score, b.score);
    let mut va = a.visited.clone();
    let mut vb = b.visited.clone();
    va.sort();
    vb.sort();
    assert_eq!(va, vb);
}

#[test]
fn returned_path_replays_to_end_with_its_score() {
    let level = Level::from_str(MAZE_B).unwrap();
    let sol = find_best_path_16(&level, 1000).unwrap();
    assert_eq!(replay(&level, &sol.path), level.end_pos);
    let sp = ShrunkPath::from_path(&sol.path);
    assert_eq!(sp.score(), sol.score);
}

#[test]
fn visited_holds_start_and_end() {
    let level = Level::from_str(MAZE_A).unwrap();
    let sol = find_best_path_16(&level, 1000).unwrap();
    assert!(sol.visited.contains(&level.start_pos));
    assert!(sol.visited.contains(&level.end_pos));
    for p in sol.path.iter().scan(level.start_pos, |pos, m| {
        *pos = pos.apply_dir(m);
        Some(*pos)
    }) {
        assert!(sol.visited.contains(&p));
    }
}

#[test]
fn added_wall_never_lowers_score() {
    let level = Level::from_str(MAZE_A).unwrap();
    let before = find_best_path_16(&level, 1000).unwrap();
    let mut more = level.clone();
    more.add_wall(Vector(3, 13));
    let after = find_best_path_16(&more, 1000).unwrap();
    assert!(after.score >= before.score);
}

#[test]
fn straight_corridor_uniform() {
    let level = Level::from_str("#######\n#S...E#\n#######\n").unwrap();
    let sol = find_best_path_18(&level, 100).unwrap();
    assert_eq!(sol.score, 4);
    assert_eq!(sol.path, vec![Move2::Right; 4]);
    assert_eq!(sol.visited.len(), 5);
    let turned = find_best_path_16(&level, 100).unwrap();
    assert_eq!(turned.score, 4);
}

#[test]
fn single_turn_corridor() {
    let level = Level::from_str("#####\n#S..#\n###.#\n###E#\n#####\n").unwrap();
    let sol = find_best_path_16(&level, 100).unwrap();
    assert_eq!(sol.score, 4 + 1000);
    assert_eq!(sol.path, vec![Move2::Right, Move2::Right, Move2::Down, Move2::Down]);
    let mut tiles = sol.visited.clone();
    tiles.sort();
    assert_eq!(tiles, vec![Vector(1, 1), Vector(2, 1), Vector(3, 1), Vector(3, 2), Vector(3, 3)]);
    assert!(!sol.max_depth_hit);
}

#[test]
fn walled_off_end_has_no_solution() {
    let level = Level::from_str("#######\n#S..#E#\n#######\n").unwrap();
    for depth in [10u64, 1000, 10240] {
        let r = search(&level, depth, CostModel::TurnPenalized, CollectionMode::AllOptimal);
        assert_eq!(r.err(), Some(SearchFailure::NoSolutionExists));
        let r = search(&level, depth, CostModel::Uniform, CollectionMode::BestPath);
        assert_eq!(r.err(), Some(SearchFailure::NoSolutionExists));
    }
    assert!(find_best_path_16(&level, 1000).is_none());
    assert!(find_any_path_18(&level, 1000).is_none());
    assert!(!is_reachable(&level, 1000));
}

#[test]
fn depth_limit_is_reported() {
    let level = Level::from_str(MAZE_A).unwrap();
    let r = search(&level, 5, CostModel::Uniform, CollectionMode::BestPath);
    assert_eq!(r.err(), Some(SearchFailure::DepthLimitExceeded));
    assert!(find_best_path_18(&level, 5).is_none());
}

#[test]
fn memory_grid_shortest_path() {
    let level = memory_level(12);
    let sol = find_best_path_18(&level, 1000).unwrap();
    assert_eq!(sol.score, 22);
    assert_eq!(sol.visited.len(), 23);
    assert_eq!(replay(&level, &sol.path), Vector(6, 6));
    let any = find_any_path_18(&level, 1000).unwrap();
    assert_eq!(replay(&level, &any.path), Vector(6, 6));
    assert!(any.visited.is_empty());
}

#[test]
fn bisection_finds_first_blocking_byte() {
    let level = memory_level(12);
    let obstacles: Vec<Vector> = BYTES.iter().map(|&(x, y)| Vector(x, y)).collect();
    let idx = bisect_first_blocking_index(&level, &obstacles, 11, obstacles.len(), 10000);
    assert_eq!(idx, 20);
    assert_eq!(obstacles[idx], Vector(6, 1));
}

#[test]
fn bisection_on_small_corridor() {
    let level = Level::from_str("#######\n#S...E#\n#######\n").unwrap();
    let obstacles = vec![Vector(2, 0), Vector(2, 2), Vector(3, 1), Vector(4, 1)];
    let idx = bisect_first_blocking_index(&level, &obstacles, 0, obstacles.len(), 100);
    assert_eq!(idx, 2);
}

#[test]
fn reachable_needs_fewer_moves_than_limit() {
    let level = Level::from_str("#####\n#S.E#\n#####\n").unwrap();
    assert!(is_reachable(&level, 10));
    assert!(is_reachable(&level, 3));
    assert!(!is_reachable(&level, 2));
    assert!(!is_reachable(&level, 1));
    assert!(!is_reachable(&level, 0));
}

#[test]
fn round_limit_counts_moves() {
    let level = Level::from_str("#######\n#S...E#\n#######\n").unwrap();
    assert!(find_best_path_18(&level, 4).is_none());
    assert_eq!(find_best_path_18(&level, 5).unwrap().score, 4);
    assert!(find_any_path_18(&level, 4).is_none());
    assert_eq!(find_any_path_18(&level, 5).unwrap().score, 4);
    assert!(find_best_path_16(&level, 4).is_none());
    let r = search(&level, 0, CostModel::Uniform, CollectionMode::BestPath);
    assert_eq!(r.err(), Some(SearchFailure::DepthLimitExceeded));
}

#[test]
fn large_limit_completes_search() {
    let level = Level::from_str(MAZE_A).unwrap();
    let sol = find_best_path_16(&level, 10240).unwrap();
    assert!(!sol.max_depth_hit);
    assert_eq!(sol.score, 7036);
    let mut v = sol.visited.clone();
    v.sort();
    v.dedup();
    assert_eq!(v.len(), sol.visited.len());
    let uniform = find_best_path_18(&level, 10240).unwrap();
    assert!(!uniform.max_depth_hit);
    let any = find_any_path_18(&level, 10240).unwrap();
    assert_eq!(any.score, uniform.score);
}

#[test]
fn parse_errors() {
    assert_eq!(Level::from_str("").err(), Some(ParseError::MissingMarker));
    assert_eq!(Level::from_str("#####\n#S..#\n#####\n").err(), Some(ParseError::MissingMarker));
    assert_eq!(Level::from_str("#####\n#SS.E\n#####\n").err(), Some(ParseError::DuplicateMarker));
    assert_eq!(Level::from_str("#####\n#SE.E\n#####\n").err(), Some(ParseError::DuplicateMarker));
    assert_eq!(Level::from_str("#SE\n#..\n").err(), Some(ParseError::TooSmall));
    assert_eq!(Level::from_str("SE\n..\n..\n").err(), Some(ParseError::TooSmall));
    assert_eq!(Level::from_str("#####\n#S.E\n#####\n").err(), Some(ParseError::RaggedRows));
    assert_eq!(Level::from_str("#####\n#S.Ex\n#####\n").err(), Some(ParseError::BadCharacter));
    let wide = format!("S{}E\n{}\n{}\n", ".".repeat(200), ".".repeat(202), ".".repeat(202));
    assert_eq!(Level::from_str(&wide).err(), Some(ParseError::TooLarge));
}

#[test]
fn parse_reads_markers_walls_and_crlf() {
    let level = Level::from_str("#####\r\n#S.E#\r\n#####\r\n").unwrap();
    assert_eq!((level.w, level.h), (5, 3));
    assert_eq!(level.start_pos, Vector(1, 1));
    assert_eq!(level.end_pos, Vector(3, 1));
    assert_eq!(level.deer_pos, level.start_pos);
    assert_eq!(level.deer_dir, Move2::Right);
    assert!(level.in_wall_pts(&Vector(0, 0)));
    assert!(!level.in_wall_pts(&Vector(2, 1)));
    assert!(!level.has_space_at(Vector(0, 1)));
    assert!(level.has_space_at(Vector(2, 1)));
    assert!(!level.has_space_at(Vector(-1, 1)));
    assert_eq!(level.to_string(), "#####\n#d..#\n#####\n");
}
