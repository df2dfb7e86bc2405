use disc_golf_man::board::{tile_from_byte, Board, BoardTile};
use disc_golf_man::enums::Direction;
use disc_golf_man::path::{bfs, can_enter, ghost_walkable, nearest_walkable, neighbors, route_cells, RouteStep};

fn board(rows: &[&str]) -> Board {
    let rows: Vec<Vec<u8>> = rows.iter().map(|r| r.as_bytes().to_vec()).collect();
    Board::from_layout(&rows).expect("valid layout")
}

#[test]
fn neighbors_of_a_corner_wrap_sideways() {
    assert_eq!(neighbors(0, 0, 3, 3), [None, Some((1, 0)), Some((0, 2)), Some((0, 1))]);
}

#[test]
fn neighbors_of_the_last_cell() {
    assert_eq!(neighbors(2, 2, 3, 3), [Some((1, 2)), None, Some((2, 1)), Some((2, 0))]);
}

#[test]
fn neighbors_inside() {
    assert_eq!(neighbors(1, 1, 3, 3), [Some((0, 1)), Some((2, 1)), Some((1, 0)), Some((1, 2))]);
}

#[test]
fn ghosts_walk_everywhere_but_walls() {
    assert!(!ghost_walkable(BoardTile::Wall));
    assert!(ghost_walkable(BoardTile::Empty));
    assert!(ghost_walkable(BoardTile::Dot));
    assert!(ghost_walkable(BoardTile::PowerUp));
}

#[test]
fn layout_characters() {
    assert_eq!(tile_from_byte(b'#'), Some(BoardTile::Wall));
    assert_eq!(tile_from_byte(b'.'), Some(BoardTile::Dot));
    assert_eq!(tile_from_byte(b'o'), Some(BoardTile::PowerUp));
    assert_eq!(tile_from_byte(b' '), Some(BoardTile::Empty));
    assert_eq!(tile_from_byte(b'x'), None);
}

#[test]
fn bad_layouts_are_refused() {
    let unknown: Vec<Vec<u8>> = vec![b"#x#".to_vec()];
    assert!(Board::from_layout(&unknown).is_none());
    let ragged: Vec<Vec<u8>> = vec![b"###".to_vec(), b"##".to_vec()];
    assert!(Board::from_layout(&ragged).is_none());
    let empty: Vec<Vec<u8>> = vec![];
    assert!(Board::from_layout(&empty).is_none());
    let empty_row: Vec<Vec<u8>> = vec![vec![]];
    assert!(Board::from_layout(&empty_row).is_none());
    assert!(Board::from_rows(vec![]).is_none());
}

#[test]
fn board_lookup() {
    let b = board(&["#.o", "   "]);
    assert_eq!(b.width(), 3);
    assert_eq!(b.height(), 2);
    assert_eq!(b.try_get(0, 0), Some(BoardTile::Wall));
    assert_eq!(b.try_get(0, 1), Some(BoardTile::Dot));
    assert_eq!(b.try_get(0, 2), Some(BoardTile::PowerUp));
    assert_eq!(b.try_get(1, 2), Some(BoardTile::Empty));
    assert_eq!(b.try_get(2, 0), None);
    assert_eq!(b.try_get(0, 3), None);
}

#[test]
fn bfs_goes_around_a_wall() {
    let b = board(&[
        "#######",
        "#.....#",
        "#.###.#",
        "#.....#",
        "#######",
    ]);
    let p = bfs(1, 1, 3, 5, &b);
    assert_eq!(p.len(), 6);
    assert_eq!(*p.last().unwrap(), (3, 5));
    let mut cur = (1usize, 1usize);
    for &c in &p {
        let d = (cur.0 as i64 - c.0 as i64).abs() + (cur.1 as i64 - c.1 as i64).abs();
        assert_eq!(d, 1);
        assert_ne!(b.try_get(c.0, c.1), Some(BoardTile::Wall));
        cur = c;
    }
}

#[test]
fn bfs_to_itself_is_empty() {
    let b = board(&["...", "..."]);
    assert!(bfs(1, 1, 1, 1, &b).is_empty());
}

#[test]
fn bfs_to_an_unreachable_cell_is_empty() {
    let b = board(&[".#.#", "####"]);
    assert!(bfs(0, 0, 0, 2, &b).is_empty());
    assert!(bfs(0, 0, 1, 1, &b).is_empty());
    let tunnel = board(&[".#.", "###"]);
    assert_eq!(bfs(0, 0, 0, 2, &tunnel), vec![(0, 2)]);
}

#[test]
fn bfs_takes_the_tunnel_when_shorter() {
    let b = board(&["......"]);
    assert_eq!(bfs(0, 0, 0, 5, &b), vec![(0, 5)]);
    assert_eq!(bfs(0, 0, 0, 4, &b), vec![(0, 5), (0, 4)]);
}

#[test]
fn nearest_walkable_of_a_walkable_cell_is_itself() {
    let b = board(&["#.#", "..."]);
    assert_eq!(nearest_walkable(0, 1, &b), (0, 1));
}

#[test]
fn nearest_walkable_of_a_wall() {
    let b = board(&[
        "#####",
        "#####",
        "###.#",
    ]);
    assert_eq!(nearest_walkable(0, 3, &b), (2, 3));
    assert_eq!(nearest_walkable(1, 0, &b), (2, 3));
}

#[test]
fn nearest_walkable_without_any_walkable_cell() {
    let b = board(&["###", "###"]);
    assert_eq!(nearest_walkable(1, 1, &b), (1, 1));
}

#[test]
fn route_to_a_wall_ends_next_to_it() {
    let b = board(&[
        "#####",
        "#...#",
        "#####",
    ]);
    let (end, steps) = route_cells(&b, (1, 1), (0, 3));
    assert_eq!(end, (1, 3));
    assert_eq!(
        steps,
        vec![RouteStep { cell: (1, 2), wraps: false }, RouteStep { cell: (1, 3), wraps: false }]
    );
}

#[test]
fn route_marks_the_tunnel() {
    let b = board(&["......"]);
    let (end, steps) = route_cells(&b, (0, 0), (0, 4));
    assert_eq!(end, (0, 4));
    assert_eq!(
        steps,
        vec![RouteStep { cell: (0, 5), wraps: true }, RouteStep { cell: (0, 4), wraps: false }]
    );
}

#[test]
fn route_to_where_the_ghost_stands_is_empty() {
    let b = board(&["...", "..."]);
    let (end, steps) = route_cells(&b, (1, 2), (1, 2));
    assert_eq!(end, (1, 2));
    assert!(steps.is_empty());
}

#[test]
fn route_to_an_enclosed_cell_is_empty() {
    let b = board(&[".#.#"]);
    let (end, steps) = route_cells(&b, (0, 0), (0, 2));
    assert_eq!(end, (0, 2));
    assert!(steps.is_empty());
}

#[test]
fn neighbors_of_a_cell_off_the_board() {
    assert_eq!(neighbors(5, 7, 3, 3), [Some((4, 7)), None, Some((5, 6)), Some((5, 0))]);
}

#[test]
fn bfs_from_just_below_the_board() {
    let b = board(&["...", "...", "..."]);
    assert_eq!(bfs(3, 1, 0, 1, &b), vec![(2, 1), (1, 1), (0, 1)]);
}

#[test]
fn bfs_from_far_off_the_board_finds_nothing() {
    let b = board(&["...", "...", "..."]);
    assert!(bfs(10, 1, 0, 1, &b).is_empty());
}

#[test]
fn nearest_walkable_from_off_the_board() {
    let b = board(&["...", "..."]);
    assert_eq!(nearest_walkable(4, 1, &b), (1, 1));
    assert_eq!(nearest_walkable(0, 5, &b), (0, 0));
    let walls = board(&["###"]);
    assert_eq!(nearest_walkable(3, 0, &walls), (3, 0));
}

#[test]
fn route_from_off_the_board() {
    let b = board(&["...", "..."]);
    let (end, steps) = route_cells(&b, (2, 0), (0, 0));
    assert_eq!(end, (0, 0));
    assert_eq!(
        steps,
        vec![RouteStep { cell: (1, 0), wraps: false }, RouteStep { cell: (0, 0), wraps: false }]
    );
}

#[test]
fn entering_cells() {
    let b = board(&["#.#", "...", "#.#"]);
    // Rows count upwards: "up" from row 1 is row 2.
    assert!(can_enter(&b, 1, 1, Direction::Up));
    assert!(can_enter(&b, 1, 1, Direction::Down));
    assert!(can_enter(&b, 1, 0, Direction::Left));
    assert!(!can_enter(&b, 1, 0, Direction::Up));
    assert!(!can_enter(&b, 2, 1, Direction::Up));
    assert!(!can_enter(&b, 0, 1, Direction::Down));
}

#[test]
fn bfs_among_equal_routes_tries_down_before_right() {
    let b = board(&["....", "....", "....", "...."]);
    assert_eq!(bfs(1, 1, 2, 2, &b), vec![(2, 1), (2, 2)]);
}

#[test]
fn bfs_among_equal_routes_tries_up_before_left() {
    let b = board(&["....", "....", "....", "...."]);
    assert_eq!(bfs(2, 2, 1, 1, &b), vec![(1, 2), (1, 1)]);
}

#[test]
fn nearest_walkable_among_equal_cells_tries_up_first() {
    let b = board(&["....", ".##.", "...."]);
    assert_eq!(nearest_walkable(1, 2, &b), (0, 2));
}

#[test]
fn nearest_walkable_among_equal_cells_tries_left_before_right() {
    let b = board(&["####", "#...", "####"]);
    assert_eq!(nearest_walkable(1, 0, &b), (1, 3));
}
