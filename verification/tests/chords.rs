use minesweeper::board::get_tile;
use minesweeper::chord::flags_around;
use minesweeper::interact::tile_interaction;
use minesweeper::{Board, Bomb, CurrentGame, Point, Tile, BOMBS, HEIGHT, WIDTH};

/// Mines in columns 25 to 29 and in column 23, and three more at the top of
/// column 24.
fn walled_points() -> [Point; BOMBS] {
    let mut points: Vec<Point> = Vec::new();
    for y in 0..16i32 {
        for x in 25..30i32 {
            points.push(Point(x, y));
        }
        points.push(Point(23, y));
    }
    for y in 0..3i32 {
        points.push(Point(24, y));
    }
    points.try_into().unwrap()
}

/// One mine at (2, 2), mines in columns 24 to 29, and two more at the
/// bottom of column 22.
fn lone_points() -> [Point; BOMBS] {
    let mut points: Vec<Point> = vec![Point(2, 2), Point(22, 14), Point(22, 15)];
    for y in 0..16i32 {
        for x in 24..30i32 {
            points.push(Point(x, y));
        }
    }
    points.try_into().unwrap()
}

fn rows(grid: &[[Tile; WIDTH]; HEIGHT]) -> Vec<Vec<Tile>> {
    grid.iter().map(|row| row.to_vec()).collect()
}

fn tally(grid: &[[Tile; WIDTH]; HEIGHT], wanted: fn(&Tile) -> bool) -> usize {
    grid.iter().flatten().filter(|tile| wanted(tile)).count()
}

fn is_mine(tile: &Tile) -> bool {
    tile.bomb == Bomb::IsBomb
}

fn is_revealed(tile: &Tile) -> bool {
    tile.revealed
}

fn is_flagged(tile: &Tile) -> bool {
    tile.flagged
}

fn is_open_mine(tile: &Tile) -> bool {
    tile.revealed && tile.bomb == Bomb::IsBomb
}

fn is_hidden_safe(tile: &Tile) -> bool {
    !tile.revealed && tile.bomb != Bomb::IsBomb
}

#[test]
fn lone_layout_has_the_numbers_expected() {
    let board = Board::with_bombs(lone_points());
    assert_eq!(tally(&board.board, is_mine), 99);
    assert_eq!(get_tile(&board.board, 1, 1).bomb, Bomb::Bombs(1));
    assert_eq!(get_tile(&board.board, 3, 3).bomb, Bomb::Bombs(1));
    assert_eq!(get_tile(&board.board, 2, 1).bomb, Bomb::Bombs(1));
    assert_eq!(get_tile(&board.board, 0, 0).bomb, Bomb::Bombs(0));
    assert_eq!(get_tile(&board.board, 23, 0).bomb, Bomb::Bombs(2));
    assert_eq!(get_tile(&board.board, 23, 13).bomb, Bomb::Bombs(4));
    assert_eq!(get_tile(&board.board, 23, 14).bomb, Bomb::Bombs(5));
    assert_eq!(get_tile(&board.board, 21, 13).bomb, Bomb::Bombs(1));
    assert_eq!(get_tile(&board.board, 21, 15).bomb, Bomb::Bombs(2));
}

#[test]
fn chord_with_too_few_flags_reveals_nothing() {
    let mut board = Board::with_bombs(lone_points());
    board.reveal_tile([1, 1]);
    let before = rows(&board.board);
    board.reveal_surrounding_tiles([1, 1]);
    assert_eq!(rows(&board.board), before);
    assert_eq!(tally(&board.board, is_revealed), 1);
}

#[test]
fn chord_with_too_many_flags_reveals_nothing() {
    let mut board = Board::with_bombs(lone_points());
    board.reveal_tile([1, 1]);
    board.flag_tile([2, 2]);
    board.flag_tile([0, 0]);
    let before = rows(&board.board);
    board.reveal_surrounding_tiles([1, 1]);
    assert_eq!(rows(&board.board), before);
    assert_eq!(tally(&board.board, is_revealed), 1);
    assert_eq!(tally(&board.board, is_flagged), 2);
}

#[test]
fn chord_with_matching_flags_opens_the_neighbours() {
    let mut board = Board::with_bombs(lone_points());
    board.reveal_tile([1, 1]);
    board.flag_tile([2, 2]);
    let grid = board.reveal_surrounding_tiles([1, 1]);
    assert_eq!(rows(&grid), rows(&board.board));
    for tile in [[0, 0], [1, 0], [2, 0], [0, 1], [2, 1], [0, 2], [1, 2]] {
        assert!(get_tile(&board.board, tile[0], tile[1]).revealed);
    }
    assert_eq!(
        get_tile(&board.board, 2, 2),
        Tile { bomb: Bomb::IsBomb, revealed: false, flagged: true }
    );
    // The corner has no mine around it, so the chord runs on from there.
    assert_eq!(tally(&board.board, is_revealed), 379);
    assert_eq!(tally(&board.board, is_flagged), 1);
    assert_eq!(tally(&board.board, is_open_mine), 0);
    assert_eq!(tally(&board.board, is_hidden_safe), 2);
    assert!(!get_tile(&board.board, 23, 14).revealed);
    assert!(!get_tile(&board.board, 23, 15).revealed);
    assert_eq!(board.state, CurrentGame::Ongoing);
    assert_eq!(board.bombs, 99);
}

#[test]
fn chord_with_a_misplaced_flag_reveals_the_mine() {
    let mut board = Board::with_bombs(lone_points());
    board.reveal_tile([1, 1]);
    board.flag_tile([1, 2]);
    board.reveal_surrounding_tiles([1, 1]);
    assert_eq!(
        get_tile(&board.board, 2, 2),
        Tile { bomb: Bomb::IsBomb, revealed: true, flagged: false }
    );
    assert_eq!(
        get_tile(&board.board, 1, 2),
        Tile { bomb: Bomb::Bombs(1), revealed: false, flagged: true }
    );
    assert_eq!(tally(&board.board, is_revealed), 379);
    assert_eq!(tally(&board.board, is_open_mine), 1);
    assert_eq!(tally(&board.board, is_flagged), 1);
}

#[test]
fn chord_with_a_misplaced_flag_loses_the_game() {
    let mut board = Board::with_bombs(lone_points());
    tile_interaction(&mut board, "left".to_string(), [1, 1]).unwrap();
    tile_interaction(&mut board, "right".to_string(), [1, 2]).unwrap();
    assert_eq!(board.state, CurrentGame::Ongoing);
    assert_eq!(board.bombs, 98);
    tile_interaction(&mut board, "middle".to_string(), [1, 1]).unwrap();
    assert_eq!(board.state, CurrentGame::Lose);
    assert_eq!(board.bombs, 98);
}

#[test]
fn chord_on_a_hidden_tile_does_nothing() {
    let mut board = Board::with_bombs(lone_points());
    board.flag_tile([2, 2]);
    let before = rows(&board.board);
    board.reveal_surrounding_tiles([1, 1]);
    assert_eq!(rows(&board.board), before);
}

#[test]
fn chord_on_a_flagged_tile_does_nothing() {
    let mut board = Board::with_bombs(lone_points());
    board.flag_tile([1, 1]);
    board.flag_tile([2, 2]);
    let before = rows(&board.board);
    board.reveal_surrounding_tiles([1, 1]);
    assert_eq!(rows(&board.board), before);
}

#[test]
fn chord_on_a_tile_without_mines_around_it_does_nothing() {
    let mut board = Board::with_bombs(lone_points());
    board.reveal_tile([0, 0]);
    let before = rows(&board.board);
    assert!(get_tile(&board.board, 10, 10).revealed);
    board.reveal_surrounding_tiles([10, 10]);
    board.reveal_surrounding_tiles([0, 0]);
    assert_eq!(rows(&board.board), before);
}

#[test]
fn chord_on_a_revealed_mine_does_nothing() {
    let mut board = Board::with_bombs(lone_points());
    board.reveal_tile([2, 2]);
    let before = rows(&board.board);
    board.reveal_surrounding_tiles([2, 2]);
    assert_eq!(rows(&board.board), before);
}

#[test]
fn chord_opens_numbered_neighbours_and_runs_on_from_the_others() {
    let mut board = Board::with_bombs(walled_points());
    board.reveal_tile([22, 5]);
    board.flag_tile([23, 4]);
    board.flag_tile([23, 5]);
    board.flag_tile([23, 6]);
    board.reveal_surrounding_tiles([22, 5]);
    assert!(get_tile(&board.board, 22, 4).revealed);
    assert!(get_tile(&board.board, 22, 6).revealed);
    assert!(get_tile(&board.board, 21, 5).revealed);
    assert!(get_tile(&board.board, 0, 15).revealed);
    assert_eq!(tally(&board.board, is_revealed), 368);
    assert_eq!(tally(&board.board, is_flagged), 3);
    assert_eq!(tally(&board.board, is_open_mine), 0);
}

#[test]
fn chord_at_the_corner_sees_three_neighbours() {
    let mut points = lone_points();
    points[0] = Point(1, 1);
    let mut board = Board::with_bombs(points);
    assert_eq!(get_tile(&board.board, 0, 0).bomb, Bomb::Bombs(1));
    board.reveal_tile([0, 0]);
    board.flag_tile([1, 1]);
    board.reveal_surrounding_tiles([0, 0]);
    assert!(get_tile(&board.board, 1, 0).revealed);
    assert!(get_tile(&board.board, 0, 1).revealed);
    assert!(!get_tile(&board.board, 1, 1).revealed);
    assert_eq!(tally(&board.board, is_revealed), 3);
}

#[test]
fn flags_around_counts_the_flags_next_to_a_tile() {
    let mut board = Board::with_bombs(lone_points());
    assert_eq!(flags_around(&board.board, 1, 1), 0);
    board.flag_tile([2, 2]);
    board.flag_tile([0, 0]);
    board.flag_tile([1, 0]);
    board.flag_tile([1, 1]);
    board.flag_tile([3, 1]);
    assert_eq!(flags_around(&board.board, 1, 1), 3);
    assert_eq!(flags_around(&board.board, 0, 0), 2);
    assert_eq!(flags_around(&board.board, 2, 1), 4);
    assert_eq!(flags_around(&board.board, 29, 15), 0);
    for tile in [[4, 4], [5, 4], [6, 4], [4, 5], [6, 5], [4, 6], [5, 6], [6, 6]] {
        board.flag_tile(tile);
    }
    assert_eq!(flags_around(&board.board, 5, 5), 8);
}
