use minesweeper::board::get_tile;
use minesweeper::interact::{generate_board, tile_interaction};
use minesweeper::{Board, BoardState, Bomb, CurrentGame, Point, Tile, BOMBS, HEIGHT, WIDTH};
use std::sync::Mutex;

/// Mines in columns 25 to 29 and in column 23, and three more at the top of
/// column 24.
fn walled_points() -> [Point; BOMBS] {
    let mut points: Vec<Point> = Vec::new();
    for y in 0..16i32 {
        for x in 25..30i32 {
            points.push(Point(x, y));
        }
        points.push(Point(23, y));
    }
    for y in 0..3i32 {
        points.push(Point(24, y));
    }
    points.try_into().unwrap()
}

fn rows(grid: &[[Tile; WIDTH]; HEIGHT]) -> Vec<Vec<Tile>> {
    grid.iter().map(|row| row.to_vec()).collect()
}

fn tally(grid: &[[Tile; WIDTH]; HEIGHT], wanted: fn(&Tile) -> bool) -> usize {
    grid.iter().flatten().filter(|tile| wanted(tile)).count()
}

fn is_mine(tile: &Tile) -> bool {
    tile.bomb == Bomb::IsBomb
}

fn is_revealed(tile: &Tile) -> bool {
    tile.revealed
}

fn is_flagged(tile: &Tile) -> bool {
    tile.flagged
}

#[test]
fn left_reveals() {
    let mut board = Board::with_bombs(walled_points());
    board.handle_interaction("left".to_string(), [22, 5]);
    assert_eq!(tally(&board.board, is_revealed), 1);
    assert!(get_tile(&board.board, 22, 5).revealed);
    board.handle_interaction("left".to_string(), [0, 0]);
    assert_eq!(tally(&board.board, is_revealed), 368);
}

#[test]
fn right_toggles_the_flag() {
    let mut board = Board::with_bombs(walled_points());
    board.handle_interaction("right".to_string(), [22, 5]);
    assert_eq!(
        get_tile(&board.board, 22, 5),
        Tile { bomb: Bomb::Bombs(3), revealed: false, flagged: true }
    );
    assert_eq!(tally(&board.board, is_flagged), 1);
    board.handle_interaction("right".to_string(), [22, 5]);
    assert_eq!(
        get_tile(&board.board, 22, 5),
        Tile { bomb: Bomb::Bombs(3), revealed: false, flagged: false }
    );
    assert_eq!(tally(&board.board, is_flagged), 0);
}

#[test]
fn middle_reveals_the_tiles_around() {
    let mut board = Board::with_bombs(walled_points());
    board.handle_interaction("left".to_string(), [22, 5]);
    board.handle_interaction("right".to_string(), [23, 4]);
    board.handle_interaction("right".to_string(), [23, 5]);
    board.handle_interaction("middle".to_string(), [22, 5]);
    assert_eq!(tally(&board.board, is_revealed), 1);
    board.handle_interaction("right".to_string(), [23, 6]);
    board.handle_interaction("middle".to_string(), [22, 5]);
    assert_eq!(tally(&board.board, is_revealed), 368);
}

#[test]
fn other_words_do_nothing() {
    let mut board = Board::with_bombs(walled_points());
    board.reveal_tile([22, 5]);
    let before = rows(&board.board);
    for word in ["", "LEFT", "Left", "left ", "lef", "double", "middle-click", "rightt"] {
        board.handle_interaction(word.to_string(), [0, 0]);
        board.handle_interaction(word.to_string(), [22, 5]);
        assert_eq!(rows(&board.board), before);
        let snapshot = tile_interaction(&mut board, word.to_string(), [23, 5]).unwrap();
        assert_eq!(rows(&snapshot.board), before);
        assert_eq!(snapshot.state, CurrentGame::Ongoing);
        assert_eq!(snapshot.bombs, 99);
    }
}

#[test]
fn handle_interaction_does_not_evaluate() {
    let mut board = Board::with_bombs(walled_points());
    board.handle_interaction("left".to_string(), [23, 5]);
    assert!(get_tile(&board.board, 23, 5).revealed);
    assert_eq!(board.state, CurrentGame::Ongoing);
    board.handle_interaction("right".to_string(), [0, 0]);
    assert_eq!(board.bombs, 99);
}

#[test]
fn flag_on_a_revealed_tile_does_nothing() {
    let mut board = Board::with_bombs(walled_points());
    board.reveal_tile([0, 0]);
    let before = rows(&board.board);
    let grid = board.flag_tile([0, 0]);
    assert_eq!(rows(&grid), before);
    board.flag_tile([22, 5]);
    assert_eq!(rows(&board.board), before);
    assert_eq!(tally(&board.board, is_flagged), 0);
    let snapshot = tile_interaction(&mut board, "right".to_string(), [10, 3]).unwrap();
    assert_eq!(rows(&snapshot.board), before);
    assert_eq!(snapshot.bombs, 99);
}

#[test]
fn flag_twice_gives_the_grid_back() {
    let mut board = Board::with_bombs(walled_points());
    let before = rows(&board.board);
    let grid = board.flag_tile([29, 15]);
    assert_eq!(rows(&grid), rows(&board.board));
    assert_eq!(
        get_tile(&board.board, 29, 15),
        Tile { bomb: Bomb::IsBomb, revealed: false, flagged: true }
    );
    assert_eq!(tally(&board.board, is_flagged), 1);
    board.flag_tile([29, 15]);
    assert_eq!(rows(&board.board), before);
}

#[test]
fn flag_leaves_state_counter_and_score() {
    let mut board = Board::with_bombs(walled_points());
    board.score = 4;
    board.flag_tile([3, 3]);
    assert_eq!(board.state, CurrentGame::Ongoing);
    assert_eq!(board.bombs, 99);
    assert_eq!(board.score, 4);
}

#[test]
fn interaction_counts_the_flags() {
    let mut board = Board::with_bombs(walled_points());
    let first = tile_interaction(&mut board, "right".to_string(), [3, 3]).unwrap();
    assert_eq!(first.bombs, 98);
    let second = tile_interaction(&mut board, "right".to_string(), [23, 3]).unwrap();
    assert_eq!(second.bombs, 97);
    let third = tile_interaction(&mut board, "right".to_string(), [3, 3]).unwrap();
    assert_eq!(third.bombs, 98);
    assert_eq!(third.state, CurrentGame::Ongoing);
    assert_eq!(board.bombs, 98);
}

#[test]
fn interaction_hands_out_the_board_as_it_is() {
    let mut board = Board::with_bombs(walled_points());
    board.score = 9;
    let snapshot = tile_interaction(&mut board, "left".to_string(), [0, 0]).unwrap();
    assert_eq!(rows(&snapshot.board), rows(&board.board));
    assert_eq!(snapshot.state, board.state);
    assert_eq!(snapshot.bombs, board.bombs);
    assert_eq!(snapshot.score, 9);
}

#[test]
fn nothing_changes_after_a_loss() {
    let mut board = Board::with_bombs(walled_points());
    tile_interaction(&mut board, "right".to_string(), [1, 1]).unwrap();
    tile_interaction(&mut board, "left".to_string(), [23, 5]).unwrap();
    assert_eq!(board.state, CurrentGame::Lose);
    let before = rows(&board.board);
    for word in ["left", "middle", "right", "other"] {
        for tile in [[0, 0], [1, 1], [22, 5], [23, 5], [29, 15]] {
            let snapshot = tile_interaction(&mut board, word.to_string(), tile).unwrap();
            assert_eq!(rows(&snapshot.board), before);
            assert_eq!(snapshot.state, CurrentGame::Lose);
            assert_eq!(snapshot.bombs, 98);
        }
    }
    assert_eq!(rows(&board.board), before);
}

#[test]
fn nothing_changes_after_a_win() {
    let mut board = Board::with_bombs(walled_points());
    for point in walled_points() {
        tile_interaction(&mut board, "right".to_string(), [point.0, point.1]).unwrap();
    }
    assert_eq!(board.state, CurrentGame::Win);
    assert_eq!(board.bombs, 0);
    let before = rows(&board.board);
    for word in ["left", "middle", "right"] {
        for tile in [[0, 0], [23, 5], [24, 0], [24, 9]] {
            let snapshot = tile_interaction(&mut board, word.to_string(), tile).unwrap();
            assert_eq!(rows(&snapshot.board), before);
            assert_eq!(snapshot.state, CurrentGame::Win);
            assert_eq!(snapshot.bombs, 0);
        }
    }
}

#[test]
fn generate_board_hands_out_the_new_game() {
    let mut board = Board::default();
    let snapshot = generate_board(&mut board);
    assert_eq!(snapshot.state, CurrentGame::Ongoing);
    assert_eq!(snapshot.bombs, 99);
    assert_eq!(rows(&snapshot.board), rows(&board.board));
    assert_eq!(tally(&board.board, is_mine), 99);
    assert_eq!(tally(&board.board, is_revealed), 0);
    assert_eq!(tally(&board.board, is_flagged), 0);
    tile_interaction(&mut board, "left".to_string(), [0, 0]).unwrap();
    let again = generate_board(&mut board);
    assert_eq!(again.state, CurrentGame::Ongoing);
    assert_eq!(tally(&again.board, is_revealed), 0);
}

#[test]
fn get_board_gives_the_board() {
    let mut board = Board::with_bombs(walled_points());
    board.reveal_tile([0, 0]);
    board.score = 2;
    let copy = board.get_board();
    assert_eq!(rows(&copy.board), rows(&board.board));
    assert_eq!(copy.state, board.state);
    assert_eq!(copy.bombs, board.bombs);
    assert_eq!(copy.score, 2);
}

#[test]
fn board_state_takes_interactions_in_turn() {
    let shared = BoardState(Mutex::new(Board::default()));
    {
        let mut board = shared.0.lock().unwrap();
        *board = Board::with_bombs(walled_points());
    }
    {
        let mut board = shared.0.lock().unwrap();
        tile_interaction(&mut board, "right".to_string(), [23, 0]).unwrap();
    }
    let board = shared.0.lock().unwrap();
    assert_eq!(board.bombs, 98);
    assert_eq!(board.state, CurrentGame::Ongoing);
    assert!(get_tile(&board.board, 23, 0).flagged);
}
