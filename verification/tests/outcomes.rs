use minesweeper::board::{get_tile, set_tile};
use minesweeper::interact::tile_interaction;
use minesweeper::{Board, Bomb, CurrentGame, Point, Tile, BOMBS, HEIGHT, WIDTH};

/// Mines in columns 25 to 29 and in column 23, and three more at the top of
/// column 24.
fn walled_points() -> [Point; BOMBS] {
    let mut points: Vec<Point> = Vec::new();
    for y in 0..16i32 {
        for x in 25..30i32 {
            points.push(Point(x, y));
        }
        points.push(Point(23, y));
    }
    for y in 0..3i32 {
        points.push(Point(24, y));
    }
    points.try_into().unwrap()
}

fn rows(grid: &[[Tile; WIDTH]; HEIGHT]) -> Vec<Vec<Tile>> {
    grid.iter().map(|row| row.to_vec()).collect()
}

fn tally(grid: &[[Tile; WIDTH]; HEIGHT], wanted: fn(&Tile) -> bool) -> usize {
    grid.iter().flatten().filter(|tile| wanted(tile)).count()
}

fn is_mine(tile: &Tile) -> bool {
    tile.bomb == Bomb::IsBomb
}

fn is_revealed(tile: &Tile) -> bool {
    tile.revealed
}

fn is_flagged(tile: &Tile) -> bool {
    tile.flagged
}

fn mines_of(board: &Board) -> Vec<[i32; 2]> {
    let mut mines: Vec<[i32; 2]> = Vec::new();
    for (y, row) in board.board.iter().enumerate() {
        for (x, tile) in row.iter().enumerate() {
            if tile.bomb == Bomb::IsBomb {
                mines.push([x as i32, y as i32]);
            }
        }
    }
    mines
}

fn safe_tiles_of(board: &Board) -> Vec<[i32; 2]> {
    let mut safe: Vec<[i32; 2]> = Vec::new();
    for (y, row) in board.board.iter().enumerate() {
        for (x, tile) in row.iter().enumerate() {
            if tile.bomb != Bomb::IsBomb {
                safe.push([x as i32, y as i32]);
            }
        }
    }
    safe
}

#[test]
fn flagging_every_mine_wins_with_no_mine_left() {
    let mut board = Board::with_bombs(walled_points());
    let mines = mines_of(&board);
    assert_eq!(mines.len(), 99);
    for (done, mine) in mines.iter().enumerate() {
        assert_eq!(board.state, CurrentGame::Ongoing);
        assert_eq!(board.bombs, 99 - done as i32);
        tile_interaction(&mut board, "right".to_string(), *mine).unwrap();
    }
    assert_eq!(board.bombs, 0);
    assert_eq!(board.state, CurrentGame::Win);
    assert_eq!(tally(&board.board, is_revealed), 0);
}

#[test]
fn flagging_every_mine_of_a_generated_board_wins() {
    let mut board = Board::default();
    board.generate_board();
    for mine in mines_of(&board) {
        board.flag_tile(mine);
    }
    board.check_game_state();
    assert_eq!(board.bombs, 0);
    assert_eq!(board.state, CurrentGame::Win);
}

#[test]
fn revealing_every_safe_tile_wins() {
    let mut board = Board::with_bombs(walled_points());
    tile_interaction(&mut board, "left".to_string(), [0, 0]).unwrap();
    assert_eq!(board.state, CurrentGame::Ongoing);
    for y in 3..16i32 {
        assert_eq!(board.state, CurrentGame::Ongoing);
        tile_interaction(&mut board, "left".to_string(), [24, y]).unwrap();
    }
    assert_eq!(tally(&board.board, is_revealed), 381);
    assert_eq!(board.state, CurrentGame::Win);
    assert_eq!(board.bombs, 99);
}

#[test]
fn revealing_every_safe_tile_of_a_generated_board_wins() {
    let mut board = Board::default();
    board.generate_board();
    for tile in safe_tiles_of(&board) {
        board.reveal_tile(tile);
    }
    board.check_game_state();
    assert_eq!(board.state, CurrentGame::Win);
    assert_eq!(board.bombs, 99);
}

#[test]
fn revealing_a_mine_loses() {
    let mut board = Board::with_bombs(walled_points());
    tile_interaction(&mut board, "left".to_string(), [23, 5]).unwrap();
    assert_eq!(board.state, CurrentGame::Lose);
    assert_eq!(board.bombs, 99);
}

#[test]
fn revealed_mine_loses_whatever_else_holds() {
    let mut board = Board::with_bombs(walled_points());
    let mines = mines_of(&board);
    for mine in mines.iter().skip(1) {
        board.flag_tile(*mine);
    }
    for tile in safe_tiles_of(&board) {
        board.reveal_tile(tile);
    }
    board.reveal_tile(mines[0]);
    board.check_game_state();
    assert_eq!(board.state, CurrentGame::Lose);
    assert_eq!(board.bombs, 1);

    let mut won = Board::with_bombs(walled_points());
    for mine in mines.iter() {
        won.flag_tile(*mine);
    }
    let open_mine = Tile { bomb: Bomb::IsBomb, revealed: true, flagged: true };
    set_tile(&mut won.board, 23, 0, open_mine);
    won.check_game_state();
    assert_eq!(won.state, CurrentGame::Lose);
    assert_eq!(won.bombs, 0);
}

#[test]
fn flag_on_a_safe_tile_prevents_the_win() {
    let mut board = Board::with_bombs(walled_points());
    let mines = mines_of(&board);
    for mine in mines.iter().skip(1) {
        board.flag_tile(*mine);
    }
    board.flag_tile([0, 0]);
    board.check_game_state();
    assert_eq!(tally(&board.board, is_flagged), 99);
    assert_eq!(board.bombs, 0);
    assert_eq!(board.state, CurrentGame::Ongoing);
    board.flag_tile(mines[0]);
    board.check_game_state();
    assert_eq!(board.bombs, -1);
    assert_eq!(board.state, CurrentGame::Ongoing);
    board.flag_tile([0, 0]);
    board.check_game_state();
    assert_eq!(board.bombs, 0);
    assert_eq!(board.state, CurrentGame::Win);
}

#[test]
fn flag_on_a_hidden_safe_tile_prevents_the_win_by_reveals() {
    let mut board = Board::with_bombs(walled_points());
    board.flag_tile([24, 15]);
    for tile in safe_tiles_of(&board) {
        board.reveal_tile(tile);
    }
    board.check_game_state();
    assert_eq!(tally(&board.board, is_revealed), 380);
    assert_eq!(board.state, CurrentGame::Ongoing);
    assert_eq!(board.bombs, 98);
}

#[test]
fn counter_is_the_mines_less_the_flags() {
    let mut board = Board::with_bombs(walled_points());
    board.check_game_state();
    assert_eq!(board.bombs, 99);
    board.flag_tile([0, 0]);
    board.flag_tile([23, 0]);
    board.flag_tile([10, 10]);
    board.check_game_state();
    assert_eq!(board.bombs, 96);
    for tile in safe_tiles_of(&board) {
        if !get_tile(&board.board, tile[0] as usize, tile[1] as usize).flagged {
            board.flag_tile(tile);
        }
    }
    board.check_game_state();
    assert_eq!(tally(&board.board, is_flagged), 382);
    assert_eq!(board.bombs, -283);
    assert_eq!(board.state, CurrentGame::Ongoing);
}

#[test]
fn evaluation_keeps_the_state_while_nothing_is_decided() {
    let mut board = Board::with_bombs(walled_points());
    board.check_game_state();
    assert_eq!(board.state, CurrentGame::Ongoing);
    board.state = CurrentGame::Starting;
    board.reveal_tile([0, 0]);
    board.check_game_state();
    assert_eq!(board.state, CurrentGame::Starting);
    board.state = CurrentGame::Win;
    board.check_game_state();
    assert_eq!(board.state, CurrentGame::Win);
    board.state = CurrentGame::Lose;
    board.check_game_state();
    assert_eq!(board.state, CurrentGame::Lose);
}

#[test]
fn loss_comes_before_a_win() {
    let mut board = Board::with_bombs(walled_points());
    for tile in safe_tiles_of(&board) {
        board.reveal_tile(tile);
    }
    board.check_game_state();
    assert_eq!(board.state, CurrentGame::Win);
    board.reveal_tile([29, 15]);
    board.check_game_state();
    assert_eq!(board.state, CurrentGame::Lose);
}

#[test]
fn evaluation_leaves_the_grid_and_the_score() {
    let mut board = Board::with_bombs(walled_points());
    board.score = 3;
    board.reveal_tile([0, 0]);
    board.flag_tile([24, 7]);
    let before = rows(&board.board);
    board.check_game_state();
    assert_eq!(rows(&board.board), before);
    assert_eq!(board.score, 3);
    assert_eq!(board.bombs, 98);
}
