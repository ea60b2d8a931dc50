use twenty_forty_eight::board::Direction;
use twenty_forty_eight::game::{Game, GameStatus};
use twenty_forty_eight::line::merge_line;

fn set_row(game: &mut Game, row_n: usize, row: [Option<u32>; 4]) {
    for (c, val) in row.into_iter().enumerate() {
        game.board[row_n * 4 + c] = val;
    }
}

fn set_col(game: &mut Game, col_n: usize, col: [Option<u32>; 4]) {
    for (r, val) in col.into_iter().enumerate() {
        game.board[r * 4 + col_n] = val;
    }
}

fn get_row(game: &Game, row_n: usize) -> [Option<u32>; 4] {
    let mut result = [None; 4];
    for (c, slot) in result.iter_mut().enumerate() {
        *slot = game.board[row_n * 4 + c];
    }
    result
}

fn get_col(game: &mut Game, col_n: usize) -> [Option<u32>; 4] {
    let mut result = [None; 4];
    for (r, slot) in result.iter_mut().enumerate() {
        *slot = game.board[r * 4 + col_n];
    }
    result
}

fn count_filled(game: &Game) -> usize {
    game.board.iter().filter(|c| c.is_some()).count()
}

fn board_sum(game: &Game) -> u64 {
    game.board.iter().flatten().map(|&v| v as u64).sum()
}

#[test]
fn move_left() {
    let mut game = Game::new();

    set_row(&mut game, 0, [Some(2), Some(2), Some(2), Some(2)]);
    assert_eq!(game.move_left(), (4, true));
    assert_eq!(get_row(&game, 0), [Some(4), Some(4), None, None]);

    set_row(&mut game, 0, [Some(2), None, None, Some(2)]);
    assert_eq!(game.move_left(), (4, true));
    assert_eq!(get_row(&game, 0), [Some(4), None, None, None]);

    set_row(&mut game, 0, [Some(2), Some(2), Some(4), Some(4)]);
    assert_eq!(game.move_left(), (8, true));
    assert_eq!(get_row(&game, 0), [Some(4), Some(8), None, None]);

    set_row(&mut game, 0, [Some(2), None, Some(2), Some(4)]);
    assert_eq!(game.move_left(), (4, true));
    assert_eq!(get_row(&game, 0), [Some(4), Some(4), None, None]);

    set_row(&mut game, 0, [Some(2), Some(4), Some(8), Some(16)]);
    assert_eq!(game.move_left(), (16, false));
    assert_eq!(get_row(&game, 0), [Some(2), Some(4), Some(8), Some(16)]);
}

#[test]
fn move_right() {
    let mut game = Game::new();

    set_row(&mut game, 0, [Some(2), Some(2), Some(2), Some(2)]);
    assert_eq!(game.move_right(), (4, true));
    assert_eq!(get_row(&game, 0), [None, None, Some(4), Some(4)]);

    set_row(&mut game, 0, [Some(2), None, None, Some(2)]);
    assert_eq!(game.move_right(), (4, true));
    assert_eq!(get_row(&game, 0), [None, None, None, Some(4)]);

    set_row(&mut game, 0, [Some(4), Some(4), Some(2), Some(2)]);
    assert_eq!(game.move_right(), (8, true));
    assert_eq!(get_row(&game, 0), [None, None, Some(8), Some(4)]);

    set_row(&mut game, 0, [Some(2), None, Some(2), Some(4)]);
    assert_eq!(game.move_right(), (4, true));
    assert_eq!(get_row(&game, 0), [None, None, Some(4), Some(4)]);

    set_row(&mut game, 0, [Some(2), Some(4), Some(8), Some(16)]);
    assert_eq!(game.move_right(), (16, false));
    assert_eq!(get_row(&game, 0), [Some(2), Some(4), Some(8), Some(16)]);
}

#[test]
fn move_up() {
    let mut game = Game::new();

    set_col(&mut game, 0, [Some(2), Some(2), Some(2), Some(2)]);
    assert_eq!(game.move_up(), (4, true));
    assert_eq!(get_col(&mut game, 0), [Some(4), Some(4), None, None]);

    set_col(&mut game, 0, [Some(2), None, None, Some(2)]);
    assert_eq!(game.move_up(), (4, true));
    assert_eq!(get_col(&mut game, 0), [Some(4), None, None, None]);

    set_col(&mut game, 0, [Some(2), Some(2), Some(4), Some(4)]);
    assert_eq!(game.move_up(), (8, true));
    assert_eq!(get_col(&mut game, 0), [Some(4), Some(8), None, None]);

    set_col(&mut game, 0, [Some(2), None, Some(2), Some(4)]);
    assert_eq!(game.move_up(), (4, true));
    assert_eq!(get_col(&mut game, 0), [Some(4), Some(4), None, None]);

    set_col(&mut game, 0, [Some(2), Some(4), Some(8), Some(16)]);
    assert_eq!(game.move_up(), (16, false));
    assert_eq!(get_col(&mut game, 0), [Some(2), Some(4), Some(8), Some(16)]);
}

#[test]
fn move_down() {
    let mut game = Game::new();

    set_col(&mut game, 0, [Some(2), Some(2), Some(2), Some(2)]);
    assert_eq!(game.move_down(), (4, true));
    assert_eq!(get_col(&mut game, 0), [None, None, Some(4), Some(4)]);

    set_col(&mut game, 0, [Some(2), None, None, Some(2)]);
    assert_eq!(game.move_down(), (4, true));
    assert_eq!(get_col(&mut game, 0), [None, None, None, Some(4)]);

    set_col(&mut game, 0, [Some(4), Some(4), Some(2), Some(2)]);
    assert_eq!(game.move_down(), (8, true));
    assert_eq!(get_col(&mut game, 0), [None, None, Some(8), Some(4)]);

    set_col(&mut game, 0, [Some(2), None, Some(2), Some(4)]);
    assert_eq!(game.move_down(), (4, true));
    assert_eq!(get_col(&mut game, 0), [None, None, Some(4), Some(4)]);

    set_col(&mut game, 0, [Some(2), Some(4), Some(8), Some(16)]);
    assert_eq!(game.move_down(), (16, false));
    assert_eq!(get_col(&mut game, 0), [Some(2), Some(4), Some(8), Some(16)]);
}

#[test]
fn sweep_four_equal_merges_two_pairs() {
    let line = vec![Some(2), Some(2), Some(2), Some(2)];
    let r = merge_line(&line);
    assert_eq!(r.cells, vec![Some(4), Some(4), None, None]);
    assert_eq!(r.delta, 8);
    assert!(r.changed);
    assert_eq!(r.max_tile, 4);
}

#[test]
fn sweep_toward_back_mirrors_front() {
    let mut game = Game::new();
    set_row(&mut game, 2, [Some(2), Some(2), Some(2), Some(2)]);
    assert_eq!(game.move_right(), (4, true));
    assert_eq!(get_row(&game, 2), [None, None, Some(4), Some(4)]);
}

#[test]
fn sweep_triple_merges_only_first_pair() {
    let line = vec![Some(2), Some(2), Some(2), None];
    let r = merge_line(&line);
    assert_eq!(r.cells, vec![Some(4), Some(2), None, None]);
    assert_eq!(r.delta, 4);
    assert!(r.changed);
    assert_eq!(r.max_tile, 4);
}

#[test]
fn sweep_merges_across_gap() {
    let line = vec![Some(2), None, Some(2), Some(4)];
    let r = merge_line(&line);
    assert_eq!(r.cells, vec![Some(4), Some(4), None, None]);
    assert_eq!(r.delta, 4);
    assert!(r.changed);
    assert_eq!(r.max_tile, 4);
}

#[test]
fn sweep_of_packed_distinct_line_is_noop() {
    let line = vec![Some(2), Some(4), Some(8), Some(16)];
    let r = merge_line(&line);
    assert_eq!(r.cells, line);
    assert_eq!(r.delta, 0);
    assert!(!r.changed);
    assert_eq!(r.max_tile, 16);
}

#[test]
fn merge_result_cannot_merge_again_in_one_sweep() {
    let line = vec![Some(2), Some(2), Some(4), None];
    let r = merge_line(&line);
    assert_eq!(r.cells, vec![Some(4), Some(4), None, None]);
    assert_eq!(r.delta, 4);
}

#[test]
fn move_preserves_board_sum_and_scores_merges() {
    let mut game = Game::new();
    set_row(&mut game, 0, [Some(4), Some(4), Some(4), Some(4)]);
    set_row(&mut game, 1, [Some(2), None, Some(2), Some(8)]);
    let sum_before = board_sum(&game);
    let score_before = game.score;
    game.move_left();
    assert_eq!(board_sum(&game), sum_before);
    assert_eq!(game.score - score_before, 8 + 8 + 4);
}

#[test]
fn second_sweep_without_new_pairs_is_noop() {
    let mut game = Game::new();
    set_row(&mut game, 0, [None, Some(4), Some(2), None]);
    set_row(&mut game, 1, [Some(8), None, None, Some(16)]);
    let (_, changed1) = game.move_left();
    assert!(changed1);
    let rows: Vec<[Option<u32>; 4]> = (0..4).map(|r| get_row(&game, r)).collect();
    let score_after_first = game.score;
    let (_, changed2) = game.move_left();
    assert!(!changed2);
    let rows_again: Vec<[Option<u32>; 4]> = (0..4).map(|r| get_row(&game, r)).collect();
    assert_eq!(rows, rows_again);
    assert_eq!(game.score, score_after_first);
}

#[test]
fn winning_merge_yields_win_and_no_spawn() {
    let mut game = Game::new();
    set_row(&mut game, 0, [Some(1024), Some(1024), None, None]);
    let (status, spawned) = game.move_board(Direction::Left);
    assert_eq!(status, GameStatus::Win);
    assert!(spawned.is_none());
    assert_eq!(get_row(&game, 0), [Some(2048), None, None, None]);
    assert_eq!(count_filled(&game), 1);
    assert_eq!(game.score, 2048);
}

#[test]
fn stuck_checkerboard_yields_lost() {
    let mut game = Game::new();
    set_row(&mut game, 0, [Some(2), Some(4), Some(2), Some(4)]);
    set_row(&mut game, 1, [Some(8), Some(16), Some(8), Some(16)]);
    set_row(&mut game, 2, [Some(2), Some(4), Some(2), Some(4)]);
    set_row(&mut game, 3, [Some(8), Some(16), Some(8), Some(16)]);
    assert!(game.check_is_end());
    let (status, spawned) = game.move_board(Direction::Up);
    assert_eq!(status, GameStatus::Lost);
    assert!(spawned.is_none());
    assert_eq!(get_row(&game, 0), [Some(2), Some(4), Some(2), Some(4)]);
}

#[test]
fn board_with_empty_cell_is_not_stuck() {
    let mut game = Game::new();
    set_row(&mut game, 0, [Some(2), Some(4), Some(2), Some(4)]);
    assert!(!game.check_is_end());
}

#[test]
fn full_board_with_adjacent_pair_is_not_stuck() {
    let mut game = Game::new();
    set_row(&mut game, 0, [Some(2), Some(4), Some(2), Some(4)]);
    set_row(&mut game, 1, [Some(8), Some(16), Some(8), Some(16)]);
    set_row(&mut game, 2, [Some(2), Some(4), Some(4), Some(2)]);
    set_row(&mut game, 3, [Some(8), Some(16), Some(8), Some(16)]);
    assert!(!game.check_is_end());
}

#[test]
fn new_session_spawns_exactly_two_small_tiles() {
    let game = Game::new_session();
    assert_eq!(game.score, 0);
    assert_eq!(count_filled(&game), 2);
    for cell in game.board.iter().flatten() {
        assert!(*cell == 2 || *cell == 4);
    }
}

#[test]
fn continue_move_spawns_one_tile() {
    let mut game = Game::new();
    set_row(&mut game, 0, [Some(2), Some(2), None, None]);
    let (status, spawned) = game.move_board(Direction::Left);
    assert_eq!(status, GameStatus::Continue);
    let (r, c) = spawned.expect("a changing move on an open board spawns");
    assert!(r < 4 && c < 4);
    assert_eq!(game.board[0], Some(4));
    assert!(game.board[4 * r + c].is_some());
    assert_eq!(count_filled(&game), 2);
    assert_eq!(game.score, 4);
}

#[test]
fn unchanged_move_spawns_nothing() {
    let mut game = Game::new();
    set_row(&mut game, 0, [Some(2), Some(4), Some(8), Some(16)]);
    let (status, spawned) = game.move_board(Direction::Left);
    assert_eq!(status, GameStatus::Continue);
    assert!(spawned.is_none());
    assert_eq!(get_row(&game, 0), [Some(2), Some(4), Some(8), Some(16)]);
    assert_eq!(count_filled(&game), 4);
    assert_eq!(game.score, 0);
}

#[test]
fn spawn_fills_the_only_empty_cell() {
    let mut game = Game::new();
    for k in 0..15 {
        game.board[k] = Some(2);
    }
    let spawned = game.set_rand();
    assert_eq!(spawned, Some((3, 3)));
    let v = game.board[15].expect("the empty corner was filled");
    assert!(v == 2 || v == 4);
}

#[test]
fn spawn_on_full_board_is_noop() {
    let mut game = Game::new();
    for k in 0..16 {
        game.board[k] = Some(2);
    }
    assert_eq!(game.set_rand(), None);
    for k in 0..16 {
        assert_eq!(game.board[k], Some(2));
    }
}

#[test]
fn move_on_empty_board_is_noop() {
    let mut game = Game::new();
    assert_eq!(game.move_left(), (0, false));
    assert_eq!(game.move_down(), (0, false));
    assert_eq!(count_filled(&game), 0);
    assert_eq!(game.score, 0);
}
