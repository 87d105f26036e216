use std::collections::HashSet;

use open_ttt_lib::board::{Owner, Size};
use open_ttt_lib::game::{Error, Game, Position, State};

// Helper that performs the given moves on the game, panicking if any of
// them is rejected.
fn do_moves(game: &mut Game, positions: &[Position]) {
    for position in positions {
        game.do_move(*position).unwrap();
    }
}

// Helper that counts the free positions of the game.
fn count_free_positions(game: &Game) -> usize {
    let mut iter = game.free_positions();
    let mut count = 0;
    while iter.next().is_some() {
        count += 1;
    }
    count
}

// Helper that extracts the set of winning positions of a won game, as
// plain (row, column) pairs.
fn winning_set(state: &State) -> HashSet<(i32, i32)> {
    match state {
        State::PlayerXWin(positions) | State::PlayerOWin(positions) => {
            positions.iter().map(|p| (p.row, p.column)).collect()
        }
        _ => HashSet::new(),
    }
}

#[test]
fn game_new_should_create_3x3_board() {
    let expected_size = Size { rows: 3, columns: 3 };

    let game = Game::new();
    let actual_size = game.board().size();

    assert_eq!(expected_size, actual_size);
}

#[test]
fn game_new_should_not_be_game_over_state() {
    let expected_is_game_over = false;

    let game = Game::new();
    let actual_is_game_over = game.state().is_game_over();

    assert_eq!(expected_is_game_over, actual_is_game_over);
}

#[test]
fn game_new_should_all_positions_should_be_free() {
    let game = Game::new();
    let board_size = game.board().size();
    // Calculate the expected number of free positions. This is equal to the
    // total number of positions.
    let expected_free_squares = board_size.rows * board_size.columns;

    let actual_free_squares = count_free_positions(&game);

    assert_eq!(expected_free_squares as usize, actual_free_squares);
}

#[test]
fn game_default_should_create_3x3_board() {
    let expected_size = Size { rows: 3, columns: 3 };

    let game = Game::default();
    let actual_size = game.board().size();

    assert_eq!(expected_size, actual_size);
}

#[test]
fn game_free_positions_should_not_contain_any_owned_positions() {
    let mut game = Game::new();
    // Have each player take a position.
    do_moves(
        &mut game,
        &[Position { row: 0, column: 0 }, Position { row: 0, column: 1 }],
    );
    let expected_num_owned_positions = 0;

    let mut free_positions = game.free_positions();
    let mut actual_num_owned_positions = 0;
    while let Some(position) = free_positions.next() {
        if game.board().get(position).unwrap() != Owner::Nobody {
            actual_num_owned_positions += 1;
        }
    }

    assert_eq!(expected_num_owned_positions, actual_num_owned_positions);
}

#[test]
fn game_free_positions_when_game_over_should_be_none() {
    let mut game = Game::new();
    // Play a full game that ends in a draw.
    do_moves(
        &mut game,
        &[
            Position { row: 0, column: 0 },
            Position { row: 0, column: 1 },
            Position { row: 0, column: 2 },
            Position { row: 1, column: 1 },
            Position { row: 1, column: 0 },
            Position { row: 1, column: 2 },
            Position { row: 2, column: 1 },
            Position { row: 2, column: 0 },
            Position { row: 2, column: 2 },
        ],
    );
    assert!(game.state().is_game_over());
    let expected_num_free_positions = 0;

    let actual_num_free_positions = count_free_positions(&game);

    assert_eq!(expected_num_free_positions, actual_num_free_positions);
}

#[test]
fn game_can_move_when_unowned_positions_should_be_true() {
    let position = Position { row: 0, column: 0 };
    let game = Game::new();
    // No positions are owned yet.
    let expected_can_move = true;

    let actual_can_move = game.can_move(position);

    assert_eq!(expected_can_move, actual_can_move);
}

#[test]
fn game_can_move_when_owned_positions_should_be_false() {
    let position = Position { row: 0, column: 0 };
    let mut game = Game::new();
    // Give the position an owner.
    do_moves(&mut game, &[position]);
    let expected_can_move = false;

    let actual_can_move = game.can_move(position);

    assert_eq!(expected_can_move, actual_can_move);
}

#[test]
fn game_can_move_when_game_over_should_be_false() {
    let position = Position { row: 0, column: 0 };
    let mut game = Game::new();
    // Play a full game that ends in a draw.
    do_moves(
        &mut game,
        &[
            Position { row: 0, column: 0 },
            Position { row: 0, column: 1 },
            Position { row: 0, column: 2 },
            Position { row: 1, column: 1 },
            Position { row: 1, column: 0 },
            Position { row: 1, column: 2 },
            Position { row: 2, column: 1 },
            Position { row: 2, column: 0 },
            Position { row: 2, column: 2 },
        ],
    );
    assert!(game.state().is_game_over());
    let expected_can_move = false;

    let actual_can_move = game.can_move(position);

    assert_eq!(expected_can_move, actual_can_move);
}

#[test]
fn game_can_move_when_outside_game_board_should_be_false() {
    let position_outside_game_board = Position { row: -1, column: -1 };
    let game = Game::new();
    let expected_can_move = false;

    let actual_can_move = game.can_move(position_outside_game_board);

    assert_eq!(expected_can_move, actual_can_move);
}

#[test]
fn game_do_move_returned_state_should_match_game_state() {
    let mut game = Game::new();

    let returned_state = game.do_move(Position { row: 0, column: 0 }).unwrap();
    let game_state = game.state();

    assert_eq!(returned_state, game_state);
}

#[allow(non_snake_case)]
#[test]
fn game_do_move_when_player_X_move_should_return_player_O_move_state() {
    let mut game = Game::new();
    assert_eq!(game.state(), State::PlayerXMove);
    let expected_state = State::PlayerOMove;

    let actual_state = game.do_move(Position { row: 0, column: 0 }).unwrap();

    assert_eq!(expected_state, actual_state);
}

#[allow(non_snake_case)]
#[test]
fn game_do_move_when_player_O_move_should_return_player_X_move_state() {
    let mut game = Game::new();
    // Let X take a move so it is O's turn.
    do_moves(&mut game, &[Position { row: 1, column: 1 }]);
    assert_eq!(game.state(), State::PlayerOMove);
    let expected_state = State::PlayerXMove;

    let actual_state = game.do_move(Position { row: 0, column: 0 }).unwrap();

    assert_eq!(expected_state, actual_state);
}

#[test]
fn game_do_move_when_owned_position_should_return_error() {
    let position = Position { row: 0, column: 0 };
    let mut game = Game::new();
    // Mark the position as being owned by doing a move on it.
    game.do_move(position).unwrap();

    // Do a second move to the same position.
    let move_result = game.do_move(position);

    assert!(move_result.is_err());
}

#[test]
fn game_do_move_when_game_over_should_return_error() {
    let position = Position { row: 2, column: 2 };
    let mut game = Game::new();
    // Let X win by completing the first row.
    do_moves(
        &mut game,
        &[
            Position { row: 0, column: 0 },
            Position { row: 1, column: 0 },
            Position { row: 0, column: 1 },
            Position { row: 1, column: 1 },
            Position { row: 0, column: 2 },
        ],
    );
    assert!(game.state().is_game_over());

    let move_result = game.do_move(position);

    assert!(move_result.is_err());
}

#[test]
fn game_do_move_when_position_outside_board_should_return_error() {
    let position_outside_board = Position { row: 100, column: 100 };
    let mut game = Game::new();

    let move_result = game.do_move(position_outside_board);

    assert!(move_result.is_err());
}

#[allow(non_snake_case)]
#[test]
fn game_do_move_when_three_X_in_row_should_return_player_X_win() {
    let mut game = Game::new();
    // Configure the board, with interleaved O moves, so the next X move is
    // a winning move.
    do_moves(
        &mut game,
        &[
            Position { row: 0, column: 0 },
            Position { row: 1, column: 0 },
            Position { row: 0, column: 1 },
            Position { row: 1, column: 1 },
        ],
    );
    let winning_position = Position { row: 0, column: 2 };
    let expected_winning_positions: HashSet<(i32, i32)> =
        [(0, 0), (0, 1), (0, 2)].iter().cloned().collect();

    // Do the final move to get three X's in a row.
    let actual_state = game.do_move(winning_position).unwrap();

    assert!(
        matches!(actual_state, State::PlayerXWin(_))
            && winning_set(&actual_state) == expected_winning_positions,
        "\nGame board used for this test: \n{}",
        game.board().render()
    );
}

#[allow(non_snake_case)]
#[test]
fn game_do_move_when_three_X_in_column_should_return_player_X_win() {
    let mut game = Game::new();
    do_moves(
        &mut game,
        &[
            Position { row: 0, column: 0 },
            Position { row: 0, column: 1 },
            Position { row: 1, column: 0 },
            Position { row: 1, column: 1 },
        ],
    );
    let winning_position = Position { row: 2, column: 0 };
    let expected_winning_positions: HashSet<(i32, i32)> =
        [(0, 0), (1, 0), (2, 0)].iter().cloned().collect();

    // Do the final move to get three X's in a column.
    let actual_state = game.do_move(winning_position).unwrap();

    assert!(
        matches!(actual_state, State::PlayerXWin(_))
            && winning_set(&actual_state) == expected_winning_positions,
        "\nGame board used for this test: \n{}",
        game.board().render()
    );
}

#[allow(non_snake_case)]
#[test]
fn game_do_move_when_three_X_in_top_left_to_bottom_right_diagonal_should_return_player_X_win() {
    let mut game = Game::new();
    do_moves(
        &mut game,
        &[
            Position { row: 0, column: 0 },
            Position { row: 0, column: 1 },
            Position { row: 1, column: 1 },
            Position { row: 0, column: 2 },
        ],
    );
    let winning_position = Position { row: 2, column: 2 };
    let expected_winning_positions: HashSet<(i32, i32)> =
        [(0, 0), (1, 1), (2, 2)].iter().cloned().collect();

    // Do the final move to get three X's in a diagonal.
    let actual_state = game.do_move(winning_position).unwrap();

    assert!(
        matches!(actual_state, State::PlayerXWin(_))
            && winning_set(&actual_state) == expected_winning_positions,
        "\nGame board used for this test: \n{}",
        game.board().render()
    );
}

#[allow(non_snake_case)]
#[test]
fn game_do_move_when_three_X_in_top_right_to_bottom_left_diagonal_should_return_player_X_win() {
    let mut game = Game::new();
    do_moves(
        &mut game,
        &[
            Position { row: 0, column: 2 },
            Position { row: 0, column: 0 },
            Position { row: 1, column: 1 },
            Position { row: 0, column: 1 },
        ],
    );
    let winning_position = Position { row: 2, column: 0 };
    let expected_winning_positions: HashSet<(i32, i32)> =
        [(0, 2), (1, 1), (2, 0)].iter().cloned().collect();

    // Do the final move to get three X's in a diagonal.
    let actual_state = game.do_move(winning_position).unwrap();

    assert!(
        matches!(actual_state, State::PlayerXWin(_))
            && winning_set(&actual_state) == expected_winning_positions,
        "\nGame board used for this test: \n{}",
        game.board().render()
    );
}

#[test]
fn game_do_move_when_both_winning_row_and_diagonal_should_contain_all_winning_positions() {
    let mut game = Game::new();
    // Create a board where player X is about to win with both a diagonal
    // and a row at once.
    do_moves(
        &mut game,
        &[
            Position { row: 0, column: 1 },
            Position { row: 1, column: 0 },
            Position { row: 0, column: 2 },
            Position { row: 1, column: 2 },
            Position { row: 1, column: 1 },
            Position { row: 2, column: 0 },
            Position { row: 2, column: 2 },
            Position { row: 2, column: 1 },
        ],
    );
    let winning_position = Position { row: 0, column: 0 };
    let expected_winning_positions: HashSet<(i32, i32)> =
        [(0, 0), (0, 1), (0, 2), (1, 1), (2, 2)].iter().cloned().collect();

    // Do the final move to complete both the first row and the diagonal.
    let actual_state = game.do_move(winning_position).unwrap();

    assert!(
        matches!(actual_state, State::PlayerXWin(_))
            && winning_set(&actual_state) == expected_winning_positions,
        "\nGame board used for this test: \n{}",
        game.board().render()
    );
}

// We test at least one of the victory conditions with player O to ensure
// it works the same as player X.
#[allow(non_snake_case)]
#[test]
fn game_do_move_when_three_O_in_row_should_return_player_O_win() {
    let mut game = Game::new();
    do_moves(
        &mut game,
        &[
            Position { row: 0, column: 0 },
            Position { row: 1, column: 0 },
            Position { row: 0, column: 1 },
            Position { row: 1, column: 1 },
            Position { row: 2, column: 0 },
        ],
    );
    let winning_position = Position { row: 1, column: 2 };
    let expected_winning_positions: HashSet<(i32, i32)> =
        [(1, 0), (1, 1), (1, 2)].iter().cloned().collect();

    // Do the final move to get three O's in a row.
    let actual_state = game.do_move(winning_position).unwrap();

    assert!(
        matches!(actual_state, State::PlayerOWin(_))
            && winning_set(&actual_state) == expected_winning_positions,
        "\nGame board used for this test: \n{}",
        game.board().render()
    );
}

#[test]
fn game_do_move_when_last_position_filled_should_return_cats_game() {
    // The board is filled as follows, with no three marks in a line:
    //  +---+---+---+
    //  | X | O | X |
    //  +---+---+---+
    //  | X | O | O |
    //  +---+---+---+
    //  | O | X | X*|
    //  +---+---+---+
    // Where the X* is the last position.
    let mut game = Game::new();
    do_moves(
        &mut game,
        &[
            Position { row: 0, column: 0 },
            Position { row: 0, column: 1 },
            Position { row: 0, column: 2 },
            Position { row: 1, column: 1 },
            Position { row: 1, column: 0 },
            Position { row: 1, column: 2 },
            Position { row: 2, column: 1 },
            Position { row: 2, column: 0 },
        ],
    );
    let last_position = Position { row: 2, column: 2 };
    let expected_state = State::CatsGame;

    // Fill the final position so there are no more moves.
    let actual_state = game.do_move(last_position).unwrap();

    assert_eq!(
        expected_state,
        actual_state,
        "\nGame board used for this test: \n{}",
        game.board().render()
    );
}

#[test]
fn game_start_next_game_should_ensure_player_who_went_went_second_goes_first_next_game() {
    let mut game = Game::new();
    let first_player_last_game = game.state();

    let first_player_next_game = game.start_next_game();

    assert_ne!(first_player_last_game, first_player_next_game);
}

#[test]
fn game_start_next_game_should_alternate_between_players_who_go_first() {
    let mut game = Game::new();

    let player_1 = game.start_next_game();
    let player_2 = game.start_next_game();

    assert_ne!(player_1, player_2);
}

#[test]
fn game_start_next_game_when_game_not_over_should_start_next_game() {
    let mut game = Game::new();
    let expected_is_game_over = false;

    game.start_next_game();
    let actual_is_game_over = game.state().is_game_over();

    assert_eq!(expected_is_game_over, actual_is_game_over);
}

#[test]
fn error_display_when_game_over_should_be_non_empty() {
    let error = Error::GameOver;

    let error_message = error.message();

    assert_ne!(0, error_message.len());
}

#[test]
fn error_display_when_position_already_owned_should_contain_position_text() {
    let position = Position { row: 0, column: 0 };
    let owner = Owner::PlayerX;
    let position_text = format!("{:?}", position);
    let error = Error::PositionAlreadyOwned(position, owner);

    let error_message = error.message();

    assert!(error_message.contains(&position_text));
}

#[test]
fn error_display_when_position_already_owned_should_contain_owner_text() {
    let position = Position { row: 0, column: 0 };
    let owner = Owner::PlayerX;
    let owner_text = format!("{:?}", owner);
    let error = Error::PositionAlreadyOwned(position, owner);

    let error_message = error.message();

    assert!(error_message.contains(&owner_text));
}

#[test]
fn error_display_when_invalid_position_should_contain_position_text() {
    let position = Position { row: 0, column: 0 };
    let position_text = format!("{:?}", position);
    let error = Error::InvalidPosition(position);

    let error_message = error.message();

    assert!(error_message.contains(&position_text));
}

#[allow(non_snake_case)]
#[test]
fn state_is_game_over_when_player_X_move_should_be_false() {
    let state = State::PlayerXMove;
    let expected_is_game_over = false;

    let actual_is_game_over = state.is_game_over();

    assert_eq!(expected_is_game_over, actual_is_game_over);
}

#[allow(non_snake_case)]
#[test]
fn state_is_game_over_when_player_O_move_should_be_false() {
    let state = State::PlayerOMove;
    let expected_is_game_over = false;

    let actual_is_game_over = state.is_game_over();

    assert_eq!(expected_is_game_over, actual_is_game_over);
}

#[allow(non_snake_case)]
#[test]
fn state_is_game_over_when_player_X_win_should_be_true() {
    let state = State::PlayerXWin(Vec::new());
    let expected_is_game_over = true;

    let actual_is_game_over = state.is_game_over();

    assert_eq!(expected_is_game_over, actual_is_game_over);
}

#[allow(non_snake_case)]
#[test]
fn state_is_game_over_when_player_O_win_should_be_true() {
    let state = State::PlayerOWin(Vec::new());
    let expected_is_game_over = true;

    let actual_is_game_over = state.is_game_over();

    assert_eq!(expected_is_game_over, actual_is_game_over);
}

#[test]
fn state_is_game_over_when_cats_game_should_be_true() {
    let state = State::CatsGame;
    let expected_is_game_over = true;

    let actual_is_game_over = state.is_game_over();

    assert_eq!(expected_is_game_over, actual_is_game_over);
}
