use open_ttt_lib::ai::{best_position, Difficulty, Opponent, Outcome};
use open_ttt_lib::board::{Board, Owner, Position, Size};
use open_ttt_lib::game::{Error, Game, State};

// Helper that performs the given moves on the game, panicking if any of
// them is rejected.
fn do_moves(game: &mut Game, positions: &[Position]) {
    for position in positions {
        game.do_move(*position).unwrap();
    }
}

// Helper that reads all nine owners of a 3x3 board.
fn owners(game: &Game) -> Vec<Owner> {
    let mut result = Vec::new();
    for row in 0..3 {
        for column in 0..3 {
            result.push(game.board().get(Position { row, column }).unwrap());
        }
    }
    result
}

// Helper that checks that can_move agrees with do_move for a probe set of
// positions, on a clone of the game so the original is untouched.
fn assert_can_move_agrees_with_do_move(game: &Game) {
    let mut probes = Vec::new();
    for row in 0..3 {
        for column in 0..3 {
            probes.push(Position { row, column });
        }
    }
    probes.push(Position { row: -1, column: 0 });
    probes.push(Position { row: 0, column: 17 });
    for probe in probes {
        let mut copy = game.clone();
        assert_eq!(
            game.can_move(probe),
            copy.do_move(probe).is_ok(),
            "can_move and do_move disagree at {:?}",
            probe
        );
    }
}

#[test]
fn can_move_agrees_with_do_move_across_randomly_played_games() {
    // Play several games with randomly picked moves; before every move,
    // can_move must agree with what do_move would do, at every position.
    let random_picker: Opponent<fn(i32) -> bool> = Opponent::new(Difficulty::Random);
    for _ in 0..5 {
        let mut game = Game::new();
        while !game.state().is_game_over() {
            assert_can_move_agrees_with_do_move(&game);
            let position = random_picker.get_move(&game).unwrap();
            game.do_move(position).unwrap();
        }
        assert_can_move_agrees_with_do_move(&game);
    }
}

#[test]
fn do_move_on_owned_position_changes_nothing() {
    let mut game = Game::new();
    do_moves(
        &mut game,
        &[Position { row: 1, column: 1 }, Position { row: 0, column: 2 }],
    );
    let state_before = game.state();
    let owners_before = owners(&game);

    let result = game.do_move(Position { row: 1, column: 1 });

    assert_eq!(
        result,
        Err(Error::PositionAlreadyOwned(
            Position { row: 1, column: 1 },
            Owner::PlayerX
        ))
    );
    assert_eq!(state_before, game.state());
    assert_eq!(owners_before, owners(&game));
}

#[test]
fn do_move_outside_board_changes_nothing_and_names_the_position() {
    let mut game = Game::new();
    let state_before = game.state();
    let owners_before = owners(&game);
    let bad_position = Position { row: 3, column: 0 };

    let result = game.do_move(bad_position);

    assert_eq!(result, Err(Error::InvalidPosition(bad_position)));
    assert_eq!(state_before, game.state());
    assert_eq!(owners_before, owners(&game));
}

#[test]
fn do_move_after_game_over_reports_game_over() {
    let mut game = Game::new();
    // X wins the first row.
    do_moves(
        &mut game,
        &[
            Position { row: 0, column: 0 },
            Position { row: 1, column: 0 },
            Position { row: 0, column: 1 },
            Position { row: 1, column: 1 },
            Position { row: 0, column: 2 },
        ],
    );

    let result = game.do_move(Position { row: 2, column: 2 });

    assert_eq!(result, Err(Error::GameOver));
}

#[test]
fn successful_move_leaves_exactly_one_state_class() {
    // After any successful move the state is exactly one of: still in
    // progress, a win for one player, or a cat's game.
    let random_picker: Opponent<fn(i32) -> bool> = Opponent::new(Difficulty::Random);
    for _ in 0..5 {
        let mut game = Game::new();
        while !game.state().is_game_over() {
            let position = random_picker.get_move(&game).unwrap();
            let state = game.do_move(position).unwrap();
            let in_progress = !state.is_game_over();
            let won = matches!(state, State::PlayerXWin(_)) || matches!(state, State::PlayerOWin(_));
            let cats = matches!(state, State::CatsGame);
            let classes = [in_progress, won, cats];
            assert_eq!(1, classes.iter().filter(|c| **c).count());
        }
    }
}

#[test]
fn starting_states_alternate_over_many_rounds() {
    let mut game = Game::new();
    let mut previous = game.state();
    for _ in 0..6 {
        let next = game.start_next_game();
        assert_ne!(previous, next);
        assert!(!next.is_game_over());
        previous = next;
    }
}

#[test]
fn fixed_opening_sequence_ends_in_cats_game() {
    // The classic cat's-game board: the fixed opening sequence alternating
    // X and O from a fresh game fills the board with no winner.
    let mut game = Game::new();
    let sequence = [
        Position { row: 0, column: 0 },
        Position { row: 0, column: 1 },
        Position { row: 0, column: 2 },
        Position { row: 1, column: 1 },
        Position { row: 1, column: 0 },
        Position { row: 1, column: 2 },
        Position { row: 2, column: 1 },
        Position { row: 2, column: 0 },
        Position { row: 2, column: 2 },
    ];
    let mut last_state = game.state();
    for position in sequence {
        last_state = game.do_move(position).unwrap();
    }

    assert_eq!(State::CatsGame, last_state);
    assert_eq!(State::CatsGame, game.state());
}

#[test]
fn unbeatable_opponent_never_loses_to_random_play() {
    // A random player takes X and moves first; the unbeatable opponent
    // takes O. Across many games the unbeatable opponent must never lose.
    let random_player: Opponent<fn(i32) -> bool> = Opponent::new(Difficulty::Random);
    let unbeatable_player: Opponent<fn(i32) -> bool> = Opponent::new(Difficulty::Unbeatable);
    for _ in 0..10 {
        let mut game = Game::new();
        loop {
            let position = match game.state() {
                State::PlayerXMove => random_player.get_move(&game).unwrap(),
                State::PlayerOMove => unbeatable_player.get_move(&game).unwrap(),
                _ => break,
            };
            game.do_move(position).unwrap();
        }
        assert!(
            !matches!(game.state(), State::PlayerXWin(_)),
            "the unbeatable opponent lost the game: \n{}",
            game.board().render()
        );
    }
}

#[test]
fn best_position_given_loss_and_unknown_outcomes_prefers_unknown() {
    let outcomes = vec![
        (Position { row: 0, column: 0 }, Outcome::Loss),
        (Position { row: 1, column: 1 }, Outcome::Unknown),
        (Position { row: 2, column: 2 }, Outcome::Loss),
    ];

    let actual = best_position(&outcomes);

    assert_eq!(Some(Position { row: 1, column: 1 }), actual);
}

#[test]
fn medium_difficulty_picks_a_playable_move() {
    // Exercises the probabilistic difficulty presets end to end: whatever
    // the random draws decide, the chosen position must be playable.
    let opponent: Opponent<fn(i32) -> bool> = Opponent::new(Difficulty::Medium);
    let mut game = Game::new();
    game.do_move(Position { row: 0, column: 0 }).unwrap();
    for _ in 0..20 {
        let position = opponent.get_move(&game).unwrap();
        assert!(game.can_move(position));
    }
}

#[test]
fn easy_and_hard_difficulties_pick_playable_moves() {
    let easy: Opponent<fn(i32) -> bool> = Opponent::new(Difficulty::Easy);
    let hard: Opponent<fn(i32) -> bool> = Opponent::new(Difficulty::Hard);
    let mut game = Game::new();
    game.do_move(Position { row: 1, column: 1 }).unwrap();
    for _ in 0..10 {
        let position = easy.get_move(&game).unwrap();
        assert!(game.can_move(position));
        let position = hard.get_move(&game).unwrap();
        assert!(game.can_move(position));
    }
}

#[test]
fn board_iteration_is_row_major() {
    let board = Board::new(Size { rows: 2, columns: 3 });
    let expected = vec![
        Position { row: 0, column: 0 },
        Position { row: 0, column: 1 },
        Position { row: 0, column: 2 },
        Position { row: 1, column: 0 },
        Position { row: 1, column: 1 },
        Position { row: 1, column: 2 },
    ];

    let mut iter = board.iter();
    let mut actual = Vec::new();
    while let Some((position, owner)) = iter.next() {
        assert_eq!(Owner::Nobody, owner);
        actual.push(position);
    }

    assert_eq!(expected, actual);
}

#[test]
fn board_render_draws_every_cell() {
    let mut board = Board::new(Size { rows: 3, columns: 3 });
    board.get_mut(Position { row: 0, column: 0 }, Owner::PlayerX).unwrap();
    board.get_mut(Position { row: 1, column: 1 }, Owner::PlayerO).unwrap();

    let text = board.render();

    assert_eq!(1, text.matches('X').count());
    assert_eq!(1, text.matches('O').count());
    assert_eq!(4, text.lines().filter(|line| line.starts_with("+---")).count());
}

#[test]
fn board_render_of_1x1_board_is_the_exact_grid_text() {
    let mut board = Board::new(Size { rows: 1, columns: 1 });
    board.get_mut(Position { row: 0, column: 0 }, Owner::PlayerX).unwrap();

    let text = board.render();

    assert_eq!("+---+\n| X |\n+---+\n", text);
}

#[test]
fn error_message_quotes_negative_coordinates_like_the_debug_format() {
    let position = Position { row: -1, column: -17 };
    let error = Error::InvalidPosition(position);

    let error_message = error.message();

    assert!(error_message.contains(&format!("{:?}", position)));
}

#[test]
fn freshly_constructed_board_is_fully_unowned_and_nothing_more() {
    let board = Board::new(Size { rows: 2, columns: 2 });
    for row in -1..4 {
        for column in -1..4 {
            let position = Position { row, column };
            let expected = if (0..2).contains(&row) && (0..2).contains(&column) {
                Some(Owner::Nobody)
            } else {
                None
            };
            assert_eq!(expected, board.get(position));
        }
    }
}

#[test]
fn evaluate_game_on_terminal_game_is_empty_for_every_difficulty() {
    let mut game = Game::new();
    do_moves(
        &mut game,
        &[
            Position { row: 0, column: 0 },
            Position { row: 1, column: 0 },
            Position { row: 0, column: 1 },
            Position { row: 1, column: 1 },
            Position { row: 0, column: 2 },
        ],
    );
    assert!(game.state().is_game_over());
    let unbeatable: Opponent<fn(i32) -> bool> = Opponent::new(Difficulty::Unbeatable);
    let random: Opponent<fn(i32) -> bool> = Opponent::new(Difficulty::Random);

    assert!(unbeatable.evaluate_game(&game).is_empty());
    assert!(random.evaluate_game(&game).is_empty());
}

#[test]
fn evaluate_game_on_fresh_game_is_cats_game_for_unbeatable() {
    let game = Game::new();
    let opponent: Opponent<fn(i32) -> bool> = Opponent::new(Difficulty::Unbeatable);

    let outcomes = opponent.evaluate_game(&game);

    assert_eq!(9, outcomes.len());
    assert!(outcomes.iter().all(|(_, outcome)| *outcome == Outcome::CatsGame));
}
