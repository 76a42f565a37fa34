use goban::rules::{Action, GamePhase};
use goban::{Game, Path, Player, Position19x19, Stone};

#[test]
fn test_create_game() {
    let game = Game::<Action>::new();
    let state = game.get_state(&Path::Empty);

    assert!(state.ply == 0);
    assert!(state.current_player() == Player::Black);
    assert!(state.dead_stones == Option::None);
}

#[test]
fn test_play() {
    let mut game = Game::<Action>::new();
    assert!(
        game.insert(
            &Path::Empty,
            Action::Play { player: Player::Black, at: Position19x19 { x: 3, y: 3 } }
        ) != Path::Empty
    );
}

#[test]
fn test_suicide() {
    let mut game = Game::<Action>::new();
    let actions: Vec<Action> = vec![
        Action::Play { player: Player::Black, at: Position19x19 { x: 0, y: 1 } },
        Action::Play { player: Player::White, at: Position19x19 { x: 0, y: 2 } },
        Action::Play { player: Player::Black, at: Position19x19 { x: 1, y: 0 } },
        Action::Play { player: Player::White, at: Position19x19 { x: 1, y: 1 } },
        Action::Play { player: Player::Black, at: Position19x19 { x: 5, y: 5 } },
        Action::Play { player: Player::White, at: Position19x19 { x: 2, y: 0 } },
    ];

    let mut cursor = Path::Empty;
    for action in actions {
        cursor = game.insert(&cursor, action);
        assert!(cursor != Path::Empty);
    }

    assert!(
        game.insert(
            &cursor,
            Action::Play { player: Player::Black, at: Position19x19 { x: 0, y: 0 } }
        ) == Path::Empty
    );
}

#[test]
fn test_capture_ko() {
    let mut game = Game::<Action>::new();
    let actions: Vec<Action> = vec![
        Action::Play { player: Player::Black, at: Position19x19 { x: 0, y: 0 } },
        Action::Play { player: Player::White, at: Position19x19 { x: 1, y: 0 } },
        Action::Play { player: Player::Black, at: Position19x19 { x: 2, y: 0 } },
        Action::Play { player: Player::White, at: Position19x19 { x: 0, y: 1 } },
        Action::Play { player: Player::Black, at: Position19x19 { x: 1, y: 1 } },
        Action::Play { player: Player::White, at: Position19x19 { x: 2, y: 1 } },
        Action::Play { player: Player::Black, at: Position19x19 { x: 0, y: 0 } },
    ];
    // # . . .  # O . .   # O # .   . O # .  . O # .  . O # .  # . # .  recap is ko
    // . . . .  . . . .   . . . .   O . . .  O # . .  O # O .  O # O .
    // . . . .  . . . .   . . . .   . . . .  . . . .  . . . .  . . . .

    let mut cursor = Path::Empty;
    for action in actions {
        cursor = game.insert(&cursor, action);
        assert!(cursor != Path::Empty);
    }

    assert!(
        game.insert(
            &cursor,
            Action::Play { player: Player::White, at: Position19x19 { x: 1, y: 0 } }
        ) == Path::Empty
    );
}

#[test]
fn test_pass() {
    let mut game = Game::<Action>::new();
    let mut cursor = Path::Empty;

    cursor = game.insert(&cursor, Action::Pass { player: Player::Black });
    assert!(cursor != Path::Empty);
    assert!(game.insert(&cursor, Action::Pass { player: Player::Black }) == Path::Empty);

    cursor = game.insert(&cursor, Action::Pass { player: Player::White });
    assert!(cursor != Path::Empty);

    let state = game.get_state(&cursor);
    assert!(state.ply == 2);
    assert!(state.phase == GamePhase::Ending);
}

#[test]
fn test_handicap() {
    let mut game = Game::<Action>::new();
    let mut cursor = Path::Empty;

    cursor = game.insert(&cursor, Action::Handicap { stones: 3 });
    let state = game.get_state(&cursor);

    assert!(state.current_player() == Player::White);
    assert!(state.board.at(&Position19x19 { x: 14, y: 4 }) == Stone::Black);
    assert!(state.board.at(&Position19x19 { x: 4, y: 14 }) == Stone::Black);
    assert!(state.board.at(&Position19x19 { x: 14, y: 14 }) == Stone::Black);
}

#[test]
fn test_end() {
    let mut game = Game::<Action>::new();
    let mut cursor = Path::Empty;

    cursor = game.insert(
        &cursor,
        Action::Play { player: Player::Black, at: Position19x19 { x: 2, y: 2 } },
    );
    cursor = game.insert(&cursor, Action::Pass { player: Player::White });
    cursor = game.insert(&cursor, Action::Pass { player: Player::Black });

    assert!(game.get_state(&cursor).phase == GamePhase::BlackPassed);
    cursor = game.insert(&cursor, Action::Pass { player: Player::White });
    assert!(game.get_state(&cursor).phase == GamePhase::Ending);

    assert!(game.insert(&cursor, Action::RejectEnd { player: Player::Black }) == Path::Empty);
    assert!(game.insert(&cursor, Action::RejectEnd { player: Player::White }) == Path::Empty);
    assert!(game.insert(&cursor, Action::AcceptEnd { player: Player::Black }) == Path::Empty);
    assert!(game.insert(&cursor, Action::AcceptEnd { player: Player::White }) == Path::Empty);

    assert!(
        game.insert(
            &cursor,
            Action::RequestEnd {
                player: Player::Black,
                dead_stones: vec![Position19x19 { x: 2, y: 3 }],
            }
        ) == Path::Empty
    );

    cursor = game.insert(
        &cursor,
        Action::RequestEnd { player: Player::Black, dead_stones: vec![] },
    );
    assert!(cursor != Path::Empty);

    assert!(game.insert(&cursor, Action::AcceptEnd { player: Player::Black }) == Path::Empty);
    cursor = game.insert(&cursor, Action::AcceptEnd { player: Player::White });
    assert!(cursor != Path::Empty);
}

#[test]
fn aga_rules_create_game() {
    let game = Game::<Action>::new();
    let state = game.get_state(&Path::Empty);

    assert!(state.ply == 0);
    assert!(state.current_player() == Player::Black);
    assert!(state.dead_stones == Option::None);
}

#[test]
fn aga_rules_play() {
    let mut game = Game::<Action>::new();
    assert!(
        game.insert(
            &Path::Empty,
            Action::Play { player: Player::Black, at: Position19x19 { x: 3, y: 3 } }
        ) != Path::Empty
    );
}

#[test]
fn aga_rules_suicide() {
    let mut game = Game::<Action>::new();
    let actions: Vec<Action> = vec![
        Action::Play { player: Player::Black, at: Position19x19 { x: 0, y: 1 } },
        Action::Play { player: Player::White, at: Position19x19 { x: 0, y: 2 } },
        Action::Play { player: Player::Black, at: Position19x19 { x: 1, y: 0 } },
        Action::Play { player: Player::White, at: Position19x19 { x: 1, y: 1 } },
        Action::Play { player: Player::Black, at: Position19x19 { x: 5, y: 5 } },
        Action::Play { player: Player::White, at: Position19x19 { x: 2, y: 0 } },
    ];

    let mut cursor = Path::Empty;
    for action in actions {
        cursor = game.insert(&cursor, action);
        assert!(cursor != Path::Empty);
    }

    assert!(
        game.insert(
            &cursor,
            Action::Play { player: Player::Black, at: Position19x19 { x: 0, y: 0 } }
        ) == Path::Empty
    );
}

#[test]
fn aga_rules_capture_ko() {
    let mut game = Game::<Action>::new();
    let actions: Vec<Action> = vec![
        Action::Play { player: Player::Black, at: Position19x19 { x: 0, y: 0 } },
        Action::Play { player: Player::White, at: Position19x19 { x: 1, y: 0 } },
        Action::Play { player: Player::Black, at: Position19x19 { x: 2, y: 0 } },
        Action::Play { player: Player::White, at: Position19x19 { x: 0, y: 1 } },
        Action::Play { player: Player::Black, at: Position19x19 { x: 1, y: 1 } },
        Action::Play { player: Player::White, at: Position19x19 { x: 2, y: 1 } },
        Action::Play { player: Player::Black, at: Position19x19 { x: 0, y: 0 } },
    ];

    let mut cursor = Path::Empty;
    for action in actions {
        cursor = game.insert(&cursor, action);
        assert!(cursor != Path::Empty);
    }

    assert!(
        game.insert(
            &cursor,
            Action::Play { player: Player::White, at: Position19x19 { x: 1, y: 0 } }
        ) == Path::Empty
    );
}

#[test]
fn aga_rules_pass() {
    let mut game = Game::<Action>::new();
    let mut cursor = Path::Empty;

    cursor = game.insert(&cursor, Action::Pass { player: Player::Black });
    assert!(cursor != Path::Empty);
    assert!(game.insert(&cursor, Action::Pass { player: Player::Black }) == Path::Empty);

    cursor = game.insert(&cursor, Action::Pass { player: Player::White });
    assert!(cursor != Path::Empty);

    let state = game.get_state(&cursor);
    assert!(state.ply == 2);
    assert!(state.phase == GamePhase::Ending);
}

#[test]
fn aga_rules_handicap() {
    let mut game = Game::<Action>::new();
    let mut cursor = Path::Empty;

    cursor = game.insert(&cursor, Action::Handicap { stones: 3 });
    let state = game.get_state(&cursor);

    assert!(state.current_player() == Player::White);
    assert!(state.board.at(&Position19x19 { x: 14, y: 4 }) == Stone::Black);
    assert!(state.board.at(&Position19x19 { x: 4, y: 14 }) == Stone::Black);
    assert!(state.board.at(&Position19x19 { x: 14, y: 14 }) == Stone::Black);
}

#[test]
fn aga_rules_end() {
    let mut game = Game::<Action>::new();
    let mut cursor = Path::Empty;

    cursor = game.insert(
        &cursor,
        Action::Play { player: Player::Black, at: Position19x19 { x: 2, y: 2 } },
    );
    cursor = game.insert(&cursor, Action::Pass { player: Player::White });
    cursor = game.insert(&cursor, Action::Pass { player: Player::Black });

    assert!(game.get_state(&cursor).phase == GamePhase::BlackPassed);
    cursor = game.insert(&cursor, Action::Pass { player: Player::White });
    assert!(game.get_state(&cursor).phase == GamePhase::Ending);

    assert!(game.insert(&cursor, Action::RejectEnd { player: Player::Black }) == Path::Empty);
    assert!(game.insert(&cursor, Action::RejectEnd { player: Player::White }) == Path::Empty);
    assert!(game.insert(&cursor, Action::AcceptEnd { player: Player::Black }) == Path::Empty);
    assert!(game.insert(&cursor, Action::AcceptEnd { player: Player::White }) == Path::Empty);

    assert!(
        game.insert(
            &cursor,
            Action::RequestEnd {
                player: Player::Black,
                dead_stones: vec![Position19x19 { x: 2, y: 3 }],
            }
        ) == Path::Empty
    );

    cursor = game.insert(
        &cursor,
        Action::RequestEnd { player: Player::Black, dead_stones: vec![] },
    );
    assert!(cursor != Path::Empty);

    assert!(game.insert(&cursor, Action::AcceptEnd { player: Player::Black }) == Path::Empty);
    cursor = game.insert(&cursor, Action::AcceptEnd { player: Player::White });
    assert!(cursor != Path::Empty);
}

#[test]
fn fresh_game_scenario() {
    let mut game = Game::<Action>::new();

    let first = game.insert(
        &Path::Empty,
        Action::Play { player: Player::Black, at: Position19x19 { x: 3, y: 3 } },
    );
    assert!(first != Path::Empty);

    // The point is taken: White cannot play there.
    assert!(
        game.insert(
            &first,
            Action::Play { player: Player::White, at: Position19x19 { x: 3, y: 3 } }
        ) == Path::Empty
    );

    // A second branch from the root: both players pass.
    let black_pass = game.insert(&Path::Empty, Action::Pass { player: Player::Black });
    assert!(black_pass != Path::Empty);
    let white_pass = game.insert(&black_pass, Action::Pass { player: Player::White });
    assert!(white_pass != Path::Empty);

    let state = game.get_state(&white_pass);
    assert!(state.ply == 2);
    assert!(state.phase == GamePhase::Ending);

    // The first branch is still reconstructible and unchanged.
    let first_state = game.get_state(&first);
    assert!(first_state.ply == 1);
    assert!(first_state.board.at(&Position19x19 { x: 3, y: 3 }) == Stone::Black);
}

#[test]
fn capture_pair() {
    let mut game = Game::<Action>::new();
    let actions: Vec<Action> = vec![
        Action::Play { player: Player::Black, at: Position19x19 { x: 9, y: 9 } },
        Action::Play { player: Player::White, at: Position19x19 { x: 1, y: 0 } },
        Action::Play { player: Player::Black, at: Position19x19 { x: 0, y: 0 } },
        Action::Play { player: Player::White, at: Position19x19 { x: 2, y: 0 } },
        Action::Play { player: Player::Black, at: Position19x19 { x: 1, y: 1 } },
        Action::Play { player: Player::White, at: Position19x19 { x: 15, y: 15 } },
        Action::Play { player: Player::Black, at: Position19x19 { x: 2, y: 1 } },
        Action::Play { player: Player::White, at: Position19x19 { x: 15, y: 16 } },
        // The white pair at (1,0),(2,0) has (3,0) as its one shared
        // liberty; playing there captures exactly those two stones.
        Action::Play { player: Player::Black, at: Position19x19 { x: 3, y: 0 } },
    ];

    let mut cursor = Path::Empty;
    for action in actions {
        cursor = game.insert(&cursor, action);
        assert!(cursor != Path::Empty);
    }

    let state = game.get_state(&cursor);
    assert!(state.ply == 9);
    assert!(state.board.at(&Position19x19 { x: 1, y: 0 }) == Stone::Empty);
    assert!(state.board.at(&Position19x19 { x: 2, y: 0 }) == Stone::Empty);
    assert!(state.board.at(&Position19x19 { x: 3, y: 0 }) == Stone::Black);
    assert!(state.board.at(&Position19x19 { x: 15, y: 15 }) == Stone::White);
}

#[test]
fn superko_delayed_repeat() {
    let mut game = Game::<Action>::new();
    let actions: Vec<Action> = vec![
        Action::Play { player: Player::Black, at: Position19x19 { x: 0, y: 0 } },
        Action::Play { player: Player::White, at: Position19x19 { x: 1, y: 0 } },
        Action::Play { player: Player::Black, at: Position19x19 { x: 2, y: 0 } },
        Action::Play { player: Player::White, at: Position19x19 { x: 0, y: 1 } },
        Action::Play { player: Player::Black, at: Position19x19 { x: 1, y: 1 } },
        Action::Play { player: Player::White, at: Position19x19 { x: 2, y: 1 } },
        Action::Play { player: Player::Black, at: Position19x19 { x: 0, y: 0 } },
        // Two passes move the game on without touching the board.
        Action::Pass { player: Player::White },
        Action::Pass { player: Player::Black },
    ];

    let mut cursor = Path::Empty;
    for action in actions {
        cursor = game.insert(&cursor, action);
        assert!(cursor != Path::Empty);
    }

    // The recapture would restore the position after the sixth move
    // with Black to move: rejected although several plies removed.
    assert!(
        game.insert(
            &cursor,
            Action::Play { player: Player::White, at: Position19x19 { x: 1, y: 0 } }
        ) == Path::Empty
    );

    // Playing elsewhere is still possible.
    assert!(
        game.insert(
            &cursor,
            Action::Play { player: Player::White, at: Position19x19 { x: 9, y: 9 } }
        ) != Path::Empty
    );
}

#[test]
fn handicap_nine() {
    let mut game = Game::<Action>::new();
    let cursor = game.insert(&Path::Empty, Action::Handicap { stones: 9 });
    let state = game.get_state(&cursor);

    assert!(state.current_player() == Player::White);
    assert!(state.ply == 1);
    for (x, y) in [
        (14, 4),
        (4, 14),
        (14, 14),
        (4, 4),
        (10, 10),
        (4, 10),
        (14, 10),
        (10, 4),
        (10, 14),
    ] {
        assert!(state.board.at(&Position19x19 { x, y }) == Stone::Black);
    }
}

#[test]
fn handicap_five() {
    let mut game = Game::<Action>::new();
    let cursor = game.insert(&Path::Empty, Action::Handicap { stones: 5 });
    let state = game.get_state(&cursor);

    assert!(state.board.at(&Position19x19 { x: 10, y: 10 }) == Stone::Black);
    assert!(state.board.at(&Position19x19 { x: 4, y: 4 }) == Stone::Black);
    assert!(state.board.at(&Position19x19 { x: 4, y: 10 }) == Stone::Empty);
    assert!(state.board.at(&Position19x19 { x: 10, y: 4 }) == Stone::Empty);
}

#[test]
fn handicap_outside_range() {
    let mut game = Game::<Action>::new();
    let cursor = game.insert(&Path::Empty, Action::Handicap { stones: 11 });
    assert!(cursor != Path::Empty);
    let state = game.get_state(&cursor);

    assert!(state.ply == 1);
    assert!(state.board.at(&Position19x19 { x: 14, y: 4 }) == Stone::Empty);
    assert!(state.board.at(&Position19x19 { x: 10, y: 10 }) == Stone::Empty);
}

#[test]
fn handicap_only_first_ply() {
    let mut game = Game::<Action>::new();
    let cursor = game.insert(&Path::Empty, Action::Pass { player: Player::Black });
    assert!(game.insert(&cursor, Action::Handicap { stones: 3 }) == Path::Empty);
}

#[test]
fn scoring_empty_board() {
    let mut game = Game::<Action>::new();
    let mut cursor = Path::Empty;

    cursor = game.insert(&cursor, Action::Pass { player: Player::Black });
    cursor = game.insert(&cursor, Action::Pass { player: Player::White });
    cursor = game.insert(
        &cursor,
        Action::RequestEnd { player: Player::Black, dead_stones: vec![] },
    );
    cursor = game.insert(&cursor, Action::AcceptEnd { player: Player::White });
    assert!(cursor != Path::Empty);

    // On an empty board the erosion formula awards every point to both
    // sides.
    let state = game.get_state(&cursor);
    assert!(state.phase == GamePhase::Ended(361, 361));
}

#[test]
fn scoring_lone_stone() {
    let mut game = Game::<Action>::new();
    let mut cursor = Path::Empty;

    cursor = game.insert(
        &cursor,
        Action::Play { player: Player::Black, at: Position19x19 { x: 0, y: 0 } },
    );
    cursor = game.insert(&cursor, Action::Pass { player: Player::White });
    cursor = game.insert(&cursor, Action::Pass { player: Player::Black });
    cursor = game.insert(&cursor, Action::Pass { player: Player::White });
    cursor = game.insert(
        &cursor,
        Action::RequestEnd { player: Player::White, dead_stones: vec![] },
    );
    cursor = game.insert(&cursor, Action::AcceptEnd { player: Player::Black });
    assert!(cursor != Path::Empty);

    let state = game.get_state(&cursor);
    assert!(state.phase == GamePhase::Ended(361, 0));
}

#[test]
fn scoring_two_corners() {
    let mut game = Game::<Action>::new();
    let mut cursor = Path::Empty;

    cursor = game.insert(
        &cursor,
        Action::Play { player: Player::Black, at: Position19x19 { x: 0, y: 0 } },
    );
    cursor = game.insert(
        &cursor,
        Action::Play { player: Player::White, at: Position19x19 { x: 18, y: 18 } },
    );
    cursor = game.insert(&cursor, Action::Pass { player: Player::Black });
    cursor = game.insert(&cursor, Action::Pass { player: Player::White });
    cursor = game.insert(
        &cursor,
        Action::RequestEnd { player: Player::Black, dead_stones: vec![] },
    );
    cursor = game.insert(&cursor, Action::AcceptEnd { player: Player::White });
    assert!(cursor != Path::Empty);

    // A seki-shaped outcome of the erosion formula: the two boundary
    // stones count for both sides.
    let state = game.get_state(&cursor);
    assert!(state.phase == GamePhase::Ended(360, 360));
}

#[test]
fn ended_is_terminal() {
    let mut game = Game::<Action>::new();
    let mut cursor = Path::Empty;

    cursor = game.insert(&cursor, Action::Pass { player: Player::Black });
    cursor = game.insert(&cursor, Action::Pass { player: Player::White });
    cursor = game.insert(
        &cursor,
        Action::RequestEnd { player: Player::Black, dead_stones: vec![] },
    );
    cursor = game.insert(&cursor, Action::AcceptEnd { player: Player::White });
    assert!(cursor != Path::Empty);

    assert!(game.insert(&cursor, Action::Pass { player: Player::Black }) == Path::Empty);
    assert!(
        game.insert(
            &cursor,
            Action::Play { player: Player::Black, at: Position19x19 { x: 3, y: 3 } }
        ) == Path::Empty
    );
    assert!(game.insert(&cursor, Action::Handicap { stones: 3 }) == Path::Empty);
    assert!(
        game.insert(
            &cursor,
            Action::RequestEnd { player: Player::Black, dead_stones: vec![] }
        ) == Path::Empty
    );
    assert!(game.insert(&cursor, Action::AcceptEnd { player: Player::Black }) == Path::Empty);
    assert!(game.insert(&cursor, Action::RejectEnd { player: Player::Black }) == Path::Empty);
}

#[test]
fn reject_end_resumes_negotiation() {
    let mut game = Game::<Action>::new();
    let mut cursor = Path::Empty;

    cursor = game.insert(&cursor, Action::Pass { player: Player::Black });
    cursor = game.insert(&cursor, Action::Pass { player: Player::White });
    cursor = game.insert(
        &cursor,
        Action::RequestEnd { player: Player::Black, dead_stones: vec![] },
    );
    assert!(cursor != Path::Empty);
    assert!(game.get_state(&cursor).phase == GamePhase::EndRequested(Player::Black));

    cursor = game.insert(&cursor, Action::RejectEnd { player: Player::White });
    assert!(cursor != Path::Empty);

    let state = game.get_state(&cursor);
    assert!(state.phase == GamePhase::Ending);
    assert!(state.dead_stones == Option::None);
}

#[test]
fn request_end_stores_proposal() {
    let mut game = Game::<Action>::new();
    let mut cursor = Path::Empty;

    cursor = game.insert(
        &cursor,
        Action::Play { player: Player::Black, at: Position19x19 { x: 5, y: 5 } },
    );
    cursor = game.insert(&cursor, Action::Pass { player: Player::White });
    cursor = game.insert(&cursor, Action::Pass { player: Player::Black });
    cursor = game.insert(&cursor, Action::Pass { player: Player::White });
    cursor = game.insert(
        &cursor,
        Action::RequestEnd {
            player: Player::White,
            dead_stones: vec![Position19x19 { x: 5, y: 5 }],
        },
    );
    assert!(cursor != Path::Empty);

    let state = game.get_state(&cursor);
    assert!(state.dead_stones == Option::Some(vec![Position19x19 { x: 5, y: 5 }]));
}
