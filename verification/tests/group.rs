use goban::{Board19x19, Group, Position19x19, Stone};

#[test]
fn test_create() {
    let mut board = Board19x19::new();
    board.set(&Position19x19 { x: 4, y: 4 }, &Stone::Black);
    board.set(&Position19x19 { x: 8, y: 8 }, &Stone::White);
    board.set(&Position19x19 { x: 8, y: 9 }, &Stone::White);

    let empty_group = Group::new(&board, &Position19x19 { x: 0, y: 0 });
    let black_group = Group::new(&board, &Position19x19 { x: 4, y: 4 });
    let white_group = Group::new(&board, &Position19x19 { x: 8, y: 8 });
    let alternative = Group::new(&board, &Position19x19 { x: 8, y: 9 });

    assert_eq!(empty_group.positions.len(), 0);
    assert_eq!(black_group.positions.len(), 1);
    assert_eq!(white_group.positions.len(), 2);
    assert_eq!(white_group, alternative);
}

#[test]
fn test_liberties() {
    let mut board = Board19x19::new();
    board.set(&Position19x19 { x: 7, y: 8 }, &Stone::White); //   .
    board.set(&Position19x19 { x: 8, y: 7 }, &Stone::Black); //  .O.
    board.set(&Position19x19 { x: 8, y: 8 }, &Stone::White); //  XOO.
    board.set(&Position19x19 { x: 8, y: 9 }, &Stone::White); //   ..

    let white_group = Group::new(&board, &Position19x19 { x: 8, y: 8 });
    assert_eq!(white_group.liberties().len(), 6);
}

#[test]
fn group_create() {
    let mut board = Board19x19::new();
    board.set(&Position19x19 { x: 4, y: 4 }, &Stone::Black);
    board.set(&Position19x19 { x: 8, y: 8 }, &Stone::White);
    board.set(&Position19x19 { x: 8, y: 9 }, &Stone::White);

    let empty_group = Group::new(&board, &Position19x19 { x: 0, y: 0 });
    let black_group = Group::new(&board, &Position19x19 { x: 4, y: 4 });
    let white_group = Group::new(&board, &Position19x19 { x: 8, y: 8 });
    let alternative = Group::new(&board, &Position19x19 { x: 8, y: 9 });

    assert_eq!(empty_group.len(), 0);
    assert_eq!(black_group.len(), 1);
    assert_eq!(white_group.len(), 2);
    assert_eq!(white_group, alternative);
}

#[test]
fn group_liberties() {
    let mut board = Board19x19::new();
    board.set(&Position19x19 { x: 7, y: 8 }, &Stone::White);
    board.set(&Position19x19 { x: 8, y: 7 }, &Stone::Black);
    board.set(&Position19x19 { x: 8, y: 8 }, &Stone::White);
    board.set(&Position19x19 { x: 8, y: 9 }, &Stone::White);

    let white_group = Group::new(&board, &Position19x19 { x: 8, y: 8 });
    assert_eq!(white_group.liberties().len(), 6);
}

#[test]
fn group_stone_and_contains() {
    let mut board = Board19x19::new();
    board.set(&Position19x19 { x: 2, y: 2 }, &Stone::Black);
    board.set(&Position19x19 { x: 2, y: 3 }, &Stone::Black);

    let group = board.group_at(&Position19x19 { x: 2, y: 2 });
    assert_eq!(group.stone(), Some(Stone::Black));
    assert!(group.contains(&Position19x19 { x: 2, y: 3 }));
    assert!(!group.contains(&Position19x19 { x: 3, y: 3 }));

    let empty = board.group_at(&Position19x19 { x: 9, y: 9 });
    assert_eq!(empty.stone(), None);
}
