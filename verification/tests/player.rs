use goban::{Player, Stone};

#[test]
fn test_other() {
    assert_eq!(Player::Black.other(), Player::White);
    assert_eq!(Player::White.other(), Player::Black);
}

#[test]
fn test_to_stone() {
    assert_eq!(Player::Black.stone(), Stone::Black);
    assert_eq!(Player::White.stone(), Stone::White);
}

#[test]
fn player_other() {
    assert_eq!(Player::Black.other(), Player::White);
    assert_eq!(Player::White.other(), Player::Black);
}

#[test]
fn player_to_stone() {
    assert_eq!(Player::Black.stone(), Stone::Black);
    assert_eq!(Player::White.stone(), Stone::White);
}
