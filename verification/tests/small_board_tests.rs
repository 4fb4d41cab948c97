use sigmazero::small_board::{Board, Position3, XOPlayer};

#[test]
fn small_board_board_default() {
    let b = Board::default();
    assert_eq!(b.x_bits, 0);
    assert_eq!(b.o_bits, 0);
}

#[test]
fn small_board_set_cell() {
    let mut b = Board::default();
    b.set_cell(&Position3::new(1, 1), XOPlayer::X);
    assert_eq!(b.x_bits, 16);
}

#[test]
fn small_board_get_cell() {
    let b = Board { x_bits: 1, o_bits: 0 };
    assert_eq!(b.get_cell(&Position3::new(0, 0)), Some(XOPlayer::X));
}

#[test]
fn small_board_set_get_cell() {
    let mut b = Board::default();
    let player = XOPlayer::X;
    let pos = Position3::new(1, 1);
    b.set_cell(&pos, player);
    assert_eq!(b.get_cell(&pos), Some(player));
}

#[test]
fn small_board_win() {
    let mut b = Board::default();
    b.set_cell(&Position3::new(0, 0), XOPlayer::X);
    b.set_cell(&Position3::new(2, 0), XOPlayer::X);
    b.set_cell(&Position3::new(1, 1), XOPlayer::X);
    b.set_cell(&Position3::new(1, 2), XOPlayer::X);
    b.set_cell(&Position3::new(0, 2), XOPlayer::X);
    b.set_cell(&Position3::new(1, 0), XOPlayer::O);
    b.set_cell(&Position3::new(0, 1), XOPlayer::O);
    b.set_cell(&Position3::new(2, 1), XOPlayer::O);
    b.set_cell(&Position3::new(2, 2), XOPlayer::O);
    assert_eq!(b.winner(), Some(XOPlayer::X));
}

#[test]
fn small_board_reset_other_player() {
    let mut b = Board::default();
    let pos = Position3::new(1, 1);
    b.set_cell(&pos, XOPlayer::X);
    b.set_cell(&pos, XOPlayer::O);
    assert_eq!(b.get_cell(&pos), Some(XOPlayer::O));
}

#[test]
fn small_board_test_count() {
    let mut b = Board::default();
    b.set_cell(&Position3::new(0, 1), XOPlayer::X);
    b.set_cell(&Position3::new(1, 0), XOPlayer::X);
    b.set_cell(&Position3::new(2, 2), XOPlayer::X);
    b.set_cell(&Position3::new(2, 0), XOPlayer::O);
    b.set_cell(&Position3::new(1, 1), XOPlayer::O);
    b.set_cell(&Position3::new(0, 2), XOPlayer::O);
    assert_eq!(b.count_player(XOPlayer::X), 3);
    assert_eq!(b.count_player(XOPlayer::O), 3);
}

#[test]
fn small_board_test_valid_moves() {
    let mut b = Board::default();
    b.set_cell(&Position3::new(0, 1), XOPlayer::X);
    b.set_cell(&Position3::new(1, 0), XOPlayer::X);
    b.set_cell(&Position3::new(2, 2), XOPlayer::X);
    b.set_cell(&Position3::new(2, 0), XOPlayer::O);
    b.set_cell(&Position3::new(1, 1), XOPlayer::O);
    b.set_cell(&Position3::new(1, 2), XOPlayer::O);
    assert!(b.valid_moves().contains(&Position3::new(0, 0)));
    assert_eq!(b.valid_moves().len(), 3);
}

#[test]
fn small_board_test_position_parse() {
    let _: Position3 = "1,2".parse().unwrap();
    assert!("13eq,3".parse::<Position3>().is_err());
}

#[test]
fn test_position_parse() {
    let parsed: Position3 = "1,2".parse().unwrap();
    assert_eq!(parsed, Position3::new(1, 2));
    assert!("13eq,3".parse::<Position3>().is_err());
}

#[test]
fn small_board_full_draw_has_no_moves() {
    let mut b = Board::default();
    // X . O / O O X / X X O : full, no line for either player.
    b.set_cell(&Position3::new(0, 0), XOPlayer::X);
    b.set_cell(&Position3::new(1, 0), XOPlayer::X);
    b.set_cell(&Position3::new(2, 0), XOPlayer::O);
    b.set_cell(&Position3::new(0, 1), XOPlayer::O);
    b.set_cell(&Position3::new(1, 1), XOPlayer::O);
    b.set_cell(&Position3::new(2, 1), XOPlayer::X);
    b.set_cell(&Position3::new(0, 2), XOPlayer::X);
    b.set_cell(&Position3::new(1, 2), XOPlayer::X);
    b.set_cell(&Position3::new(2, 2), XOPlayer::O);
    assert!(b.is_full());
    assert!(b.winner().is_none());
    assert_eq!(b.valid_moves().len(), 0);
}

#[test]
fn position3_flat_round_trip() {
    for f in 0..9u8 {
        let p = Position3::from_flat(f);
        assert!(p.is_valid());
        assert_eq!(p.flat(), f);
    }
}

#[test]
fn position3_from_vec_checks_length() {
    assert!(Position3::from_vec(vec![1, 2, 3]).is_err());
    assert_eq!(Position3::from_vec(vec![1, 2]).unwrap(), Position3::new(1, 2));
}
