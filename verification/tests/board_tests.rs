use sigmazero::board::XOPosition;
use sigmazero::game::{Game, GameError, GameStatus, Position};
use sigmazero::small_board::{Position3, XOPlayer};
use sigmazero::board::MainBoard;
use sigmazero::xo_game::XOGame;

#[test]
fn test_draw_by_filling_last_target_board() {
    let mut board = MainBoard::default();

    // Alternating sub-board wins in a pattern without a main-board win.
    for board_idx in [0, 2, 3, 7] {
        let large_pos = Position3::from_flat(board_idx);
        board.set_cell(
            &XOPosition::from_subpos(large_pos, Position3::new(0, 0)),
            XOPlayer::X,
        );
        board.set_cell(
            &XOPosition::from_subpos(large_pos, Position3::new(1, 1)),
            XOPlayer::X,
        );
        board.set_cell(
            &XOPosition::from_subpos(large_pos, Position3::new(2, 2)),
            XOPlayer::X,
        );
    }

    for board_idx in [1, 5, 6, 8] {
        let large_pos = Position3::from_flat(board_idx);
        board.set_cell(
            &XOPosition::from_subpos(large_pos, Position3::new(1, 0)),
            XOPlayer::O,
        );
        board.set_cell(
            &XOPosition::from_subpos(large_pos, Position3::new(1, 1)),
            XOPlayer::O,
        );
        board.set_cell(
            &XOPosition::from_subpos(large_pos, Position3::new(1, 2)),
            XOPlayer::O,
        );
    }

    // Fill the centre board except for one cell.
    let target_board_pos = Position3::from_flat(4);
    let moves = [
        (0, 0, XOPlayer::X),
        (0, 1, XOPlayer::O),
        (0, 2, XOPlayer::X),
        (1, 0, XOPlayer::O),
        (2, 0, XOPlayer::X),
        (2, 1, XOPlayer::O),
        (2, 2, XOPlayer::X),
        (1, 2, XOPlayer::O),
    ];
    for (x, y, player) in moves {
        board.set_cell(
            &XOPosition::from_subpos(target_board_pos, Position3::new(x, y)),
            player,
        );
    }

    // The last move forces the reply into an already-decided board, so any
    // free cell is legal; only one is left.
    board.set_cell(
        &XOPosition::from_subpos(Position3::from_flat(5), Position3::new(0, 2)),
        XOPlayer::O,
    );

    assert!(!board.is_draw(), "Board should not be in draw state yet");
    assert!(board.winner().is_none(), "There should be no winner before final move");
    let valid_moves = board.valid_moves();
    assert_eq!(valid_moves.len(), 1, "Should only have one valid move left");

    let final_move = XOPosition::from_subpos(target_board_pos, Position3::new(1, 1));
    board.set_cell(&final_move, XOPlayer::X);

    assert!(board.is_draw(), "Board should be in draw state after final move");
    assert!(board.winner().is_none(), "There should be no winner");
}

#[test]
fn board_rotation_four_times_is_identity() {
    let mut board = MainBoard::default();
    board.set_cell(&XOPosition::new(1, 0), XOPlayer::X);
    board.set_cell(&XOPosition::new(4, 4), XOPlayer::O);
    board.set_cell(&XOPosition::new(7, 2), XOPlayer::X);
    let rotated = board
        .rotated_90()
        .rotated_90()
        .rotated_90()
        .rotated_90();
    assert_eq!(rotated, board);
}

#[test]
fn board_reflection_twice_is_identity() {
    let mut board = MainBoard::default();
    board.set_cell(&XOPosition::new(2, 5), XOPlayer::O);
    board.set_cell(&XOPosition::new(8, 8), XOPlayer::X);
    let reflected = board.reflected_vertical().reflected_vertical();
    assert_eq!(reflected, board);
}

#[test]
fn board_augmented_has_eight_variants() {
    let mut board = MainBoard::default();
    board.set_cell(&XOPosition::new(0, 0), XOPlayer::X);
    let variants = board.augmented();
    assert_eq!(variants.len(), 8);
    assert_eq!(variants[0], board);
    // The stone at the corner visits all four corners, under rotation and
    // under reflection.
    assert_eq!(variants[1].get_cell(&XOPosition::new(8, 0)), Some(XOPlayer::X));
    assert_eq!(variants[2].get_cell(&XOPosition::new(8, 8)), Some(XOPlayer::X));
    assert_eq!(variants[3].get_cell(&XOPosition::new(0, 8)), Some(XOPlayer::X));
    assert_eq!(variants[4].get_cell(&XOPosition::new(8, 0)), Some(XOPlayer::X));
}

#[test]
fn rotation_maps_cells_and_last_move() {
    let mut board = MainBoard::default();
    board.set_cell(&XOPosition::new(3, 1), XOPlayer::X);
    let rotated = board.rotated_90();
    // (x, y) -> (8 - y, x)
    assert_eq!(rotated.get_cell(&XOPosition::new(7, 3)), Some(XOPlayer::X));
    assert_eq!(rotated.last_move, Some(XOPosition::new(7, 3)));
}

#[test]
fn centre_move_confines_reply_to_centre_board() {
    // On an empty board, playing at (4, 4) forces the opponent into the
    // sub-board at meta-coordinates (1, 1): exactly the 8 remaining cells.
    let mut game = XOGame::default();
    let centre = XOPosition::new(4, 4);
    let status = game.take_turn(&centre).unwrap();
    assert!(matches!(status, GameStatus::InProgress { player: XOPlayer::O }));
    let moves = game.valid_moves();
    assert_eq!(moves.len(), 8);
    for k in 0..moves.len() {
        let p = moves.get(k);
        let idx = p.to_index();
        let (x, y) = (idx % 9, idx / 9);
        assert!(x >= 3 && x <= 5 && y >= 3 && y <= 5);
        assert!(!(x == 4 && y == 4));
    }
}

#[test]
fn take_turn_rejects_occupied_and_out_of_range() {
    let mut game = XOGame::default();
    let centre = XOPosition::new(4, 4);
    game.take_turn(&centre).unwrap();
    match game.take_turn(&centre) {
        Err(GameError::InvalidMove { position }) => assert_eq!(position, centre),
        _ => panic!("expected InvalidMove"),
    }
    let outside = XOPosition::new(9, 9);
    assert!(matches!(
        game.take_turn(&outside),
        Err(GameError::InvalidMove { .. })
    ));
}

#[test]
fn take_turn_fails_once_the_game_ended() {
    let board = MainBoard::default();
    let mut game = XOGame { board, status: GameStatus::Won { player: XOPlayer::X } };
    assert!(matches!(game.take_turn(&XOPosition::new(0, 0)), Err(GameError::GameOver)));
    let mut drawn = XOGame { board, status: GameStatus::Draw };
    assert!(matches!(drawn.take_turn(&XOPosition::new(0, 0)), Err(GameError::GameOver)));
}

#[test]
fn features_mark_stones_and_last_move() {
    let mut game = XOGame::default();
    game.take_turn(&XOPosition::new(4, 4)).unwrap();
    let feats = game.features();
    assert_eq!(feats.len(), 243);
    // It is O's turn: X's stone at (4,4) is an opponent stone (channel 1)
    // and the last move (channel 2).
    let g = 4 + 9 * 4;
    assert_eq!(feats[g], 0);
    assert_eq!(feats[81 + g], 1);
    assert_eq!(feats[162 + g], 1);
    // Every other cell is empty in all channels.
    for h in 0..81 {
        if h != g {
            assert_eq!(feats[h], 0);
            assert_eq!(feats[81 + h], 0);
            assert_eq!(feats[162 + h], 0);
        }
    }
}

#[test]
fn position_index_round_trip() {
    for i in 0..81 {
        let p = XOPosition::from_index(i);
        assert!(p.is_valid());
        assert_eq!(p.to_index(), i);
    }
}
