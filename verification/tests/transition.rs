use engine::board::{Board, Color, Piece, PieceType, Square};
use engine::castling::{CastlingRights, CastlingSide};
use engine::mv::Move;
use engine::state::State;

fn sq(rank: u8, file: u8) -> Square {
    Square::from_coords(rank, file)
}

fn bare_kings() -> Board {
    Board::new()
        .with_piece(Piece::new(PieceType::King, Color::White), sq(0, 4))
        .with_piece(Piece::new(PieceType::King, Color::Black), sq(7, 4))
}

fn position(board: Board, to_move: Color) -> State {
    State {
        board,
        to_move,
        castling_rights: CastlingRights::all(),
        en_passant: None,
        halfmove_clock: 0,
        fullmove_number: 1,
    }
}

#[test]
fn initial_position_layout() {
    let st = State::initial();
    assert_eq!(st.to_move, Color::White);
    assert_eq!(st.castling_rights, CastlingRights::all());
    assert_eq!(st.en_passant, None);
    assert_eq!(st.halfmove_clock, 0);
    assert_eq!(st.fullmove_number, 1);
    assert_eq!(st.board.pieces().len(), 32);
    let king = st.board.piece_at(sq(0, 4)).unwrap();
    assert_eq!(king.piece_type(), PieceType::King);
    assert_eq!(king.color(), Color::White);
    let queen = st.board.piece_at(sq(7, 3)).unwrap();
    assert_eq!(queen.piece_type(), PieceType::Queen);
    assert_eq!(queen.color(), Color::Black);
    for file in 0..8u8 {
        assert_eq!(st.board.piece_at(sq(1, file)).unwrap().piece_type(), PieceType::Pawn);
        assert_eq!(st.board.piece_at(sq(6, file)).unwrap().color(), Color::Black);
        assert!(st.board.is_empty(sq(3, file)));
    }
}

#[test]
fn normal_move_relocates_and_flips_turn() {
    let st = State::initial();
    let next = st.apply(Move::new(sq(0, 1), sq(2, 2)));  // knight b1-c3
    assert!(next.board.is_empty(sq(0, 1)));
    let knight = next.board.piece_at(sq(2, 2)).unwrap();
    assert_eq!(knight.piece_type(), PieceType::Knight);
    assert!(knight.has_moved());
    assert_eq!(next.to_move, Color::Black);
    assert_eq!(next.halfmove_clock, 1);
    assert_eq!(next.fullmove_number, 1);
    assert_eq!(next.en_passant, None);
    // the original position is unchanged
    assert_eq!(st.board.piece_at(sq(0, 1)).map(|p| p.piece_type()), Some(PieceType::Knight));
}

#[test]
fn pawn_move_resets_halfmove_clock() {
    let mut st = State::initial();
    st.halfmove_clock = 7;
    let next = st.apply(Move::new(sq(1, 4), sq(2, 4)));
    assert_eq!(next.halfmove_clock, 0);
}

#[test]
fn capture_resets_halfmove_clock() {
    let board = bare_kings()
        .with_piece(Piece::new(PieceType::Rook, Color::White), sq(3, 3))
        .with_piece(Piece::new(PieceType::Knight, Color::Black), sq(3, 7));
    let mut st = position(board, Color::White);
    st.halfmove_clock = 9;
    let next = st.apply(Move::new(sq(3, 3), sq(3, 7)));
    assert_eq!(next.halfmove_clock, 0);
    assert_eq!(next.board.piece_at(sq(3, 7)).unwrap().piece_type(), PieceType::Rook);
}

#[test]
fn fullmove_increments_after_black() {
    let st = State::initial();
    let after_white = st.apply(Move::new(sq(1, 4), sq(3, 4)));
    assert_eq!(after_white.fullmove_number, 1);
    let after_black = after_white.apply(Move::new(sq(6, 4), sq(4, 4)));
    assert_eq!(after_black.fullmove_number, 2);
}

#[test]
fn double_push_sets_en_passant_target() {
    let st = State::initial();
    let next = st.apply(Move::new(sq(1, 4), sq(3, 4)));  // e2-e4
    assert_eq!(next.en_passant, Some(sq(2, 4)));  // e3
    let after = next.apply(Move::new(sq(6, 0), sq(5, 0)));  // a7-a6
    assert_eq!(after.en_passant, None);
}

#[test]
fn promotion_replaces_the_pawn() {
    let board = bare_kings().with_piece(Piece::new(PieceType::Pawn, Color::White), sq(6, 0));
    let st = position(board, Color::White);
    let next = st.apply(Move::promotion(sq(6, 0), sq(7, 0), PieceType::Queen));
    assert!(next.board.is_empty(sq(6, 0)));
    let promoted = next.board.piece_at(sq(7, 0)).unwrap();
    assert_eq!(promoted.piece_type(), PieceType::Queen);
    assert_eq!(promoted.color(), Color::White);
}

#[test]
fn castling_moves_king_and_rook() {
    let board = bare_kings().with_piece(Piece::new(PieceType::Rook, Color::White), sq(0, 7));
    let st = position(board, Color::White);
    let next = st.apply(Move::castling(sq(0, 4), sq(0, 6)));
    assert!(next.board.is_empty(sq(0, 4)));
    assert!(next.board.is_empty(sq(0, 7)));
    assert_eq!(next.board.piece_at(sq(0, 6)).unwrap().piece_type(), PieceType::King);
    assert_eq!(next.board.piece_at(sq(0, 5)).unwrap().piece_type(), PieceType::Rook);
    assert!(!next.castling_rights.any(Color::White));
    assert!(next.castling_rights.any(Color::Black));
}

#[test]
fn king_move_loses_all_rights() {
    let st = position(bare_kings(), Color::White);
    let next = st.apply(Move::new(sq(0, 4), sq(0, 3)));
    assert!(!next.castling_rights.any(Color::White));
    assert!(next.castling_rights.has(Color::Black, CastlingSide::Kingside));
    assert!(next.castling_rights.has(Color::Black, CastlingSide::Queenside));
}

#[test]
fn rook_move_loses_one_right() {
    let board = bare_kings().with_piece(Piece::new(PieceType::Rook, Color::White), sq(0, 0));
    let st = position(board, Color::White);
    let next = st.apply(Move::new(sq(0, 0), sq(3, 0)));
    assert!(!next.castling_rights.has(Color::White, CastlingSide::Queenside));
    assert!(next.castling_rights.has(Color::White, CastlingSide::Kingside));
    assert!(next.castling_rights.any(Color::Black));
}

#[test]
fn capture_on_rook_home_square_loses_opponent_right() {
    let board = bare_kings()
        .with_piece(Piece::new(PieceType::Rook, Color::White), sq(0, 7))
        .with_piece(Piece::new(PieceType::Rook, Color::Black), sq(7, 7));
    let st = position(board, Color::Black);
    let next = st.apply(Move::new(sq(7, 7), sq(0, 7)));  // Rh8xh1
    assert!(!next.castling_rights.has(Color::White, CastlingSide::Kingside));
    assert!(next.castling_rights.has(Color::White, CastlingSide::Queenside));
    // Black's own kingside right is lost too: its rook left h8.
    assert!(!next.castling_rights.has(Color::Black, CastlingSide::Kingside));
    assert!(next.castling_rights.has(Color::Black, CastlingSide::Queenside));
}

#[test]
fn rights_never_increase_over_a_game_prefix() {
    let mut st = State::initial();
    let moves = [
        Move::new(sq(1, 4), sq(3, 4)),  // e4
        Move::new(sq(6, 4), sq(4, 4)),  // e5
        Move::new(sq(0, 6), sq(2, 5)),  // Nf3
        Move::new(sq(7, 1), sq(5, 2)),  // Nc6
        Move::new(sq(0, 4), sq(1, 4)),  // Ke2
    ];
    let mut held = 4;
    for mv in moves {
        let next = st.apply(mv);
        let mut now = 0;
        for color in [Color::White, Color::Black] {
            for side in [CastlingSide::Kingside, CastlingSide::Queenside] {
                if next.castling_rights.has(color, side) {
                    assert!(st.castling_rights.has(color, side));
                    now += 1;
                }
            }
        }
        assert!(now <= held);
        held = now;
        st = next;
    }
    assert!(!st.castling_rights.any(Color::White));
    assert!(st.castling_rights.any(Color::Black));
}

#[test]
fn apply_from_an_empty_source_leaves_the_board() {
    let st = position(bare_kings(), Color::White);
    let next = st.apply(Move::new(sq(3, 3), sq(4, 4)));
    assert_eq!(next.board.pieces().len(), 2);
    assert!(next.board.is_empty(sq(3, 3)));
    assert!(next.board.is_empty(sq(4, 4)));
    assert_eq!(next.to_move, Color::Black);
}

#[test]
fn quiet_piece_move_increments_halfmove_clock() {
    let board = bare_kings().with_piece(Piece::new(PieceType::Bishop, Color::White), sq(2, 2));
    let mut st = position(board, Color::White);
    st.halfmove_clock = 4;
    let next = st.apply(Move::new(sq(2, 2), sq(4, 4)));
    assert_eq!(next.halfmove_clock, 5);
}

#[test]
fn kings_survive_applied_captures() {
    let board = bare_kings()
        .with_piece(Piece::new(PieceType::Queen, Color::White), sq(3, 3))
        .with_piece(Piece::new(PieceType::Knight, Color::Black), sq(5, 5));
    let st = position(board, Color::White);
    let next = st.apply(Move::new(sq(3, 3), sq(5, 5)));
    let mut white_kings = 0;
    let mut black_kings = 0;
    for (_, piece) in next.board.pieces() {
        if piece.piece_type() == PieceType::King {
            match piece.color() {
                Color::White => white_kings += 1,
                Color::Black => black_kings += 1,
            }
        }
    }
    assert_eq!(white_kings, 1);
    assert_eq!(black_kings, 1);
}
