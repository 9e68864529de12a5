use engine::board::{Board, Color, Piece, PieceType, Square};
use engine::castling::{CastlingRights, CastlingSide};
use engine::mobility::{is_in_check, is_square_attacked, MoveGenerator};
use engine::mv::{Move, MoveType};
use engine::state::State;

fn sq(rank: u8, file: u8) -> Square {
    Square::from_coords(rank, file)
}

fn bare_kings() -> Board {
    Board::new()
        .with_piece(Piece::new(PieceType::King, Color::White), sq(0, 4))
        .with_piece(Piece::new(PieceType::King, Color::Black), sq(7, 4))
}

fn position(board: Board, to_move: Color, rights: CastlingRights) -> State {
    State {
        board,
        to_move,
        castling_rights: rights,
        en_passant: None,
        halfmove_clock: 0,
        fullmove_number: 1,
    }
}

#[test]
fn initial_position_has_twenty_moves() {
    let st = State::initial();
    let moves = MoveGenerator::new(&st).all();
    assert_eq!(moves.len(), 20);
    let mut pawn_moves = 0;
    let mut knight_moves = 0;
    for mv in &moves {
        let mover = st.board.piece_at(mv.source()).unwrap();
        match mover.piece_type() {
            PieceType::Pawn => pawn_moves += 1,
            PieceType::Knight => knight_moves += 1,
            other => panic!("unexpected mover {:?}", other),
        }
        assert_eq!(mv.move_type(), MoveType::Normal);
    }
    assert_eq!(pawn_moves, 16);
    assert_eq!(knight_moves, 4);
}

#[test]
fn attack_oracle_basic_geometry() {
    let board = Board::new()
        .with_piece(Piece::new(PieceType::Rook, Color::White), sq(0, 0))
        .with_piece(Piece::new(PieceType::Pawn, Color::White), sq(0, 3))
        .with_piece(Piece::new(PieceType::Knight, Color::Black), sq(2, 1));
    // The rook attacks along the first rank until blocked by the pawn on d1.
    assert!(is_square_attacked(&board, sq(0, 2), Color::White));
    assert!(is_square_attacked(&board, sq(0, 3), Color::White));
    assert!(!is_square_attacked(&board, sq(0, 4), Color::White));
    // ... and up the a-file.
    assert!(is_square_attacked(&board, sq(5, 0), Color::White));
    // The knight attacks a1; pawns attack only diagonally forward.
    assert!(is_square_attacked(&board, sq(0, 0), Color::Black));
    assert!(is_square_attacked(&board, sq(1, 2), Color::White));
    assert!(!is_square_attacked(&board, sq(1, 3), Color::White));
}

#[test]
fn kingside_castling_generated_and_applied() {
    // White king e1, rook h1, both unmoved, f1/g1 empty, nothing attacking
    // e1, f1 or g1.
    let board = bare_kings().with_piece(Piece::new(PieceType::Rook, Color::White), sq(0, 7));
    let rights = CastlingRights::none().gain(Color::White, CastlingSide::Kingside);
    let st = position(board, Color::White, rights);
    let from_king = MoveGenerator::new(&st).from(sq(0, 4));
    let castle = Move::castling(sq(0, 4), sq(0, 6));
    assert!(from_king.contains(&castle));
    let next = st.apply(castle);
    assert_eq!(next.board.piece_at(sq(0, 5)).unwrap().piece_type(), PieceType::Rook);
    assert_eq!(next.board.piece_at(sq(0, 6)).unwrap().piece_type(), PieceType::King);
}

#[test]
fn castling_blocked_by_attacked_path() {
    // A black rook on g8 attacks g1: kingside castling must not be generated.
    let board = bare_kings()
        .with_piece(Piece::new(PieceType::Rook, Color::White), sq(0, 7))
        .with_piece(Piece::new(PieceType::Rook, Color::Black), sq(7, 6));
    let rights = CastlingRights::none().gain(Color::White, CastlingSide::Kingside);
    let st = position(board, Color::White, rights);
    let from_king = MoveGenerator::new(&st).from(sq(0, 4));
    assert!(!from_king.contains(&Move::castling(sq(0, 4), sq(0, 6))));
}

#[test]
fn castling_blocked_by_occupied_corridor() {
    let board = bare_kings()
        .with_piece(Piece::new(PieceType::Rook, Color::White), sq(0, 7))
        .with_piece(Piece::new(PieceType::Bishop, Color::White), sq(0, 5));
    let rights = CastlingRights::none().gain(Color::White, CastlingSide::Kingside);
    let st = position(board, Color::White, rights);
    let from_king = MoveGenerator::new(&st).from(sq(0, 4));
    assert!(!from_king.contains(&Move::castling(sq(0, 4), sq(0, 6))));
}

#[test]
fn en_passant_capture_removes_the_double_stepped_pawn() {
    // Black pawn e7-e5 sets the target e6; the White pawn on d5 captures en
    // passant, removing the pawn from e5, not e6.
    let board = bare_kings()
        .with_piece(Piece::new(PieceType::Pawn, Color::White), sq(4, 3))
        .with_piece(Piece::new(PieceType::Pawn, Color::Black), sq(6, 4));
    let st = position(board, Color::Black, CastlingRights::none());
    let after_push = st.apply(Move::new(sq(6, 4), sq(4, 4)));
    assert_eq!(after_push.en_passant, Some(sq(5, 4)));

    let white_moves = MoveGenerator::new(&after_push).from(sq(4, 3));
    let ep = Move::en_passant(sq(4, 3), sq(5, 4));
    assert!(white_moves.contains(&ep));
    assert_eq!(ep.en_passant_capture(), sq(4, 4));

    let done = after_push.apply(ep);
    assert!(done.board.is_empty(sq(4, 4)));
    assert!(done.board.is_empty(sq(4, 3)));
    assert_eq!(done.board.piece_at(sq(5, 4)).unwrap().piece_type(), PieceType::Pawn);
    assert_eq!(done.board.piece_at(sq(5, 4)).unwrap().color(), Color::White);
}

#[test]
fn en_passant_from_the_other_file() {
    let board = bare_kings()
        .with_piece(Piece::new(PieceType::Pawn, Color::White), sq(4, 5))
        .with_piece(Piece::new(PieceType::Pawn, Color::Black), sq(6, 4));
    let st = position(board, Color::Black, CastlingRights::none());
    let after_push = st.apply(Move::new(sq(6, 4), sq(4, 4)));
    let white_moves = MoveGenerator::new(&after_push).from(sq(4, 5));
    assert!(white_moves.contains(&Move::en_passant(sq(4, 5), sq(5, 4))));
}

#[test]
fn promotion_generates_one_move_per_kind() {
    let board = bare_kings().with_piece(Piece::new(PieceType::Pawn, Color::White), sq(6, 0));
    let st = position(board, Color::White, CastlingRights::none());
    let moves = MoveGenerator::new(&st).from(sq(6, 0));
    assert_eq!(moves.len(), 4);
    let mut kinds = Vec::new();
    for mv in &moves {
        assert_eq!(mv.move_type(), MoveType::Promotion);
        assert_ne!(mv.move_type(), MoveType::Normal);
        assert_eq!(mv.target(), sq(7, 0));
        kinds.push(mv.promotion_piece().unwrap());
    }
    for kind in [PieceType::Knight, PieceType::Bishop, PieceType::Rook, PieceType::Queen] {
        assert!(kinds.contains(&kind));
    }
}

#[test]
fn moves_never_leave_own_king_in_check() {
    // A black rook on e6 checks the white king on e1: every legal reply must
    // resolve the check.
    let board = Board::new()
        .with_piece(Piece::new(PieceType::King, Color::White), sq(0, 4))
        .with_piece(Piece::new(PieceType::King, Color::Black), sq(7, 7))
        .with_piece(Piece::new(PieceType::Rook, Color::Black), sq(5, 4));
    let st = position(board, Color::White, CastlingRights::none());
    assert!(is_in_check(&st));
    let moves = MoveGenerator::new(&st).all();
    assert!(!moves.is_empty());
    for mv in &moves {
        let next = st.apply(*mv);
        // After any legal move the white king is no longer attacked.
        let mut king_sq = None;
        for (square, piece) in next.board.pieces() {
            if piece.piece_type() == PieceType::King && piece.color() == Color::White {
                king_sq = Some(square);
            }
        }
        assert!(!is_square_attacked(&next.board, king_sq.unwrap(), Color::Black));
    }
}

#[test]
fn back_rank_mate_has_no_legal_moves() {
    // Black king g8 behind its own pawns, a white rook delivers mate on a8.
    let board = Board::new()
        .with_piece(Piece::new(PieceType::King, Color::Black), sq(7, 6))
        .with_piece(Piece::new(PieceType::Pawn, Color::Black), sq(6, 5))
        .with_piece(Piece::new(PieceType::Pawn, Color::Black), sq(6, 6))
        .with_piece(Piece::new(PieceType::Pawn, Color::Black), sq(6, 7))
        .with_piece(Piece::new(PieceType::Rook, Color::White), sq(7, 0))
        .with_piece(Piece::new(PieceType::King, Color::White), sq(0, 6));
    let st = position(board, Color::Black, CastlingRights::none());
    assert!(is_in_check(&st));
    let moves = MoveGenerator::new(&st).all();
    assert!(moves.is_empty());
}

#[test]
fn generation_from_a_square_filters_by_source() {
    let st = State::initial();
    let generator = MoveGenerator::new(&st);
    let from_knight = generator.from(sq(0, 1));
    assert_eq!(from_knight.len(), 2);
    for mv in &from_knight {
        assert_eq!(mv.source(), sq(0, 1));
    }
    let from_empty = MoveGenerator::new(&st).from(sq(3, 3));
    assert!(from_empty.is_empty());
}

#[test]
fn stalemate_position_is_not_check_but_has_no_moves() {
    // Black king a8, White queen c7, White king c8-adjacent guard on b6:
    // classic stalemate with Black to move.
    let board = Board::new()
        .with_piece(Piece::new(PieceType::King, Color::Black), sq(7, 0))
        .with_piece(Piece::new(PieceType::Queen, Color::White), sq(6, 2))
        .with_piece(Piece::new(PieceType::King, Color::White), sq(5, 1));
    let st = position(board, Color::Black, CastlingRights::none());
    assert!(!is_in_check(&st));
    let moves = MoveGenerator::new(&st).all();
    assert!(moves.is_empty());
}
