use engine::board::{Board, Color, Piece, PieceType, Square};
use engine::castling::{CastlingRights, CastlingSide};
use engine::display::{piece_char, render_board, render_piece, render_square};
use engine::mv::{Move, MoveType};

#[test]
fn square_roundtrip_all_coords() {
    for rank in 0..8u8 {
        for file in 0..8u8 {
            let s = Square::from_coords(rank, file);
            assert_eq!(s.rank(), rank);
            assert_eq!(s.file(), file);
            assert_eq!(Square::from_index(s.index()), s);
        }
    }
}

#[test]
fn square_offset_bounds() {
    let e4 = Square::from_coords(3, 4);
    assert_eq!(e4.offset(1, 0), Some(Square::from_coords(4, 4)));
    assert_eq!(e4.offset(-3, -4), Some(Square::from_coords(0, 0)));
    assert_eq!(e4.offset(5, 0), None);
    assert_eq!(e4.offset(0, 4), None);
    let a1 = Square::from_coords(0, 0);
    assert_eq!(a1.offset(-1, 0), None);
    assert_eq!(a1.offset(0, -1), None);
}

#[test]
fn square_forward_depends_on_color() {
    let e2 = Square::from_coords(1, 4);
    assert_eq!(e2.forward(Color::White, 1, 0), Some(Square::from_coords(2, 4)));
    assert_eq!(e2.forward(Color::Black, 1, 0), Some(Square::from_coords(0, 4)));
    assert_eq!(e2.forward(Color::Black, 2, 0), None);
    assert_eq!(e2.forward(Color::White, 1, -1), Some(Square::from_coords(2, 3)));
    // The lateral offset is relative to the mover's advance: Black's right is
    // the opposite file direction.
    let e7 = Square::from_coords(6, 4);
    assert_eq!(e7.forward(Color::Black, 1, 1), Some(Square::from_coords(5, 3)));
    assert_eq!(e7.forward(Color::White, 1, 1), Some(Square::from_coords(7, 5)));
}

#[test]
fn piece_fields_roundtrip() {
    for (kind, code) in [
        (PieceType::Pawn, 1u8),
        (PieceType::Knight, 2),
        (PieceType::Bishop, 3),
        (PieceType::Rook, 4),
        (PieceType::Queen, 5),
        (PieceType::King, 6),
    ] {
        for color in [Color::White, Color::Black] {
            let p = Piece::new(kind, color);
            assert_eq!(p.piece_type(), kind);
            assert_eq!(p.color(), color);
            assert!(!p.has_moved());
            assert_eq!(PieceType::from_u8(code), kind);
            let moved = p.with_moved();
            assert!(moved.has_moved());
            assert_eq!(moved.piece_type(), kind);
            assert_eq!(moved.color(), color);
            // the original is never mutated
            assert!(!p.has_moved());
        }
    }
}

#[test]
fn piece_value_roundtrip() {
    let p = Piece::new(PieceType::Queen, Color::Black);
    assert_eq!(Piece::from_value(p.value()), Some(p));
    assert_eq!(Piece::from_value(0), None);
    assert!(Piece::is_empty_value(0));
    assert!(!Piece::is_empty_value(p.value()));
}

#[test]
fn piece_packed_layout() {
    // 128 marks an occupied slot, bit 6 the has-moved flag, bit 3 the color,
    // bits 0-2 the kind.
    assert_eq!(Piece::new(PieceType::Pawn, Color::White).value(), 129);
    assert_eq!(Piece::new(PieceType::King, Color::White).value(), 134);
    assert_eq!(Piece::new(PieceType::Pawn, Color::Black).value(), 137);
    assert_eq!(Piece::new(PieceType::Rook, Color::Black).value(), 140);
    assert_eq!(Piece::new(PieceType::Knight, Color::White).with_moved().value(), 194);
    assert_eq!(Square::from_coords(3, 4).index(), 28);
}

#[test]
fn move_fields_roundtrip() {
    let e2 = Square::from_coords(1, 4);
    let e4 = Square::from_coords(3, 4);
    let m = Move::new(e2, e4);
    assert_eq!(m.source(), e2);
    assert_eq!(m.target(), e4);
    assert_eq!(m.move_type(), MoveType::Normal);
    assert_eq!(m.promotion_piece(), None);

    let a7 = Square::from_coords(6, 0);
    let a8 = Square::from_coords(7, 0);
    for kind in [PieceType::Knight, PieceType::Bishop, PieceType::Rook, PieceType::Queen] {
        let pm = Move::promotion(a7, a8, kind);
        assert_eq!(pm.source(), a7);
        assert_eq!(pm.target(), a8);
        assert_eq!(pm.move_type(), MoveType::Promotion);
        assert_eq!(pm.promotion_piece(), Some(kind));
    }

    let d5 = Square::from_coords(4, 3);
    let e6 = Square::from_coords(5, 4);
    let ep = Move::en_passant(d5, e6);
    assert_eq!(ep.source(), d5);
    assert_eq!(ep.target(), e6);
    assert_eq!(ep.move_type(), MoveType::EnPassant);
    assert_eq!(ep.promotion_piece(), None);

    let e1 = Square::from_coords(0, 4);
    let g1 = Square::from_coords(0, 6);
    let c = Move::castling(e1, g1);
    assert_eq!(c.source(), e1);
    assert_eq!(c.target(), g1);
    assert_eq!(c.move_type(), MoveType::Castling);
}

#[test]
fn move_type_from_u8_codes() {
    assert_eq!(MoveType::from_u8(0), MoveType::Normal);
    assert_eq!(MoveType::from_u8(1), MoveType::Promotion);
    assert_eq!(MoveType::from_u8(2), MoveType::EnPassant);
    assert_eq!(MoveType::from_u8(3), MoveType::Castling);
}

#[test]
fn derived_move_facts_are_pure() {
    let e1 = Square::from_coords(0, 4);
    let g1 = Square::from_coords(0, 6);
    let c = Move::castling(e1, g1);
    assert_eq!(c.castling_side(), CastlingSide::Kingside);
    assert_eq!(c.castling_rook_squares(), c.castling_rook_squares());
    let (rook_src, rook_tgt) = c.castling_rook_squares();
    assert_eq!(rook_src, Square::from_coords(0, 7));
    assert_eq!(rook_tgt, Square::from_coords(0, 5));

    let c8 = Move::castling(Square::from_coords(7, 4), Square::from_coords(7, 2));
    assert_eq!(c8.castling_side(), CastlingSide::Queenside);
    let (qs_src, qs_tgt) = c8.castling_rook_squares();
    assert_eq!(qs_src, Square::from_coords(7, 0));
    assert_eq!(qs_tgt, Square::from_coords(7, 3));

    let ep = Move::en_passant(Square::from_coords(4, 3), Square::from_coords(5, 4));
    assert_eq!(ep.en_passant_capture(), ep.en_passant_capture());
    assert_eq!(ep.en_passant_capture(), Square::from_coords(4, 4));
}

#[test]
fn castling_rights_bits() {
    let none = CastlingRights::none();
    assert!(none.is_empty());
    let all = CastlingRights::all();
    assert!(!all.is_empty());
    for color in [Color::White, Color::Black] {
        for side in [CastlingSide::Kingside, CastlingSide::Queenside] {
            assert!(!none.has(color, side));
            assert!(all.has(color, side));
        }
        assert!(all.any(color));
        assert!(!none.any(color));
    }
    let r = none.gain(Color::White, CastlingSide::Kingside);
    assert!(r.has(Color::White, CastlingSide::Kingside));
    assert!(!r.has(Color::White, CastlingSide::Queenside));
    assert!(!r.has(Color::Black, CastlingSide::Kingside));
    let r2 = all.lose(Color::Black, CastlingSide::Queenside);
    assert!(!r2.has(Color::Black, CastlingSide::Queenside));
    assert!(r2.has(Color::Black, CastlingSide::Kingside));
    assert!(r2.has(Color::White, CastlingSide::Queenside));
    let r3 = all.lose_all(Color::White);
    assert!(!r3.any(Color::White));
    assert!(r3.any(Color::Black));
}

#[test]
fn rook_home_squares_drive_rights_loss() {
    assert_eq!(CastlingSide::from_rook_file(7), Some(CastlingSide::Kingside));
    assert_eq!(CastlingSide::from_rook_file(0), Some(CastlingSide::Queenside));
    assert_eq!(CastlingSide::from_rook_file(3), None);
    let h1 = Square::from_coords(0, 7);
    assert_eq!(CastlingSide::from_rook_square(h1, Color::White), Some(CastlingSide::Kingside));
    assert_eq!(CastlingSide::from_rook_square(h1, Color::Black), None);

    let all = CastlingRights::all();
    let after = all.lose_for_rook_at(h1, Color::White);
    assert!(!after.has(Color::White, CastlingSide::Kingside));
    assert!(after.has(Color::White, CastlingSide::Queenside));
    assert!(after.has(Color::Black, CastlingSide::Kingside));
    // A non-home square changes nothing.
    let e4 = Square::from_coords(3, 4);
    assert_eq!(all.lose_for_rook_at(e4, Color::White), all);
}

#[test]
fn castling_side_files() {
    assert_eq!(CastlingSide::Kingside.king_target_file(), 6);
    assert_eq!(CastlingSide::Queenside.king_target_file(), 2);
    assert_eq!(CastlingSide::Kingside.rook_source_file(), 7);
    assert_eq!(CastlingSide::Queenside.rook_source_file(), 0);
    assert_eq!(CastlingSide::Kingside.rook_target_file(), 5);
    assert_eq!(CastlingSide::Queenside.rook_target_file(), 3);
    assert_eq!(CastlingSide::Kingside.corridor_files(), vec![5, 6]);
    assert_eq!(CastlingSide::Queenside.corridor_files(), vec![1, 2, 3]);
    assert_eq!(CastlingSide::Kingside.king_path_files(), vec![5, 6]);
    assert_eq!(CastlingSide::Queenside.king_path_files(), vec![3, 2]);
}

#[test]
fn board_place_lift_move() {
    let board = Board::new();
    let e2 = Square::from_coords(1, 4);
    let e4 = Square::from_coords(3, 4);
    assert!(board.is_empty(e2));
    assert_eq!(board.piece_at(e2), None);

    let pawn = Piece::new(PieceType::Pawn, Color::White);
    let with_pawn = board.with_piece(pawn, e2);
    assert_eq!(with_pawn.piece_at(e2), Some(pawn));
    assert!(board.is_empty(e2));

    let moved = with_pawn.with_move(e2, e4);
    assert!(moved.is_empty(e2));
    let landed = moved.piece_at(e4).unwrap();
    assert_eq!(landed.piece_type(), PieceType::Pawn);
    assert!(landed.has_moved());

    let cleared = moved.without_piece(e4);
    assert!(cleared.is_empty(e4));

    // Moving from an empty square changes nothing, and captures nothing.
    let knight = Piece::new(PieceType::Knight, Color::Black);
    let occupied = board.with_piece(knight, e4);
    let unchanged = occupied.with_move(e2, e4);
    assert_eq!(unchanged.piece_at(e4), Some(knight));
}

#[test]
fn board_pieces_lists_occupants_in_order() {
    let e2 = Square::from_coords(1, 4);
    let a1 = Square::from_coords(0, 0);
    let pawn = Piece::new(PieceType::Pawn, Color::White);
    let rook = Piece::new(PieceType::Rook, Color::Black);
    let board = Board::new().with_piece(pawn, e2).with_piece(rook, a1);
    let pieces = board.pieces();
    assert_eq!(pieces.len(), 2);
    assert_eq!(pieces[0], (a1, rook));
    assert_eq!(pieces[1], (e2, pawn));
}

#[test]
fn rendering_squares_and_pieces() {
    assert_eq!(render_square(&Square::from_coords(3, 4)), "e4");
    assert_eq!(render_square(&Square::from_coords(0, 0)), "a1");
    assert_eq!(render_square(&Square::from_coords(7, 7)), "h8");
    assert_eq!(piece_char(&Piece::new(PieceType::King, Color::White)), '♔');
    assert_eq!(piece_char(&Piece::new(PieceType::Pawn, Color::Black)), '♟');
    assert_eq!(render_piece(&Piece::new(PieceType::Queen, Color::Black)), "♛");
}

#[test]
fn rendering_a_small_board() {
    let board = Board::new().with_piece(
        Piece::new(PieceType::Rook, Color::White),
        Square::from_coords(0, 0),
    );
    let text = render_board(&board);
    let lines: Vec<&str> = text.lines().collect();
    assert_eq!(lines.len(), 10);
    assert_eq!(lines[0], "  a b c d e f g h");
    assert_eq!(lines[9], "  a b c d e f g h");
    assert_eq!(lines[1], "8 · · · · · · · · 8");
    assert_eq!(lines[8], "1 ♖ · · · · · · · 1");
}
