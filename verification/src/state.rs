//! Chess game state: the position (board, side to move, castling rights,
//! en-passant target, clocks) and the pure move-application transition.

use vstd::prelude::*;
use crate::board::Board;
use crate::board::Color;
use crate::board::Piece;
use crate::board::PieceType;
use crate::board::Square;
use crate::board::board_bytes_wf;
use crate::board::board_with_move;
use crate::board::byte_color;
use crate::board::byte_kind;
use crate::board::byte_occupied;
use crate::board::file_of;
use crate::board::forward_of;
use crate::board::is_king_at;
use crate::board::kind_code;
use crate::board::one_king;
use crate::board::other;
use crate::board::piece_byte;
use crate::board::rank_of;
use crate::board::slot_is;
use crate::board::square_index;
use crate::castling::CastlingRights;
use crate::castling::has_right;
use crate::castling::lose_all_rights;
use crate::castling::lose_right;
use crate::castling::lose_rook_right;
use crate::mv::Move;
use crate::mv::MoveType;
use crate::mv::kind_of_code;

verus! {

// ============================================================================
// Type Definitions
// ============================================================================

/// A position: board plus side to move, castling rights, en-passant target and
/// the two move clocks. Applying a move yields a new `State`; none is mutated.
pub struct State {
    pub board: Board,
    pub to_move: Color,
    pub castling_rights: CastlingRights,
    pub en_passant: Option<Square>,
    pub halfmove_clock: u8,
    pub fullmove_number: u16,
}

/// Mathematical model of a position: raw board bytes plus the remaining fields
/// as unbounded values.
#[verifier::ext_equal]
pub struct StateModel {
    pub board: Seq<u8>,
    pub to_move: Color,
    pub rights: int,
    pub ep: Option<int>,
    pub halfmove: int,
    pub fullmove: int,
}

impl View for State {
    type V = StateModel;

    open spec fn view(&self) -> StateModel {
        StateModel {
            board: self.board@,
            to_move: self.to_move,
            rights: self.castling_rights.0 as int,
            ep: match self.en_passant {
                Some(s) => Some(s.0 as int),
                None => None,
            },
            halfmove: self.halfmove_clock as int,
            fullmove: self.fullmove_number as int,
        }
    }
}

// ============================================================================
// Well-formedness
// ============================================================================

/// A well-formed en-passant target: an empty square one rank beyond an enemy
/// pawn, on the rank where the side to move can capture it.
pub open spec fn ep_wf(s: StateModel) -> bool {
    match s.ep {
        None => true,
        Some(t) => {
            &&& 0 <= t < 64
            &&& rank_of(t) == (if s.to_move == Color::White {
                5int
            } else {
                2int
            })
            &&& !byte_occupied(s.board[t] as int)
            &&& slot_is(
                s.board,
                square_index(rank_of(t) - forward_of(s.to_move), file_of(t)),
                other(s.to_move),
                1,
            )
        },
    }
}

impl StateModel {
    /// A reachable-looking position: well-formed slots, exactly one king per
    /// color, in-range castling rights, and a sound en-passant target.
    pub open spec fn wf(self) -> bool {
        &&& board_bytes_wf(self.board)
        &&& one_king(self.board, Color::White)
        &&& one_king(self.board, Color::Black)
        &&& 0 <= self.rights < 16
        &&& ep_wf(self)
    }

    /// The move clocks have room to advance on the machine representation.
    pub open spec fn clocks_ok(self) -> bool {
        self.halfmove < 255 && self.fullmove < 65535
    }
}

// ============================================================================
// The transition model
// ============================================================================

/// Board contents after the board part of applying `m`: relocation for Normal,
/// replacement for Promotion, relocation plus removal for EnPassant, double
/// relocation for Castling. A move from an empty source leaves the board as it
/// was.
pub open spec fn board_after(s: StateModel, m: Move) -> Seq<u8> {
    let b = s.board;
    let src = m.src_spec();
    let tgt = m.tgt_spec();
    let ty = m.ty_code_spec();
    if ty == 0 {
        board_with_move(b, src, tgt)
    } else if ty == 1 {
        if byte_occupied(b[src] as int) {
            b.update(src, 0u8).update(
                tgt,
                piece_byte(
                    kind_of_code(m.promo_code_spec() + 2),
                    byte_color(b[src] as int),
                    false,
                ) as u8,
            )
        } else {
            b
        }
    } else if ty == 2 {
        if byte_occupied(b[src] as int) {
            board_with_move(b, src, tgt).update(
                square_index(rank_of(src), file_of(tgt)),
                0u8,
            )
        } else {
            b
        }
    } else {
        let rank = rank_of(src);
        let kingside = file_of(tgt) > file_of(src);
        let rook_src = square_index(
            rank,
            if kingside {
                7int
            } else {
                0int
            },
        );
        let rook_tgt = square_index(
            rank,
            if kingside {
                5int
            } else {
                3int
            },
        );
        board_with_move(board_with_move(b, src, tgt), rook_src, rook_tgt)
    }
}

/// Whether applying `m` counts as a capture for the halfmove clock: the target
/// was occupied, or the move is an en-passant capture.
pub open spec fn capture_occurred(s: StateModel, m: Move) -> bool {
    byte_occupied(s.board[m.tgt_spec()] as int) || m.ty_code_spec() == 2
}

/// En-passant target of the next position: the skipped square exactly when a
/// pawn advanced two ranks.
pub open spec fn ep_after(s: StateModel, m: Move) -> Option<int> {
    let src = m.src_spec();
    let tgt = m.tgt_spec();
    let pawn_moved = byte_occupied(s.board[src] as int) && byte_kind(s.board[src] as int) == 1;
    if pawn_moved && (rank_of(tgt) - rank_of(src) == 2 || rank_of(src) - rank_of(tgt) == 2) {
        Some(square_index((rank_of(src) + rank_of(tgt)) / 2, file_of(src)))
    } else {
        None
    }
}

/// Castling rights of the next position: a king move loses all of the mover's
/// rights; otherwise the mover's right for a rook-origin source square is
/// lost; in every case the opponent's right for a rook-origin target square is
/// lost.
pub open spec fn rights_after(s: StateModel, m: Move) -> int {
    let src = m.src_spec();
    let tgt = m.tgt_spec();
    let king_moved = byte_occupied(s.board[src] as int) && byte_kind(s.board[src] as int) == 6;
    let mover_loss = if king_moved {
        lose_all_rights(s.rights, s.to_move)
    } else {
        lose_rook_right(s.rights, rank_of(src), file_of(src), s.to_move)
    };
    lose_rook_right(mover_loss, rank_of(tgt), file_of(tgt), other(s.to_move))
}

/// The position after applying `m`: the board update for the move's category,
/// then the five uniform post-updates (en-passant target, halfmove clock,
/// castling rights, fullmove number, side to move).
pub open spec fn apply_spec(s: StateModel, m: Move) -> StateModel {
    let src = m.src_spec();
    let pawn_moved = byte_occupied(s.board[src] as int) && byte_kind(s.board[src] as int) == 1;
    StateModel {
        board: board_after(s, m),
        to_move: other(s.to_move),
        rights: rights_after(s, m),
        ep: ep_after(s, m),
        halfmove: if pawn_moved || capture_occurred(s, m) {
            0
        } else {
            s.halfmove + 1
        },
        fullmove: s.fullmove + (if s.to_move == Color::Black {
            1int
        } else {
            0int
        }),
    }
}

// ============================================================================
// State
// ============================================================================

/// Kind code of the piece that starts on `file` of a back rank.
pub open spec fn back_kind_code(file: int) -> int {
    if file == 0 || file == 7 {
        4
    } else if file == 1 || file == 6 {
        2
    } else if file == 2 || file == 5 {
        3
    } else if file == 3 {
        5
    } else {
        6
    }
}

/// Byte on square `i` of the standard initial position.
pub open spec fn initial_byte(i: int) -> u8 {
    let r = rank_of(i);
    let f = file_of(i);
    if r == 0 {
        (128 + back_kind_code(f)) as u8
    } else if r == 1 {
        129u8
    } else if r == 6 {
        137u8
    } else if r == 7 {
        (136 + back_kind_code(f)) as u8
    } else {
        0u8
    }
}

/// Board contents of the standard initial position.
pub open spec fn initial_board() -> Seq<u8> {
    Seq::new(64, |i: int| initial_byte(i))
}

/// The standard initial position: White to move, all castling rights, no
/// en-passant target, clocks at their starting values.
pub open spec fn initial_spec() -> StateModel {
    StateModel {
        board: initial_board(),
        to_move: Color::White,
        rights: 15,
        ep: None,
        halfmove: 0,
        fullmove: 1,
    }
}

impl State {
    fn back_kind(file: u8) -> (r: PieceType)
        requires
            file < 8,
        ensures
            kind_code(r) == back_kind_code(file as int),
    {
        if file == 0 || file == 7 {
            PieceType::Rook
        } else if file == 1 || file == 6 {
            PieceType::Knight
        } else if file == 2 || file == 5 {
            PieceType::Bishop
        } else if file == 3 {
            PieceType::Queen
        } else {
            PieceType::King
        }
    }

    /// The standard initial position.
    pub fn initial() -> (r: State)
        ensures
            r@ == initial_spec(),
            r@.wf(),
            r.board.wf(),
    {
        let mut board = Board::new();
        let mut file: u8 = 0;
        while file < 8
            invariant
                file <= 8,
                board@.len() == 64,
                forall|i: int|
                    0 <= i < 64 ==> board@[i] == (if file_of(i) < file as int && (rank_of(i) == 0
                        || rank_of(i) == 1 || rank_of(i) == 6 || rank_of(i) == 7) {
                        initial_byte(i)
                    } else {
                        0u8
                    }),
            decreases 8 - file,
        {
            let kind = Self::back_kind(file);
            board = board.with_piece(Piece::new(kind, Color::White), Square::from_coords(0, file));
            board = board.with_piece(
                Piece::new(PieceType::Pawn, Color::White),
                Square::from_coords(1, file),
            );
            board = board.with_piece(
                Piece::new(PieceType::Pawn, Color::Black),
                Square::from_coords(6, file),
            );
            board = board.with_piece(Piece::new(kind, Color::Black), Square::from_coords(7, file));
            file = file + 1;
        }
        proof {
            assert(board@ =~= initial_board());
        }
        let r = State {
            board,
            to_move: Color::White,
            castling_rights: CastlingRights::all(),
            en_passant: None,
            halfmove_clock: 0,
            fullmove_number: 1,
        };
        proof {
            assert(r@ =~= initial_spec());
            assert(is_king_at(initial_board(), 4, Color::White));
            assert(is_king_at(initial_board(), 60, Color::Black));
            assert(forall|j: int| is_king_at(initial_board(), j, Color::White) ==> j == 4);
            assert(forall|j: int| is_king_at(initial_board(), j, Color::Black) ==> j == 60);
        }
        r
    }

    /// Apply a move, yielding the successor position; the original is never
    /// mutated.
    pub fn apply(&self, mv: Move) -> (r: State)
        requires
            self.board.wf(),
            self.halfmove_clock < 255,
            self.fullmove_number < 65535,
        ensures
            r@ == apply_spec(self@, mv),
            r.board.wf(),
    {
        let src = mv.source();
        let tgt = mv.target();
        let moving = self.board.piece_at(src);
        let target_occupied = !self.board.is_empty(tgt);
        let ty = mv.move_type();

        let board2 = match ty {
            MoveType::Normal => self.board.with_move(src, tgt),
            MoveType::Promotion => {
                match (moving, mv.promotion_piece()) {
                    (Some(p), Some(kind)) => {
                        self.board.without_piece(src).with_piece(Piece::new(kind, p.color()), tgt)
                    },
                    _ => self.board,
                }
            },
            MoveType::EnPassant => {
                match moving {
                    Some(_) => self.board.with_move(src, tgt).without_piece(
                        mv.en_passant_capture(),
                    ),
                    None => self.board,
                }
            },
            MoveType::Castling => {
                let (rook_src, rook_tgt) = mv.castling_rook_squares();
                self.board.with_move(src, tgt).with_move(rook_src, rook_tgt)
            },
        };

        let (pawn_moved, king_moved) = match moving {
            Some(p) => {
                let t = p.piece_type();
                (t == PieceType::Pawn, t == PieceType::King)
            },
            None => (false, false),
        };

        let sr = src.rank();
        let tr = tgt.rank();
        let double_push = pawn_moved && ((tr > sr && tr - sr == 2) || (sr > tr && sr - tr == 2));
        let en_passant2 = if double_push {
            Some(Square::from_coords((sr + tr) / 2, src.file()))
        } else {
            None
        };

        let captured = target_occupied || ty == MoveType::EnPassant;
        let halfmove2 = if pawn_moved || captured {
            0
        } else {
            self.halfmove_clock + 1
        };

        let rights1 = if king_moved {
            self.castling_rights.lose_all(self.to_move)
        } else {
            self.castling_rights.lose_for_rook_at(src, self.to_move)
        };
        let rights2 = rights1.lose_for_rook_at(tgt, self.to_move.opposite());

        let fullmove2 = if self.to_move == Color::Black {
            self.fullmove_number + 1
        } else {
            self.fullmove_number
        };

        let r = State {
            board: board2,
            to_move: self.to_move.opposite(),
            castling_rights: rights2,
            en_passant: en_passant2,
            halfmove_clock: halfmove2,
            fullmove_number: fullmove2,
        };
        proof {
            assert(r@.board =~= apply_spec(self@, mv).board);
            assert(r@ =~= apply_spec(self@, mv));
        }
        r
    }
}

// ============================================================================
// Castling rights only ever shrink
// ============================================================================

/// One applied move never grants a castling right: every right held afterwards
/// was held before.
pub proof fn lemma_apply_rights_monotonic(s: StateModel, m: Move)
    requires
        0 <= s.rights < 16,
    ensures
        0 <= apply_spec(s, m).rights < 16,
        forall|c: Color, side: crate::castling::CastlingSide|
            has_right(apply_spec(s, m).rights, c, side) ==> has_right(s.rights, c, side),
{
    let src = m.src_spec();
    let tgt = m.tgt_spec();
    let king_moved = byte_occupied(s.board[src] as int) && byte_kind(s.board[src] as int) == 6;
    if king_moved {
        crate::castling::lemma_lose_all_subset(s.rights, s.to_move);
        crate::castling::lemma_lose_rook_subset(
            lose_all_rights(s.rights, s.to_move),
            rank_of(tgt),
            file_of(tgt),
            other(s.to_move),
        );
    } else {
        crate::castling::lemma_lose_rook_subset(s.rights, rank_of(src), file_of(src), s.to_move);
        crate::castling::lemma_lose_rook_subset(
            lose_rook_right(s.rights, rank_of(src), file_of(src), s.to_move),
            rank_of(tgt),
            file_of(tgt),
            other(s.to_move),
        );
    }
}

/// The position after a whole sequence of applied moves.
pub open spec fn apply_seq(s: StateModel, ms: Seq<Move>) -> StateModel
    decreases ms.len(),
{
    if ms.len() == 0 {
        s
    } else {
        apply_seq(apply_spec(s, ms.first()), ms.drop_first())
    }
}

/// Castling rights are monotonically non-increasing across any applied-move
/// sequence: a right held after the sequence was held in the starting
/// position.
pub proof fn lemma_rights_monotonic_over_sequence(s: StateModel, ms: Seq<Move>)
    requires
        0 <= s.rights < 16,
    ensures
        0 <= apply_seq(s, ms).rights < 16,
        forall|c: Color, side: crate::castling::CastlingSide|
            has_right(apply_seq(s, ms).rights, c, side) ==> has_right(s.rights, c, side),
    decreases ms.len(),
{
    if ms.len() == 0 {
    } else {
        lemma_apply_rights_monotonic(s, ms.first());
        lemma_rights_monotonic_over_sequence(apply_spec(s, ms.first()), ms.drop_first());
    }
}

} // verus!
