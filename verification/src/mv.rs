//! Chess move representation. "move" is a reserved keyword in Rust, so "mv".
//!
//! A move packs source, target, move category and promotion kind into one
//! 16-bit value: bits 0-5 source, 6-11 target, 12-13 promotion kind (stored as
//! kind code minus 2), 14-15 category.

use vstd::prelude::*;
use crate::board::PieceType;
use crate::board::Square;
use crate::board::kind_code;
use crate::board::square_index;
use crate::board::rank_of;
use crate::board::file_of;
use crate::castling::CastlingSide;
use crate::castling::rook_source_file_of;
use crate::castling::rook_target_file_of;

verus! {

// ============================================================================
// Type Definitions
// ============================================================================

#[derive(Copy, Clone, PartialEq, Eq, Structural, Debug)]
pub enum MoveType {
    Normal,
    Promotion,
    EnPassant,
    Castling,
}

#[derive(Copy, Clone, PartialEq, Eq, Structural, Debug)]
pub struct Move(pub u16);

// ============================================================================
// MoveType
// ============================================================================

/// Numeric code of a move category in the packed move value.
pub open spec fn move_type_code(t: MoveType) -> int {
    match t {
        MoveType::Normal => 0,
        MoveType::Promotion => 1,
        MoveType::EnPassant => 2,
        MoveType::Castling => 3,
    }
}

/// Move category decoded from its numeric code.
pub open spec fn type_of_code(v: int) -> MoveType {
    if v == 0 {
        MoveType::Normal
    } else if v == 1 {
        MoveType::Promotion
    } else if v == 2 {
        MoveType::EnPassant
    } else {
        MoveType::Castling
    }
}

/// Piece kind decoded from its numeric code.
pub open spec fn kind_of_code(v: int) -> PieceType {
    if v == 1 {
        PieceType::Pawn
    } else if v == 2 {
        PieceType::Knight
    } else if v == 3 {
        PieceType::Bishop
    } else if v == 4 {
        PieceType::Rook
    } else if v == 5 {
        PieceType::Queen
    } else {
        PieceType::King
    }
}

impl MoveType {
    pub fn from_u8(value: u8) -> (r: MoveType)
        requires
            value < 4,
        ensures
            move_type_code(r) == value as int,
            r == type_of_code(value as int),
    {
        match value {
            0 => MoveType::Normal,
            1 => MoveType::Promotion,
            2 => MoveType::EnPassant,
            _ => MoveType::Castling,
        }
    }
}

// ============================================================================
// Move
// ============================================================================

/// The packed value of a move with the given fields.
pub open spec fn move_bits(src: int, tgt: int, promo: int, ty: int) -> int {
    src + tgt * 64 + promo * 4096 + ty * 16384
}

impl Move {
    pub open spec fn src_spec(self) -> int {
        self.0 as int % 64
    }

    pub open spec fn tgt_spec(self) -> int {
        (self.0 as int / 64) % 64
    }

    pub open spec fn promo_code_spec(self) -> int {
        (self.0 as int / 4096) % 4
    }

    pub open spec fn ty_code_spec(self) -> int {
        self.0 as int / 16384
    }

    pub open spec fn ty_spec(self) -> MoveType {
        type_of_code(self.ty_code_spec())
    }

    pub open spec fn promo_spec(self) -> Option<PieceType> {
        if self.ty_code_spec() == 1 {
            Some(kind_of_code(self.promo_code_spec() + 2))
        } else {
            None
        }
    }

    /// A canonically encoded move carries promotion bits only in a Promotion.
    pub open spec fn canonical(self) -> bool {
        self.ty_code_spec() != 1 ==> self.promo_code_spec() == 0
    }

    // --- Construction --- //
    pub fn new(source: Square, target: Square) -> (r: Move)
        requires
            source.wf(),
            target.wf(),
        ensures
            r.src_spec() == source.idx(),
            r.tgt_spec() == target.idx(),
            r.ty_code_spec() == 0,
            r.promo_code_spec() == 0,
            r.0 as int == move_bits(source.idx(), target.idx(), 0, 0),
    {
        Move(source.0 as u16 + (target.0 as u16) * 64)
    }

    pub fn promotion(source: Square, target: Square, promoted_to: PieceType) -> (r: Move)
        requires
            source.wf(),
            target.wf(),
            2 <= kind_code(promoted_to) <= 5,
        ensures
            r.src_spec() == source.idx(),
            r.tgt_spec() == target.idx(),
            r.ty_code_spec() == 1,
            r.promo_code_spec() == kind_code(promoted_to) - 2,
            r.promo_spec() == Some(promoted_to),
            r.0 as int == move_bits(source.idx(), target.idx(), kind_code(promoted_to) - 2, 1),
    {
        Move(
            source.0 as u16 + (target.0 as u16) * 64 + (promoted_to.code() as u16 - 2) * 4096
                + 16384,
        )
    }

    pub fn en_passant(source: Square, target: Square) -> (r: Move)
        requires
            source.wf(),
            target.wf(),
        ensures
            r.src_spec() == source.idx(),
            r.tgt_spec() == target.idx(),
            r.ty_code_spec() == 2,
            r.promo_code_spec() == 0,
            r.0 as int == move_bits(source.idx(), target.idx(), 0, 2),
    {
        Move(source.0 as u16 + (target.0 as u16) * 64 + 32768)
    }

    pub fn castling(source: Square, target: Square) -> (r: Move)
        requires
            source.wf(),
            target.wf(),
        ensures
            r.src_spec() == source.idx(),
            r.tgt_spec() == target.idx(),
            r.ty_code_spec() == 3,
            r.promo_code_spec() == 0,
            r.0 as int == move_bits(source.idx(), target.idx(), 0, 3),
    {
        Move(source.0 as u16 + (target.0 as u16) * 64 + 49152)
    }

    // --- Extraction --- //
    pub fn source(self) -> (r: Square)
        ensures
            r.idx() == self.src_spec(),
            r.wf(),
    {
        Square((self.0 % 64) as u8)
    }

    pub fn target(self) -> (r: Square)
        ensures
            r.idx() == self.tgt_spec(),
            r.wf(),
    {
        Square(((self.0 / 64) % 64) as u8)
    }

    pub fn move_type(self) -> (r: MoveType)
        ensures
            r == self.ty_spec(),
            move_type_code(r) == self.ty_code_spec(),
    {
        match self.0 / 16384 {
            0 => MoveType::Normal,
            1 => MoveType::Promotion,
            2 => MoveType::EnPassant,
            _ => MoveType::Castling,
        }
    }

    pub fn promotion_piece(self) -> (r: Option<PieceType>)
        ensures
            r == self.promo_spec(),
    {
        match self.move_type() {
            MoveType::Promotion => Some(PieceType::from_u8(((self.0 / 4096) % 4) as u8 + 2)),
            _ => None,
        }
    }

    // --- Derived (for special move types) --- //
    /// Kingside when the target file exceeds the source file, else queenside.
    pub open spec fn castling_side_spec(self) -> CastlingSide {
        if file_of(self.tgt_spec()) > file_of(self.src_spec()) {
            CastlingSide::Kingside
        } else {
            CastlingSide::Queenside
        }
    }

    pub fn castling_side(self) -> (r: CastlingSide)
        ensures
            r == self.castling_side_spec(),
    {
        if self.target().file() > self.source().file() {
            CastlingSide::Kingside
        } else {
            CastlingSide::Queenside
        }
    }

    /// Rook origin and destination of a castling move, derived from the
    /// castling side and the move's rank.
    pub fn castling_rook_squares(self) -> (r: (Square, Square))
        ensures
            r.0.wf(),
            r.1.wf(),
            r.0.idx() == square_index(
                rank_of(self.src_spec()),
                rook_source_file_of(self.castling_side_spec()),
            ),
            r.1.idx() == square_index(
                rank_of(self.src_spec()),
                rook_target_file_of(self.castling_side_spec()),
            ),
    {
        let side = self.castling_side();
        let rank = self.source().rank();
        (
            Square::from_coords(rank, side.rook_source_file()),
            Square::from_coords(rank, side.rook_target_file()),
        )
    }

    /// Square of the pawn captured en passant: (source rank, target file).
    pub fn en_passant_capture(self) -> (r: Square)
        ensures
            r.wf(),
            r.idx() == square_index(rank_of(self.src_spec()), file_of(self.tgt_spec())),
    {
        Square::from_coords(self.source().rank(), self.target().file())
    }
}

/// Every move value is exactly the packed form of its decoded fields, so two
/// moves are equal exactly when all four decoded fields agree.
pub proof fn lemma_move_decompose(m: Move)
    ensures
        m.0 as int == move_bits(m.src_spec(), m.tgt_spec(), m.promo_code_spec(), m.ty_code_spec()),
        0 <= m.src_spec() < 64,
        0 <= m.tgt_spec() < 64,
        0 <= m.promo_code_spec() < 4,
        0 <= m.ty_code_spec() < 4,
{
    let v: u16 = m.0;
    assert(v as int == (v as int % 64) + ((v as int / 64) % 64) * 64 + ((v as int / 4096) % 4)
        * 4096 + (v as int / 16384) * 16384) by (bit_vector);
}

} // verus!
