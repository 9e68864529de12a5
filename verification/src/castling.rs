//! Castling types and logic: the two castling sides and the 4-bit rights set.

use vstd::prelude::*;
use crate::board::Color;
use crate::board::Square;
use crate::board::color_code;
use crate::board::home_rank_of;

verus! {

// ============================================================================
// Type Definitions
// ============================================================================

#[derive(Copy, Clone, PartialEq, Eq, Structural, Debug)]
pub enum CastlingSide {
    Kingside,
    Queenside,
}

/// Set over {White,Black} x {Kingside,Queenside}, packed into the low 4 bits
/// of a byte; bit value for (color, side) is 2^(2*color + side).
#[derive(Copy, Clone, PartialEq, Eq, Structural, Debug)]
pub struct CastlingRights(pub u8);

/// The file the king starts on.
pub const KING_FILE: u8 = 4;

// ============================================================================
// Castling Side
// ============================================================================

/// Numeric code of a castling side in the rights bit position.
pub open spec fn side_code(s: CastlingSide) -> int {
    match s {
        CastlingSide::Kingside => 0,
        CastlingSide::Queenside => 1,
    }
}

/// File the king lands on when castling to this side.
pub open spec fn king_target_file_of(s: CastlingSide) -> int {
    match s {
        CastlingSide::Kingside => 6,
        CastlingSide::Queenside => 2,
    }
}

/// File the castling rook starts on.
pub open spec fn rook_source_file_of(s: CastlingSide) -> int {
    match s {
        CastlingSide::Kingside => 7,
        CastlingSide::Queenside => 0,
    }
}

/// File the castling rook lands on.
pub open spec fn rook_target_file_of(s: CastlingSide) -> int {
    match s {
        CastlingSide::Kingside => 5,
        CastlingSide::Queenside => 3,
    }
}

/// Files strictly between king and rook, all of which must be empty to castle.
pub open spec fn corridor_files_of(s: CastlingSide) -> Seq<u8> {
    match s {
        CastlingSide::Kingside => seq![5u8, 6u8],
        CastlingSide::Queenside => seq![1u8, 2u8, 3u8],
    }
}

/// Files the king passes through (intermediate and target), none of which may
/// be attacked; the source square is checked separately.
pub open spec fn king_path_files_of(s: CastlingSide) -> Seq<u8> {
    match s {
        CastlingSide::Kingside => seq![5u8, 6u8],
        CastlingSide::Queenside => seq![3u8, 2u8],
    }
}

/// The castling side whose rook starts on (rank, file) for this color, if any.
pub open spec fn rook_side_of(rank: int, file: int, c: Color) -> Option<CastlingSide> {
    if rank == home_rank_of(c) && file == 7 {
        Some(CastlingSide::Kingside)
    } else if rank == home_rank_of(c) && file == 0 {
        Some(CastlingSide::Queenside)
    } else {
        None
    }
}

impl CastlingSide {
    // --- File accessors --- //
    pub fn king_target_file(self) -> (r: u8)
        ensures
            r as int == king_target_file_of(self),
    {
        match self {
            CastlingSide::Kingside => 6,
            CastlingSide::Queenside => 2,
        }
    }

    pub fn rook_source_file(self) -> (r: u8)
        ensures
            r as int == rook_source_file_of(self),
    {
        match self {
            CastlingSide::Kingside => 7,
            CastlingSide::Queenside => 0,
        }
    }

    pub fn rook_target_file(self) -> (r: u8)
        ensures
            r as int == rook_target_file_of(self),
    {
        match self {
            CastlingSide::Kingside => 5,
            CastlingSide::Queenside => 3,
        }
    }

    pub fn corridor_files(self) -> (r: Vec<u8>)
        ensures
            r@ == corridor_files_of(self),
    {
        let mut v: Vec<u8> = Vec::new();
        match self {
            CastlingSide::Kingside => {
                v.push(5);
                v.push(6);
            },
            CastlingSide::Queenside => {
                v.push(1);
                v.push(2);
                v.push(3);
            },
        }
        proof {
            assert(v@ =~= corridor_files_of(self));
        }
        v
    }

    pub fn king_path_files(self) -> (r: Vec<u8>)
        ensures
            r@ == king_path_files_of(self),
    {
        let mut v: Vec<u8> = Vec::new();
        match self {
            CastlingSide::Kingside => {
                v.push(5);
                v.push(6);
            },
            CastlingSide::Queenside => {
                v.push(3);
                v.push(2);
            },
        }
        proof {
            assert(v@ =~= king_path_files_of(self));
        }
        v
    }

    /// Returns the castling side if this file is a rook home file.
    pub fn from_rook_file(file: u8) -> (r: Option<CastlingSide>)
        ensures
            file == 7 ==> r == Some(CastlingSide::Kingside),
            file == 0 ==> r == Some(CastlingSide::Queenside),
            file != 7 && file != 0 ==> r is None,
    {
        if file == 7 {
            return Some(CastlingSide::Kingside);
        }
        if file == 0 {
            return Some(CastlingSide::Queenside);
        }
        None
    }

    /// Returns the castling side if this square is a rook's home square for the
    /// given color.
    pub fn from_rook_square(square: Square, color: Color) -> (r: Option<CastlingSide>)
        ensures
            r == rook_side_of(square.rank_spec(), square.file_spec(), color),
    {
        if square.rank() != color.home_rank() {
            return None;
        }
        Self::from_rook_file(square.file())
    }
}

// ============================================================================
// Castling Rights
// ============================================================================

/// Bit value of a (color, side) pair in the rights byte.
pub open spec fn bit_of(c: Color, s: CastlingSide) -> int {
    match c {
        Color::White => match s {
            CastlingSide::Kingside => 1,
            CastlingSide::Queenside => 2,
        },
        Color::Black => match s {
            CastlingSide::Kingside => 4,
            CastlingSide::Queenside => 8,
        },
    }
}

/// Whether a rights value holds the right for (color, side).
pub open spec fn has_right(v: int, c: Color, s: CastlingSide) -> bool {
    (v / bit_of(c, s)) % 2 == 1
}

/// Rights value after gaining the right for (color, side).
pub open spec fn gain_right(v: int, c: Color, s: CastlingSide) -> int {
    if has_right(v, c, s) {
        v
    } else {
        v + bit_of(c, s)
    }
}

/// Rights value after losing the right for (color, side).
pub open spec fn lose_right(v: int, c: Color, s: CastlingSide) -> int {
    if has_right(v, c, s) {
        v - bit_of(c, s)
    } else {
        v
    }
}

/// Rights value after losing both of a color's rights.
pub open spec fn lose_all_rights(v: int, c: Color) -> int {
    lose_right(lose_right(v, c, CastlingSide::Kingside), c, CastlingSide::Queenside)
}

/// Rights value after a piece leaves or is captured on `sq`: the right for
/// (c, side) is cleared only when `sq` is c's home-rank rook-origin square.
pub open spec fn lose_rook_right(v: int, sq_rank: int, sq_file: int, c: Color) -> int {
    match rook_side_of(sq_rank, sq_file, c) {
        Some(side) => lose_right(v, c, side),
        None => v,
    }
}

/// Losing one right keeps the value in range and never grants another right.
pub proof fn lemma_lose_right_subset(v: int, c: Color, s: CastlingSide)
    requires
        0 <= v < 16,
    ensures
        0 <= lose_right(v, c, s) < 16,
        forall|c2: Color, s2: CastlingSide|
            has_right(lose_right(v, c, s), c2, s2) ==> has_right(v, c2, s2),
{
    let b = bit_of(c, s);
    assert(b == 1 || b == 2 || b == 4 || b == 8);
    assert(v == 0 || v == 1 || v == 2 || v == 3 || v == 4 || v == 5 || v == 6 || v == 7 || v == 8
        || v == 9 || v == 10 || v == 11 || v == 12 || v == 13 || v == 14 || v == 15);
    assert forall|c2: Color, s2: CastlingSide|
        has_right(lose_right(v, c, s), c2, s2) implies has_right(v, c2, s2) by {
        let b2 = bit_of(c2, s2);
        assert(b2 == 1 || b2 == 2 || b2 == 4 || b2 == 8);
        let vu: u8 = v as u8;
        let bu: u8 = b as u8;
        let b2u: u8 = b2 as u8;
        assert(((if (vu / bu) % 2 == 1 {
            (vu - bu) as u8
        } else {
            vu
        }) / b2u) % 2 == 1 ==> (vu / b2u) % 2 == 1) by (bit_vector)
            requires
                vu < 16,
                bu == 1 || bu == 2 || bu == 4 || bu == 8,
                b2u == 1 || b2u == 2 || b2u == 4 || b2u == 8,
        ;
    }
}

/// Losing both of a color's rights keeps the value in range and never grants
/// a right.
pub proof fn lemma_lose_all_subset(v: int, c: Color)
    requires
        0 <= v < 16,
    ensures
        0 <= lose_all_rights(v, c) < 16,
        forall|c2: Color, s2: CastlingSide|
            has_right(lose_all_rights(v, c), c2, s2) ==> has_right(v, c2, s2),
{
    lemma_lose_right_subset(v, c, CastlingSide::Kingside);
    lemma_lose_right_subset(lose_right(v, c, CastlingSide::Kingside), c, CastlingSide::Queenside);
}

/// Rook-square rights loss keeps the value in range and never grants a right.
pub proof fn lemma_lose_rook_subset(v: int, sq_rank: int, sq_file: int, c: Color)
    requires
        0 <= v < 16,
    ensures
        0 <= lose_rook_right(v, sq_rank, sq_file, c) < 16,
        forall|c2: Color, s2: CastlingSide|
            has_right(lose_rook_right(v, sq_rank, sq_file, c), c2, s2) ==> has_right(v, c2, s2),
{
    match rook_side_of(sq_rank, sq_file, c) {
        Some(side) => lemma_lose_right_subset(v, c, side),
        None => {},
    }
}

impl CastlingRights {
    pub open spec fn wf(self) -> bool {
        self.0 < 16
    }

    fn bit_position(c: Color, s: CastlingSide) -> (r: u8)
        ensures
            r as int == color_code(c) * 2 + side_code(s),
    {
        c.code() * 2 + match s {
            CastlingSide::Kingside => 0,
            CastlingSide::Queenside => 1,
        }
    }

    fn bit_value(c: Color, s: CastlingSide) -> (r: u8)
        ensures
            r as int == bit_of(c, s),
    {
        match Self::bit_position(c, s) {
            0 => 1,
            1 => 2,
            2 => 4,
            _ => 8,
        }
    }

    // --- Construction --- //
    pub fn none() -> (r: CastlingRights)
        ensures
            r.0 == 0,
            r.wf(),
            forall|c: Color, s: CastlingSide| !has_right(r.0 as int, c, s),
    {
        CastlingRights(0)
    }

    pub fn all() -> (r: CastlingRights)
        ensures
            r.0 == 15,
            r.wf(),
            forall|c: Color, s: CastlingSide| has_right(r.0 as int, c, s),
    {
        CastlingRights(15)
    }

    // --- Query --- //
    pub fn has(self, color: Color, side: CastlingSide) -> (r: bool)
        ensures
            r == has_right(self.0 as int, color, side),
    {
        let bit = Self::bit_value(color, side);
        (self.0 / bit) % 2 == 1
    }

    pub fn is_empty(self) -> (r: bool)
        ensures
            r == (self.0 == 0),
    {
        self.0 == 0
    }

    pub fn any(self, color: Color) -> (r: bool)
        ensures
            r == (has_right(self.0 as int, color, CastlingSide::Kingside) || has_right(
                self.0 as int,
                color,
                CastlingSide::Queenside,
            )),
    {
        self.has(color, CastlingSide::Kingside) || self.has(color, CastlingSide::Queenside)
    }

    // --- Modifications --- //
    pub fn gain(self, color: Color, side: CastlingSide) -> (r: CastlingRights)
        ensures
            r.0 as int == gain_right(self.0 as int, color, side),
            self.wf() ==> r.wf(),
            forall|c2: Color, s2: CastlingSide|
                has_right(r.0 as int, c2, s2) == ((c2 == color && s2 == side) || has_right(
                    self.0 as int,
                    c2,
                    s2,
                )),
    {
        let bit = Self::bit_value(color, side);
        if (self.0 / bit) % 2 == 1 {
            self
        } else {
            CastlingRights(self.0 + bit)
        }
    }

    pub fn lose(self, color: Color, side: CastlingSide) -> (r: CastlingRights)
        ensures
            r.0 as int == lose_right(self.0 as int, color, side),
            self.wf() ==> r.wf(),
            forall|c2: Color, s2: CastlingSide|
                has_right(r.0 as int, c2, s2) == (!(c2 == color && s2 == side) && has_right(
                    self.0 as int,
                    c2,
                    s2,
                )),
    {
        let bit = Self::bit_value(color, side);
        if (self.0 / bit) % 2 == 1 {
            CastlingRights(self.0 - bit)
        } else {
            self
        }
    }

    pub fn lose_all(self, color: Color) -> (r: CastlingRights)
        ensures
            r.0 as int == lose_all_rights(self.0 as int, color),
            self.wf() ==> r.wf(),
            forall|c2: Color, s2: CastlingSide|
                has_right(r.0 as int, c2, s2) == (c2 != color && has_right(self.0 as int, c2, s2)),
    {
        self.lose(color, CastlingSide::Kingside).lose(color, CastlingSide::Queenside)
    }

    /// Lose rights if the given square is a rook's home square for this color.
    pub fn lose_for_rook_at(self, square: Square, color: Color) -> (r: CastlingRights)
        ensures
            r.0 as int == lose_rook_right(
                self.0 as int,
                square.rank_spec(),
                square.file_spec(),
                color,
            ),
            self.wf() ==> r.wf(),
            forall|c2: Color, s2: CastlingSide|
                has_right(r.0 as int, c2, s2) ==> has_right(self.0 as int, c2, s2),
    {
        match CastlingSide::from_rook_square(square, color) {
            Some(side) => self.lose(color, side),
            None => self,
        }
    }
}

} // verus!
