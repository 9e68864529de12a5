//! Chess board representation and core data structures: colors, piece kinds,
//! the packed piece codec, squares, and the 64-slot board.

use vstd::prelude::*;

verus! {

// ============================================================================
// Colors and piece kinds
// ============================================================================

#[derive(Copy, Clone, PartialEq, Eq, Structural, Debug)]
pub enum Color {
    White,
    Black,
}

#[derive(Copy, Clone, PartialEq, Eq, Structural, Debug)]
pub enum PieceType {
    Pawn,
    Knight,
    Bishop,
    Rook,
    Queen,
    King,
}

/// Numeric code a color contributes to the packed piece byte.
pub open spec fn color_code(c: Color) -> int {
    match c {
        Color::White => 0,
        Color::Black => 1,
    }
}

/// The opposing color.
pub open spec fn other(c: Color) -> Color {
    match c {
        Color::White => Color::Black,
        Color::Black => Color::White,
    }
}

/// Back rank of a color: rank 0 for White, rank 7 for Black.
pub open spec fn home_rank_of(c: Color) -> int {
    match c {
        Color::White => 0,
        Color::Black => 7,
    }
}

/// Rank step a pawn of this color advances by.
pub open spec fn forward_of(c: Color) -> int {
    match c {
        Color::White => 1,
        Color::Black => -1,
    }
}

/// Rank a pawn of this color starts on (double pushes come from here).
pub open spec fn start_rank_of(c: Color) -> int {
    match c {
        Color::White => 1,
        Color::Black => 6,
    }
}

/// Far rank for a color's pawns: reaching it forces promotion.
pub open spec fn last_rank_of(c: Color) -> int {
    match c {
        Color::White => 7,
        Color::Black => 0,
    }
}

impl Color {
    pub fn opposite(self) -> (r: Color)
        ensures
            r == other(self),
    {
        match self {
            Color::White => Color::Black,
            Color::Black => Color::White,
        }
    }

    pub fn code(self) -> (r: u8)
        ensures
            r as int == color_code(self),
    {
        match self {
            Color::White => 0,
            Color::Black => 1,
        }
    }

    pub fn home_rank(self) -> (r: u8)
        ensures
            r as int == home_rank_of(self),
    {
        match self {
            Color::White => 0,
            Color::Black => 7,
        }
    }
}

/// Numeric code of a piece kind in the packed piece byte (1 through 6).
pub open spec fn kind_code(t: PieceType) -> int {
    match t {
        PieceType::Pawn => 1,
        PieceType::Knight => 2,
        PieceType::Bishop => 3,
        PieceType::Rook => 4,
        PieceType::Queen => 5,
        PieceType::King => 6,
    }
}

impl PieceType {
    pub fn code(self) -> (r: u8)
        ensures
            r as int == kind_code(self),
    {
        match self {
            PieceType::Pawn => 1,
            PieceType::Knight => 2,
            PieceType::Bishop => 3,
            PieceType::Rook => 4,
            PieceType::Queen => 5,
            PieceType::King => 6,
        }
    }

    pub fn from_u8(value: u8) -> (r: PieceType)
        requires
            1 <= value <= 6,
        ensures
            kind_code(r) == value as int,
    {
        match value {
            1 => PieceType::Pawn,
            2 => PieceType::Knight,
            3 => PieceType::Bishop,
            4 => PieceType::Rook,
            5 => PieceType::Queen,
            _ => PieceType::King,
        }
    }
}

// ============================================================================
// Square
// ============================================================================

/// A square as a linear index in [0, 64): rank = index div 8, file = index mod 8.
#[derive(Copy, Clone, PartialEq, Eq, Structural, Debug)]
pub struct Square(pub u8);

/// Whether a coordinate pair lies on the board.
pub open spec fn on_board(rank: int, file: int) -> bool {
    0 <= rank < 8 && 0 <= file < 8
}

/// Linear index of a coordinate pair.
pub open spec fn square_index(rank: int, file: int) -> int {
    rank * 8 + file
}

/// Rank of a linear index.
pub open spec fn rank_of(sq: int) -> int {
    sq / 8
}

/// File of a linear index.
pub open spec fn file_of(sq: int) -> int {
    sq % 8
}

impl Square {
    pub open spec fn wf(self) -> bool {
        self.0 < 64
    }

    pub open spec fn idx(self) -> int {
        self.0 as int
    }

    pub open spec fn rank_spec(self) -> int {
        rank_of(self.0 as int)
    }

    pub open spec fn file_spec(self) -> int {
        file_of(self.0 as int)
    }

    // --- Construction --- //
    pub fn from_coords(rank: u8, file: u8) -> (r: Square)
        requires
            rank < 8,
            file < 8,
        ensures
            r.idx() == square_index(rank as int, file as int),
            r.wf(),
            r.rank_spec() == rank as int,
            r.file_spec() == file as int,
    {
        Square(rank * 8 + file)
    }

    pub fn from_index(index: usize) -> (r: Square)
        requires
            index < 64,
        ensures
            r.idx() == index as int,
            r.wf(),
    {
        Square(index as u8)
    }

    // --- Extraction --- //
    pub fn rank(self) -> (r: u8)
        ensures
            r as int == self.rank_spec(),
    {
        self.0 / 8
    }

    pub fn file(self) -> (r: u8)
        ensures
            r as int == self.file_spec(),
    {
        self.0 % 8
    }

    pub fn index(self) -> (r: usize)
        ensures
            r as int == self.idx(),
    {
        self.0 as usize
    }

    /// Square displaced by a signed (rank, file) offset, or `None` when the
    /// displaced coordinates fall outside the board.
    pub fn offset(self, dr: i8, df: i8) -> (r: Option<Square>)
        requires
            self.wf(),
        ensures
            on_board(self.rank_spec() + dr as int, self.file_spec() + df as int) ==> (r
                matches Some(sq) && sq.wf() && sq.idx() == square_index(
                self.rank_spec() + dr as int,
                self.file_spec() + df as int,
            )),
            !on_board(self.rank_spec() + dr as int, self.file_spec() + df as int) ==> r is None,
    {
        let nr: i16 = self.rank() as i16 + dr as i16;
        let nf: i16 = self.file() as i16 + df as i16;
        if 0 <= nr && nr < 8 && 0 <= nf && nf < 8 {
            Some(Square::from_coords(nr as u8, nf as u8))
        } else {
            None
        }
    }

    /// Square a piece of color `c` reaches by advancing `steps` ranks in its
    /// forward direction and `lateral` files to its own right (left for a
    /// negative value), or `None` off the board.
    pub fn forward(self, c: Color, steps: u8, lateral: i8) -> (r: Option<Square>)
        requires
            self.wf(),
            steps <= 7,
            -7 <= lateral as int <= 7,
        ensures
            on_board(
                self.rank_spec() + forward_of(c) * steps,
                self.file_spec() + forward_of(c) * lateral,
            ) ==> (r matches Some(sq) && sq.wf() && sq.idx() == square_index(
                self.rank_spec() + forward_of(c) * steps,
                self.file_spec() + forward_of(c) * lateral,
            )),
            !on_board(
                self.rank_spec() + forward_of(c) * steps,
                self.file_spec() + forward_of(c) * lateral,
            ) ==> r is None,
    {
        match c {
            Color::White => self.offset(steps as i8, lateral),
            Color::Black => self.offset(-(steps as i8), -lateral),
        }
    }
}

// ============================================================================
// Piece
// ============================================================================

/// An occupied piece byte: bit 7 set, kind in bits 0-2, color in bit 3,
/// has-moved in bit 6. Stated arithmetically: 128 + 64*moved + 8*color + kind.
#[derive(Copy, Clone, PartialEq, Eq, Structural, Debug)]
pub struct Piece(pub u8);

pub open spec fn byte_occupied(v: int) -> bool {
    v >= 128
}

pub open spec fn byte_kind(v: int) -> int {
    v % 8
}

pub open spec fn byte_color(v: int) -> Color {
    if (v / 8) % 2 == 1 {
        Color::Black
    } else {
        Color::White
    }
}

pub open spec fn byte_moved(v: int) -> bool {
    (v / 64) % 2 == 1
}

/// The canonical byte encoding a piece.
pub open spec fn piece_byte(t: PieceType, c: Color, moved: bool) -> int {
    128 + (if moved {
        64int
    } else {
        0int
    }) + color_code(c) * 8 + kind_code(t)
}

/// A well-formed occupied byte: occupied, a real kind, and no stray bits.
pub open spec fn byte_wf(v: int) -> bool {
    byte_occupied(v) && v < 256 && 1 <= byte_kind(v) <= 6 && (v / 16) % 4 == 0
}

/// A well-formed board slot: empty (0) or a well-formed piece byte.
pub open spec fn slot_wf(v: int) -> bool {
    v == 0 || byte_wf(v)
}

impl Piece {
    pub open spec fn wf(self) -> bool {
        byte_wf(self.0 as int)
    }

    pub open spec fn kind_spec(self) -> int {
        byte_kind(self.0 as int)
    }

    pub open spec fn color_spec(self) -> Color {
        byte_color(self.0 as int)
    }

    pub open spec fn moved_spec(self) -> bool {
        byte_moved(self.0 as int)
    }

    // --- Construction --- //
    pub fn new(piece_type: PieceType, color: Color) -> (r: Piece)
        ensures
            r.0 as int == piece_byte(piece_type, color, false),
            r.wf(),
            r.kind_spec() == kind_code(piece_type),
            r.color_spec() == color,
            !r.moved_spec(),
    {
        Piece(128 + color.code() * 8 + piece_type.code())
    }

    pub fn from_value(value: u8) -> (r: Option<Piece>)
        ensures
            r is Some <==> byte_occupied(value as int),
            r matches Some(p) ==> p.0 == value,
    {
        if Self::is_empty_value(value) {
            None
        } else {
            Some(Piece(value))
        }
    }

    // --- Extraction --- //
    pub fn value(self) -> (r: u8)
        ensures
            r == self.0,
    {
        self.0
    }

    pub fn has_moved(self) -> (r: bool)
        ensures
            r == self.moved_spec(),
    {
        (self.0 / 64) % 2 == 1
    }

    pub fn piece_type(self) -> (r: PieceType)
        requires
            1 <= self.kind_spec() <= 6,
        ensures
            kind_code(r) == self.kind_spec(),
    {
        match self.0 % 8 {
            1 => PieceType::Pawn,
            2 => PieceType::Knight,
            3 => PieceType::Bishop,
            4 => PieceType::Rook,
            5 => PieceType::Queen,
            _ => PieceType::King,
        }
    }

    pub fn color(self) -> (r: Color)
        ensures
            r == self.color_spec(),
    {
        if (self.0 / 8) % 2 == 1 {
            Color::Black
        } else {
            Color::White
        }
    }

    // --- Modifications --- //
    /// The same piece with the has-moved flag set; never mutates the original.
    pub fn with_moved(self) -> (r: Piece)
        ensures
            r.0 as int == moved_byte(self.0 as int),
            r.kind_spec() == self.kind_spec(),
            r.color_spec() == self.color_spec(),
            byte_occupied(self.0 as int) ==> r.moved_spec(),
            byte_occupied(self.0 as int) == byte_occupied(r.0 as int),
            self.wf() ==> r.wf(),
    {
        if self.has_moved() {
            self
        } else {
            Piece(self.0 + 64)
        }
    }

    // --- Utilities --- //
    pub fn is_empty_value(value: u8) -> (r: bool)
        ensures
            r == !byte_occupied(value as int),
    {
        value < 128
    }
}

/// Whether slot `i` of board contents `b` holds a piece of color `c` and kind
/// code `k`.
pub open spec fn slot_is(b: Seq<u8>, i: int, c: Color, k: int) -> bool {
    byte_occupied(b[i] as int) && byte_color(b[i] as int) == c && byte_kind(b[i] as int) == k
}

/// Whether square `i` holds the king of color `c`.
pub open spec fn is_king_at(b: Seq<u8>, i: int, c: Color) -> bool {
    0 <= i < 64 && slot_is(b, i, c, 6)
}

/// Whether board contents hold exactly one king of color `c`.
pub open spec fn one_king(b: Seq<u8>, c: Color) -> bool {
    exists|k: int| is_king_at(b, k, c) && (forall|j: int| is_king_at(b, j, c) ==> j == k)
}

/// Well-formed board contents: 64 slots, each empty or a well-formed piece.
pub open spec fn board_bytes_wf(b: Seq<u8>) -> bool {
    b.len() == 64 && (forall|i: int| 0 <= i < 64 ==> slot_wf(b[i] as int))
}

/// Byte of a piece after its has-moved flag is set.
pub open spec fn moved_byte(v: int) -> int {
    if byte_moved(v) {
        v
    } else {
        v + 64
    }
}

// ============================================================================
// Board
// ============================================================================

/// Fixed map from each of the 64 squares to at most one piece; byte 0 is an
/// empty slot.
#[derive(Copy, Clone)]
pub struct Board {
    pub squares: [u8; 64],
}

impl View for Board {
    type V = Seq<u8>;

    open spec fn view(&self) -> Seq<u8> {
        self.squares@
    }
}

/// Contents of a board after relocating the piece at `from` to `to` (setting
/// its has-moved flag); a move from an empty square changes nothing.
pub open spec fn board_with_move(b: Seq<u8>, from: int, to: int) -> Seq<u8> {
    if byte_occupied(b[from] as int) {
        b.update(from, 0u8).update(to, moved_byte(b[from] as int) as u8)
    } else {
        b
    }
}

impl Board {
    pub open spec fn wf(self) -> bool {
        forall|i: int| 0 <= i < 64 ==> slot_wf(self@[i] as int)
    }

    // --- Construction --- //
    pub fn new() -> (r: Board)
        ensures
            r@.len() == 64,
            forall|i: int| 0 <= i < 64 ==> r@[i] == 0,
            r.wf(),
    {
        Board { squares: [0u8; 64] }
    }

    // --- Queries --- //
    pub fn piece_at(&self, s: Square) -> (r: Option<Piece>)
        requires
            s.wf(),
        ensures
            r is Some <==> byte_occupied(self@[s.idx()] as int),
            r matches Some(p) ==> p.0 == self@[s.idx()],
    {
        Piece::from_value(self.squares[s.index()])
    }

    pub fn is_empty(&self, s: Square) -> (r: bool)
        requires
            s.wf(),
        ensures
            r == !byte_occupied(self@[s.idx()] as int),
    {
        Piece::is_empty_value(self.squares[s.index()])
    }

    // --- Modifications --- //
    pub fn with_piece(self, p: Piece, s: Square) -> (r: Board)
        requires
            s.wf(),
        ensures
            r@ == self@.update(s.idx(), p.0),
            self.wf() && p.wf() ==> r.wf(),
    {
        let mut b = self;
        b.squares[s.index()] = p.value();
        proof {
            assert(b@ =~= self@.update(s.idx(), p.0));
        }
        b
    }

    pub fn without_piece(self, s: Square) -> (r: Board)
        requires
            s.wf(),
        ensures
            r@ == self@.update(s.idx(), 0u8),
            self.wf() ==> r.wf(),
    {
        let mut b = self;
        b.squares[s.index()] = 0;
        proof {
            assert(b@ =~= self@.update(s.idx(), 0u8));
        }
        b
    }

    /// The occupied squares with their pieces, in ascending square order.
    pub fn pieces(&self) -> (r: Vec<(Square, Piece)>)
        ensures
            forall|i: int|
                0 <= i < r@.len() ==> (#[trigger] r@[i]).0.wf() && r@[i].1.0 == self@[r@[i].0.idx()]
                    && byte_occupied(self@[r@[i].0.idx()] as int),
            forall|sq: int|
                0 <= sq < 64 && byte_occupied(#[trigger] self@[sq] as int) ==> exists|i: int|
                    0 <= i < r@.len() && (#[trigger] r@[i]).0.idx() == sq,
            forall|i: int, j: int| 0 <= i < j < r@.len() ==> r@[i].0.idx() < r@[j].0.idx(),
    {
        let mut r: Vec<(Square, Piece)> = Vec::new();
        let mut s: usize = 0;
        while s < 64
            invariant
                s <= 64,
                forall|i: int|
                    0 <= i < r@.len() ==> (#[trigger] r@[i]).0.wf() && r@[i].1.0 == self@[r@[i].0.idx()]
                        && byte_occupied(self@[r@[i].0.idx()] as int) && r@[i].0.idx() < s as int,
                forall|sq: int|
                    0 <= sq < s as int && byte_occupied(#[trigger] self@[sq] as int) ==> exists|
                        i: int,
                    | 0 <= i < r@.len() && (#[trigger] r@[i]).0.idx() == sq,
                forall|i: int, j: int| 0 <= i < j < r@.len() ==> r@[i].0.idx() < r@[j].0.idx(),
            decreases 64 - s,
        {
            let square = Square::from_index(s);
            match self.piece_at(square) {
                Some(p) => {
                    let ghost r0 = r@;
                    r.push((square, p));
                    proof {
                        assert forall|sq: int|
                            0 <= sq < s as int + 1 && byte_occupied(
                                #[trigger] self@[sq] as int,
                            ) implies exists|i: int|
                            0 <= i < r@.len() && (#[trigger] r@[i]).0.idx() == sq by {
                            if sq == s as int {
                                assert((r@[r@.len() - 1]).0.idx() == sq);
                            } else {
                                let i = choose|i: int|
                                    0 <= i < r0.len() && (#[trigger] r0[i]).0.idx() == sq;
                                assert((r@[i]).0.idx() == sq);
                            }
                        }
                    }
                },
                None => {},
            }
            s = s + 1;
        }
        r
    }

    /// Relocate the piece at `from` to `to`, marking it moved and replacing
    /// whatever occupied `to`; does nothing when `from` is empty.
    pub fn with_move(self, from: Square, to: Square) -> (r: Board)
        requires
            from.wf(),
            to.wf(),
        ensures
            r@ == board_with_move(self@, from.idx(), to.idx()),
            self.wf() ==> r.wf(),
    {
        let mut b = self;
        match self.piece_at(from) {
            Some(p) => {
                let moved = p.with_moved();
                b.squares[from.index()] = 0;
                b.squares[to.index()] = moved.value();
                proof {
                    assert(b@ =~= board_with_move(self@, from.idx(), to.idx()));
                }
            },
            None => {},
        }
        b
    }
}

} // verus!
