//! Display formatting for chess types: coordinate names, Unicode piece
//! characters, and a whole-board rendering.

use vstd::prelude::*;
use crate::board::Board;
use crate::board::Color;
use crate::board::Piece;
use crate::board::PieceType;
use crate::board::Square;
use crate::board::byte_color;
use crate::board::byte_kind;
use crate::board::byte_occupied;
use crate::board::square_index;

verus! {

// ============================================================================
// Character-level model
// ============================================================================

/// Letter naming a file.
pub open spec fn file_char(f: int) -> char {
    if f == 0 {
        'a'
    } else if f == 1 {
        'b'
    } else if f == 2 {
        'c'
    } else if f == 3 {
        'd'
    } else if f == 4 {
        'e'
    } else if f == 5 {
        'f'
    } else if f == 6 {
        'g'
    } else {
        'h'
    }
}

/// Digit naming a rank (one-based).
pub open spec fn rank_char(r: int) -> char {
    if r == 0 {
        '1'
    } else if r == 1 {
        '2'
    } else if r == 2 {
        '3'
    } else if r == 3 {
        '4'
    } else if r == 4 {
        '5'
    } else if r == 5 {
        '6'
    } else if r == 6 {
        '7'
    } else {
        '8'
    }
}

/// Unicode character of a piece of the given kind code and color.
pub open spec fn piece_char_of(k: int, c: Color) -> char {
    match c {
        Color::White => {
            if k == 6 {
                '♔'
            } else if k == 5 {
                '♕'
            } else if k == 4 {
                '♖'
            } else if k == 3 {
                '♗'
            } else if k == 2 {
                '♘'
            } else {
                '♙'
            }
        },
        Color::Black => {
            if k == 6 {
                '♚'
            } else if k == 5 {
                '♛'
            } else if k == 4 {
                '♜'
            } else if k == 3 {
                '♝'
            } else if k == 2 {
                '♞'
            } else {
                '♟'
            }
        },
    }
}

/// Character shown for one board slot: its piece, or a middle dot when empty.
pub open spec fn slot_char(v: int) -> char {
    if byte_occupied(v) {
        piece_char_of(byte_kind(v), byte_color(v))
    } else {
        '·'
    }
}

/// The file-coordinate header and footer row.
pub open spec fn coords_row() -> Seq<char> {
    seq![' ', ' ', 'a', ' ', 'b', ' ', 'c', ' ', 'd', ' ', 'e', ' ', 'f', ' ', 'g', ' ', 'h']
}

/// The cells of one rank up to file `f` (exclusive), each followed by a space.
pub open spec fn cells_done(b: Seq<u8>, rank: int, f: int) -> Seq<char>
    decreases f,
{
    if f <= 0 {
        Seq::empty()
    } else {
        cells_done(b, rank, f - 1) + seq![slot_char(b[square_index(rank, f - 1)] as int), ' ']
    }
}

/// One rendered rank row: its digit, the eight cells, the digit again, and a
/// line break.
pub open spec fn row_seq(b: Seq<u8>, rank: int) -> Seq<char> {
    seq![rank_char(rank), ' '] + cells_done(b, rank, 8) + seq![rank_char(rank), '\n']
}

/// The rendered rows from rank 7 down to rank `k` (inclusive).
pub open spec fn rows_done(b: Seq<u8>, k: int) -> Seq<char>
    decreases 8 - k,
{
    if k > 7 {
        Seq::empty()
    } else {
        rows_done(b, k + 1) + row_seq(b, k)
    }
}

/// The whole rendered board: header row, ranks 8 down to 1, footer row.
pub open spec fn board_render(b: Seq<u8>) -> Seq<char> {
    coords_row() + seq!['\n'] + rows_done(b, 0) + coords_row()
}

// ============================================================================
// Rendering
// ============================================================================

/// Relies on `Iterator::collect` through `String`'s `FromIterator<&char>`
/// impl: collecting a vector's characters yields the string of exactly those
/// characters, in order.
#[verifier::external_body]
fn chars_to_string(v: &Vec<char>) -> (r: String)
    ensures
        r@ == v@,
{
    v.iter().collect()
}

fn push_char(v: &mut Vec<char>, c: char)
    ensures
        final(v)@ == old(v)@.push(c),
{
    v.push(c);
}

fn file_letter(file: u8) -> (r: char)
    requires
        file < 8,
    ensures
        r == file_char(file as int),
{
    match file {
        0 => 'a',
        1 => 'b',
        2 => 'c',
        3 => 'd',
        4 => 'e',
        5 => 'f',
        6 => 'g',
        _ => 'h',
    }
}

fn rank_digit(rank: u8) -> (r: char)
    requires
        rank < 8,
    ensures
        r == rank_char(rank as int),
{
    match rank {
        0 => '1',
        1 => '2',
        2 => '3',
        3 => '4',
        4 => '5',
        5 => '6',
        6 => '7',
        _ => '8',
    }
}

/// Unicode character of a piece.
pub fn piece_char(piece: &Piece) -> (r: char)
    requires
        piece.wf(),
    ensures
        r == piece_char_of(piece.kind_spec(), piece.color_spec()),
{
    match (piece.color(), piece.piece_type()) {
        (Color::White, PieceType::King) => '♔',
        (Color::White, PieceType::Queen) => '♕',
        (Color::White, PieceType::Rook) => '♖',
        (Color::White, PieceType::Bishop) => '♗',
        (Color::White, PieceType::Knight) => '♘',
        (Color::White, PieceType::Pawn) => '♙',
        (Color::Black, PieceType::King) => '♚',
        (Color::Black, PieceType::Queen) => '♛',
        (Color::Black, PieceType::Rook) => '♜',
        (Color::Black, PieceType::Bishop) => '♝',
        (Color::Black, PieceType::Knight) => '♞',
        (Color::Black, PieceType::Pawn) => '♟',
    }
}

/// Coordinate name of a square, file letter then rank digit.
pub fn render_square(square: &Square) -> (r: String)
    requires
        square.wf(),
    ensures
        r@ == seq![file_char(square.file_spec()), rank_char(square.rank_spec())],
{
    let mut v: Vec<char> = Vec::new();
    push_char(&mut v, file_letter(square.file()));
    push_char(&mut v, rank_digit(square.rank()));
    proof {
        assert(v@ =~= seq![file_char(square.file_spec()), rank_char(square.rank_spec())]);
    }
    chars_to_string(&v)
}

/// One-character rendering of a piece.
pub fn render_piece(piece: &Piece) -> (r: String)
    requires
        piece.wf(),
    ensures
        r@ == seq![piece_char_of(piece.kind_spec(), piece.color_spec())],
{
    let mut v: Vec<char> = Vec::new();
    push_char(&mut v, piece_char(piece));
    proof {
        assert(v@ =~= seq![piece_char_of(piece.kind_spec(), piece.color_spec())]);
    }
    chars_to_string(&v)
}

fn push_coords_row(v: &mut Vec<char>)
    ensures
        final(v)@ == old(v)@ + coords_row(),
{
    push_char(v, ' ');
    push_char(v, ' ');
    push_char(v, 'a');
    push_char(v, ' ');
    push_char(v, 'b');
    push_char(v, ' ');
    push_char(v, 'c');
    push_char(v, ' ');
    push_char(v, 'd');
    push_char(v, ' ');
    push_char(v, 'e');
    push_char(v, ' ');
    push_char(v, 'f');
    push_char(v, ' ');
    push_char(v, 'g');
    push_char(v, ' ');
    push_char(v, 'h');
    proof {
        assert(v@ =~= old(v)@ + coords_row());
    }
}

/// Render the whole board from White's perspective: a coordinate header,
/// ranks 8 down to 1 with a middle dot on each empty square, and a
/// coordinate footer.
pub fn render_board(board: &Board) -> (r: String)
    requires
        board.wf(),
    ensures
        r@ == board_render(board@),
{
    let ghost b = board@;
    let mut v: Vec<char> = Vec::new();
    push_coords_row(&mut v);
    push_char(&mut v, '\n');
    let ghost prefix = v@;
    proof {
        assert(rows_done(b, 8) =~= Seq::<char>::empty());
        assert(v@ =~= prefix + rows_done(b, 8));
    }
    let mut rr: u8 = 8;
    while rr > 0
        invariant
            rr <= 8,
            b == board@,
            board.wf(),
            prefix == coords_row() + seq!['\n'],
            v@ == prefix + rows_done(b, rr as int),
        decreases rr,
    {
        let rank = rr - 1;
        let ghost v0 = v@;
        push_char(&mut v, rank_digit(rank));
        push_char(&mut v, ' ');
        let ghost vcells0 = v@;
        let mut file: u8 = 0;
        while file < 8
            invariant
                file <= 8,
                rank < 8,
                b == board@,
                board.wf(),
                v@ == vcells0 + cells_done(b, rank as int, file as int),
            decreases 8 - file,
        {
            let square = Square::from_coords(rank, file);
            let cell = match board.piece_at(square) {
                Some(p) => piece_char(&p),
                None => '·',
            };
            push_char(&mut v, cell);
            push_char(&mut v, ' ');
            proof {
                assert(cells_done(b, rank as int, file as int + 1) =~= cells_done(
                    b,
                    rank as int,
                    file as int,
                ) + seq![slot_char(b[square_index(rank as int, file as int)] as int), ' ']);
                assert(v@ =~= vcells0 + cells_done(b, rank as int, file as int + 1));
            }
            file = file + 1;
        }
        push_char(&mut v, rank_digit(rank));
        push_char(&mut v, '\n');
        proof {
            assert(v@ =~= v0 + row_seq(b, rank as int));
            assert(rows_done(b, rank as int) =~= rows_done(b, rank as int + 1) + row_seq(
                b,
                rank as int,
            ));
            assert(v@ =~= prefix + rows_done(b, rank as int));
        }
        rr = rr - 1;
    }
    push_coords_row(&mut v);
    proof {
        assert(v@ =~= board_render(b));
    }
    chars_to_string(&v)
}

} // verus!
