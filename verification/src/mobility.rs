//! Attack detection and move generation.
//!
//! The attack oracle and the pseudo-legal move rules share one attacker-centric
//! model: `attacks` says when the piece on a square has a pseudo-legal capture
//! reaching another square, and sliding reach is phrased with a bounded ray
//! walk (`ray_reaches` / `first_hit`, eight steps of fuel cover the board).

use vstd::prelude::*;
use crate::board::Board;
use crate::board::Color;
use crate::board::Square;
use crate::board::byte_color;
use crate::board::byte_kind;
use crate::board::byte_occupied;
use crate::board::file_of;
use crate::board::forward_of;
use crate::board::is_king_at;
use crate::board::on_board;
use crate::board::one_king;
use crate::board::other;
use crate::board::rank_of;
use crate::board::slot_is;
use crate::board::square_index;
use crate::state::State;
use crate::state::StateModel;
use crate::state::apply_spec;
use crate::state::board_after;
use crate::board::moved_byte;
use crate::castling::CastlingSide;
use crate::castling::has_right;
use crate::board::PieceType;
use crate::board::home_rank_of;
use crate::board::last_rank_of;
use crate::board::start_rank_of;
use crate::mv::Move;
use crate::mv::move_bits;

verus! {

// ============================================================================
// Geometry
// ============================================================================

/// Coordinate difference a knight move covers; symmetric under negation.
pub open spec fn knight_delta(dr: int, df: int) -> bool {
    ((dr == 1 || dr == -1) && (df == 2 || df == -2)) || ((dr == 2 || dr == -2) && (df == 1 || df
        == -1))
}

/// Coordinate difference a king step covers; symmetric under negation.
pub open spec fn king_delta(dr: int, df: int) -> bool {
    -1 <= dr <= 1 && -1 <= df <= 1 && !(dr == 0 && df == 0)
}

/// A unit diagonal direction.
pub open spec fn diag_dir(dr: int, df: int) -> bool {
    (dr == 1 || dr == -1) && (df == 1 || df == -1)
}

/// A unit orthogonal direction.
pub open spec fn ortho_dir(dr: int, df: int) -> bool {
    (dr == 0 && (df == 1 || df == -1)) || (df == 0 && (dr == 1 || dr == -1))
}

// ============================================================================
// Rays
// ============================================================================

/// Walking from (r, f) in direction (dr, df), the target (tr, tf) is reached
/// within `n` steps before leaving the board or hitting any occupied square.
pub open spec fn ray_reaches(
    b: Seq<u8>,
    r: int,
    f: int,
    dr: int,
    df: int,
    tr: int,
    tf: int,
    n: nat,
) -> bool
    decreases n,
{
    if n == 0 {
        false
    } else {
        let r2 = r + dr;
        let f2 = f + df;
        if !on_board(r2, f2) {
            false
        } else if r2 == tr && f2 == tf {
            true
        } else if byte_occupied(b[square_index(r2, f2)] as int) {
            false
        } else {
            ray_reaches(b, r2, f2, dr, df, tr, tf, (n - 1) as nat)
        }
    }
}

/// Square `t` is reachable from square `s` along direction (dr, df) with every
/// strictly intermediate square empty.
pub open spec fn reaches(b: Seq<u8>, s: int, dr: int, df: int, t: int) -> bool {
    ray_reaches(b, rank_of(s), file_of(s), dr, df, rank_of(t), file_of(t), 8)
}

/// First occupied square met walking from (r, f) in direction (dr, df) within
/// `n` steps, if any.
pub open spec fn first_hit(b: Seq<u8>, r: int, f: int, dr: int, df: int, n: nat) -> Option<int>
    decreases n,
{
    if n == 0 {
        None
    } else {
        let r2 = r + dr;
        let f2 = f + df;
        if !on_board(r2, f2) {
            None
        } else if byte_occupied(b[square_index(r2, f2)] as int) {
            Some(square_index(r2, f2))
        } else {
            first_hit(b, r2, f2, dr, df, (n - 1) as nat)
        }
    }
}

// ============================================================================
// The attack model
// ============================================================================

/// Diagonal sliding reach between two squares.
pub open spec fn slider_diag(b: Seq<u8>, s: int, t: int) -> bool {
    exists|dr: int, df: int| diag_dir(dr, df) && reaches(b, s, dr, df, t)
}

/// Orthogonal sliding reach between two squares.
pub open spec fn slider_ortho(b: Seq<u8>, s: int, t: int) -> bool {
    exists|dr: int, df: int| ortho_dir(dr, df) && reaches(b, s, dr, df, t)
}

/// The piece of color `by` on square `s` has a pseudo-legal capture reaching
/// square `t`: a pawn's two forward diagonals, a knight's or king's fixed
/// offsets, or a slider's ray until blocked.
pub open spec fn attacks(b: Seq<u8>, s: int, t: int, by: Color) -> bool {
    &&& 0 <= s < 64
    &&& 0 <= t < 64
    &&& byte_occupied(b[s] as int)
    &&& byte_color(b[s] as int) == by
    &&& {
        let k = byte_kind(b[s] as int);
        let dr = rank_of(t) - rank_of(s);
        let df = file_of(t) - file_of(s);
        if k == 1 {
            dr == forward_of(by) && (df == 1 || df == -1)
        } else if k == 2 {
            knight_delta(dr, df)
        } else if k == 3 {
            slider_diag(b, s, t)
        } else if k == 4 {
            slider_ortho(b, s, t)
        } else if k == 5 {
            slider_diag(b, s, t) || slider_ortho(b, s, t)
        } else if k == 6 {
            king_delta(dr, df)
        } else {
            false
        }
    }
}

/// Some piece of color `by` attacks square `t`.
pub open spec fn spec_attacked(b: Seq<u8>, t: int, by: Color) -> bool {
    exists|s: int| attacks(b, s, t, by)
}

/// The king of color `c` stands attacked by the other color.
pub open spec fn in_check_color(b: Seq<u8>, c: Color) -> bool {
    exists|k: int| is_king_at(b, k, c) && spec_attacked(b, k, other(c))
}

// ============================================================================
// Ray lemmas
// ============================================================================

/// A ray needs at least one step of fuel to reach anything.
pub proof fn lemma_ray_pos(b: Seq<u8>, r: int, f: int, dr: int, df: int, tr: int, tf: int, n: nat)
    requires
        ray_reaches(b, r, f, dr, df, tr, tf, n),
    ensures
        n >= 1,
{
    if n == 0 {
        assert(!ray_reaches(b, r, f, dr, df, tr, tf, 0));
    }
}

/// More fuel never loses a reached target.
pub proof fn lemma_ray_mono(
    b: Seq<u8>,
    r: int,
    f: int,
    dr: int,
    df: int,
    tr: int,
    tf: int,
    n: nat,
    m: nat,
)
    requires
        ray_reaches(b, r, f, dr, df, tr, tf, n),
        n <= m,
    ensures
        ray_reaches(b, r, f, dr, df, tr, tf, m),
    decreases n,
{
    let r2 = r + dr;
    let f2 = f + df;
    if r2 == tr && f2 == tf {
    } else {
        lemma_ray_mono(b, r2, f2, dr, df, tr, tf, (n - 1) as nat, (m - 1) as nat);
    }
}

/// A ray that reaches an empty target square extends one step past it.
pub proof fn lemma_ray_extend(
    b: Seq<u8>,
    r: int,
    f: int,
    dr: int,
    df: int,
    tr: int,
    tf: int,
    n: nat,
)
    requires
        ray_reaches(b, r, f, dr, df, tr, tf, n),
        !(dr == 0 && df == 0),
        !byte_occupied(b[square_index(tr, tf)] as int),
        on_board(tr + dr, tf + df),
    ensures
        ray_reaches(b, r, f, dr, df, tr + dr, tf + df, (n + 1) as nat),
    decreases n,
{
    let r2 = r + dr;
    let f2 = f + df;
    if r2 == tr && f2 == tf {
        assert(ray_reaches(b, r2, f2, dr, df, tr + dr, tf + df, n));
    } else {
        lemma_ray_extend(b, r2, f2, dr, df, tr, tf, (n - 1) as nat);
    }
}

/// The square just before a reached target lies on the board and is either
/// the ray's start or an empty square the ray also reaches with less fuel.
pub proof fn lemma_ray_last_step(
    b: Seq<u8>,
    r: int,
    f: int,
    dr: int,
    df: int,
    tr: int,
    tf: int,
    n: nat,
)
    requires
        ray_reaches(b, r, f, dr, df, tr, tf, n),
        on_board(r, f),
    ensures
        on_board(tr, tf),
        on_board(tr - dr, tf - df),
        (tr - dr == r && tf - df == f) || (!byte_occupied(
            b[square_index(tr - dr, tf - df)] as int,
        ) && ray_reaches(b, r, f, dr, df, tr - dr, tf - df, (n - 1) as nat)),
    decreases n,
{
    let r2 = r + dr;
    let f2 = f + df;
    if r2 == tr && f2 == tf {
    } else {
        lemma_ray_last_step(b, r2, f2, dr, df, tr, tf, (n - 1) as nat);
        lemma_ray_pos(b, r2, f2, dr, df, tr, tf, (n - 1) as nat);
        if tr - dr == r2 && tf - df == f2 {
            assert(ray_reaches(b, r, f, dr, df, r2, f2, (n - 1) as nat));
        } else {
            assert(ray_reaches(b, r2, f2, dr, df, tr - dr, tf - df, (n - 2) as nat));
            assert(ray_reaches(b, r, f, dr, df, tr - dr, tf - df, (n - 1) as nat));
        }
    }
}

/// The first hit of a ray walk, if any, is an occupied square that reaches
/// back to the walk's start along the opposite direction.
pub proof fn lemma_first_hit(b: Seq<u8>, r: int, f: int, dr: int, df: int, n: nat)
    requires
        b.len() == 64,
        on_board(r, f),
        !(dr == 0 && df == 0),
    ensures
        match first_hit(b, r, f, dr, df, n) {
            Some(s) => 0 <= s < 64 && byte_occupied(b[s] as int) && ray_reaches(
                b,
                rank_of(s),
                file_of(s),
                -dr,
                -df,
                r,
                f,
                n,
            ),
            None => true,
        },
    decreases n,
{
    if n == 0 {
    } else {
        let r2 = r + dr;
        let f2 = f + df;
        if !on_board(r2, f2) {
        } else if byte_occupied(b[square_index(r2, f2)] as int) {
            let hit = square_index(r2, f2);
            assert(rank_of(hit) == r2 && file_of(hit) == f2);
            assert(ray_reaches(b, r2, f2, -dr, -df, r, f, n));
        } else {
            lemma_first_hit(b, r2, f2, dr, df, (n - 1) as nat);
            match first_hit(b, r2, f2, dr, df, (n - 1) as nat) {
                Some(s) => {
                    lemma_ray_extend(b, rank_of(s), file_of(s), -dr, -df, r2, f2, (n - 1) as nat);
                },
                None => {},
            }
        }
    }
}

/// An occupied square whose ray reaches the walk's start along the opposite
/// direction is exactly the walk's first hit.
pub proof fn lemma_first_hit_complete(
    b: Seq<u8>,
    r: int,
    f: int,
    dr: int,
    df: int,
    n: nat,
    sr: int,
    sf: int,
)
    requires
        b.len() == 64,
        0 <= square_index(sr, sf) < 64,
        byte_occupied(b[square_index(sr, sf)] as int),
        ray_reaches(b, sr, sf, -dr, -df, r, f, n),
        on_board(sr, sf),
    ensures
        first_hit(b, r, f, dr, df, n) == Some(square_index(sr, sf)),
    decreases n,
{
    lemma_ray_pos(b, sr, sf, -dr, -df, r, f, n);
    lemma_ray_last_step(b, sr, sf, -dr, -df, r, f, n);
    let r2 = r + dr;
    let f2 = f + df;
    // The square before (r, f) on the attacker's ray is exactly (r2, f2).
    assert(on_board(r2, f2));
    if r2 == sr && f2 == sf {
        assert(first_hit(b, r, f, dr, df, n) == Some(square_index(r2, f2)));
    } else {
        assert(!byte_occupied(b[square_index(r2, f2)] as int) && ray_reaches(
            b,
            sr,
            sf,
            -dr,
            -df,
            r2,
            f2,
            (n - 1) as nat,
        ));
        lemma_first_hit_complete(b, r2, f2, dr, df, (n - 1) as nat, sr, sf);
    }
}

// ============================================================================
// The attack oracle
// ============================================================================

/// Whether `sq` names a square whose slot holds a `by`-colored piece of kind
/// code `k1` or `k2`.
#[verifier::rlimit(100)]
#[verifier::spinoff_prover]
fn hit_is(board: &Board, sq: Option<Square>, by: Color, k1: u8, k2: u8) -> (r: bool)
    requires
        sq matches Some(s) ==> s.wf(),
    ensures
        r == (sq matches Some(s) && (slot_is(board@, s.idx(), by, k1 as int) || slot_is(
            board@,
            s.idx(),
            by,
            k2 as int,
        ))),
{
    match sq {
        None => false,
        Some(s) => {
            match board.piece_at(s) {
                None => false,
                Some(p) => {
                    let k = p.value() % 8;
                    p.color() == by && (k == k1 || k == k2)
                },
            }
        },
    }
}

/// First occupied square along a ray from `from`, by a straight walk.
#[verifier::rlimit(100)]
#[verifier::spinoff_prover]
fn scan_dir(board: &Board, from: Square, dr: i8, df: i8) -> (r: Option<Square>)
    requires
        from.wf(),
        -1 <= dr as int <= 1,
        -1 <= df as int <= 1,
        !(dr == 0 && df == 0),
    ensures
        match first_hit(board@, from.rank_spec(), from.file_spec(), dr as int, df as int, 8) {
            Some(s) => r matches Some(sq) && sq.wf() && sq.idx() == s,
            None => r is None,
        },
{
    let mut cur = from;
    let mut k: u8 = 0;
    while k < 8
        invariant
            cur.wf(),
            k <= 8,
            -1 <= dr as int <= 1,
            -1 <= df as int <= 1,
            !(dr == 0 && df == 0),
            first_hit(board@, from.rank_spec(), from.file_spec(), dr as int, df as int, 8)
                == first_hit(board@, cur.rank_spec(), cur.file_spec(), dr as int, df as int, (8
                - k) as nat),
        decreases 8 - k,
    {
        match cur.offset(dr, df) {
            None => {
                return None;
            },
            Some(nxt) => {
                if !board.is_empty(nxt) {
                    return Some(nxt);
                }
                cur = nxt;
                k = k + 1;
            },
        }
    }
    None
}

/// Ray probe: the first piece met from `from` along (dr, df) is a `by`-colored
/// piece of kind `k1` or `k2`.
#[verifier::rlimit(100)]
#[verifier::spinoff_prover]
fn scan_hit_is(board: &Board, from: Square, dr: i8, df: i8, by: Color, k1: u8, k2: u8) -> (r: bool)
    requires
        from.wf(),
        -1 <= dr as int <= 1,
        -1 <= df as int <= 1,
        !(dr == 0 && df == 0),
    ensures
        r == (first_hit(board@, from.rank_spec(), from.file_spec(), dr as int, df as int, 8)
            matches Some(s) && 0 <= s < 64 && (slot_is(board@, s, by, k1 as int) || slot_is(
            board@,
            s,
            by,
            k2 as int,
        ))),
{
    let hit = scan_dir(board, from, dr, df);
    hit_is(board, hit, by, k1, k2)
}

/// A knight of `by` attacks `t`.
#[verifier::rlimit(100)]
#[verifier::spinoff_prover]
fn knight_probe(board: &Board, t: Square, by: Color) -> (r: bool)
    requires
        t.wf(),
        board@.len() == 64,
    ensures
        r == exists|s: int|
            #![trigger slot_is(board@, s, by, 2)]
            0 <= s < 64 && slot_is(board@, s, by, 2) && knight_delta(
                rank_of(t.idx()) - rank_of(s),
                file_of(t.idx()) - file_of(s),
            ),
{
    let o1 = t.offset(-2, -1);
    let o2 = t.offset(-2, 1);
    let o3 = t.offset(-1, -2);
    let o4 = t.offset(-1, 2);
    let o5 = t.offset(1, -2);
    let o6 = t.offset(1, 2);
    let o7 = t.offset(2, -1);
    let o8 = t.offset(2, 1);
    let found = hit_is(board, o1, by, 2, 2) || hit_is(board, o2, by, 2, 2) || hit_is(
        board,
        o3,
        by,
        2,
        2,
    ) || hit_is(board, o4, by, 2, 2) || hit_is(board, o5, by, 2, 2) || hit_is(board, o6, by, 2, 2)
        || hit_is(board, o7, by, 2, 2) || hit_is(board, o8, by, 2, 2);
    proof {
        if !found {
            assert forall|s: int|
                !(0 <= s < 64 && #[trigger] slot_is(board@, s, by, 2) && knight_delta(
                    rank_of(t.idx()) - rank_of(s),
                    file_of(t.idx()) - file_of(s),
                )) by {
                if 0 <= s < 64 {
                    assert(s == 8 * rank_of(s) + file_of(s));
                }
            }
        }
    }
    found
}

/// A king of `by` stands next to `t`.
#[verifier::rlimit(100)]
#[verifier::spinoff_prover]
fn king_probe(board: &Board, t: Square, by: Color) -> (r: bool)
    requires
        t.wf(),
        board@.len() == 64,
    ensures
        r == exists|s: int|
            #![trigger slot_is(board@, s, by, 6)]
            0 <= s < 64 && slot_is(board@, s, by, 6) && king_delta(
                rank_of(t.idx()) - rank_of(s),
                file_of(t.idx()) - file_of(s),
            ),
{
    let o1 = t.offset(-1, -1);
    let o2 = t.offset(-1, 0);
    let o3 = t.offset(-1, 1);
    let o4 = t.offset(0, -1);
    let o5 = t.offset(0, 1);
    let o6 = t.offset(1, -1);
    let o7 = t.offset(1, 0);
    let o8 = t.offset(1, 1);
    let found = hit_is(board, o1, by, 6, 6) || hit_is(board, o2, by, 6, 6) || hit_is(
        board,
        o3,
        by,
        6,
        6,
    ) || hit_is(board, o4, by, 6, 6) || hit_is(board, o5, by, 6, 6) || hit_is(board, o6, by, 6, 6)
        || hit_is(board, o7, by, 6, 6) || hit_is(board, o8, by, 6, 6);
    proof {
        if !found {
            assert forall|s: int|
                !(0 <= s < 64 && #[trigger] slot_is(board@, s, by, 6) && king_delta(
                    rank_of(t.idx()) - rank_of(s),
                    file_of(t.idx()) - file_of(s),
                )) by {
                if 0 <= s < 64 {
                    assert(s == 8 * rank_of(s) + file_of(s));
                }
            }
        }
    }
    found
}

/// A pawn of `by` attacks `t` from one of the two diagonal-backward squares
/// relative to its advance (never straight ahead).
#[verifier::rlimit(100)]
#[verifier::spinoff_prover]
fn pawn_probe(board: &Board, t: Square, by: Color) -> (r: bool)
    requires
        t.wf(),
        board@.len() == 64,
    ensures
        r == exists|s: int|
            #![trigger slot_is(board@, s, by, 1)]
            0 <= s < 64 && slot_is(board@, s, by, 1) && rank_of(t.idx()) - rank_of(s) == forward_of(
                by,
            ) && (file_of(t.idx()) - file_of(s) == 1 || file_of(t.idx()) - file_of(s) == -1),
{
    let back: i8 = match by {
        Color::White => -1,
        Color::Black => 1,
    };
    let o1 = t.offset(back, -1);
    let o2 = t.offset(back, 1);
    let found = hit_is(board, o1, by, 1, 1) || hit_is(board, o2, by, 1, 1);
    proof {
        if !found {
            assert forall|s: int|
                !(0 <= s < 64 && #[trigger] slot_is(board@, s, by, 1) && rank_of(t.idx()) - rank_of(
                    s,
                ) == forward_of(by) && (file_of(t.idx()) - file_of(s) == 1 || file_of(t.idx())
                    - file_of(s) == -1)) by {
                if 0 <= s < 64 {
                    assert(s == 8 * rank_of(s) + file_of(s));
                }
            }
        }
    }
    found
}

/// A successful ray probe names a matching slider that reaches back.
proof fn lemma_slider_found(b: Seq<u8>, ti: int, dr: int, df: int, by: Color, k1: int, k2: int)
    requires
        b.len() == 64,
        0 <= ti < 64,
        !(dr == 0 && df == 0),
        match first_hit(b, rank_of(ti), file_of(ti), dr, df, 8) {
            Some(s) => 0 <= s < 64 && (slot_is(b, s, by, k1) || slot_is(b, s, by, k2)),
            None => false,
        },
    ensures
        exists|s: int|
            #![trigger byte_kind(b[s] as int)]
            0 <= s < 64 && byte_occupied(b[s] as int) && byte_color(b[s] as int) == by && (byte_kind(
                b[s] as int,
            ) == k1 || byte_kind(b[s] as int) == k2) && reaches(b, s, -dr, -df, ti),
{
    lemma_first_hit(b, rank_of(ti), file_of(ti), dr, df, 8);
    let fh = first_hit(b, rank_of(ti), file_of(ti), dr, df, 8);
    match fh {
        Some(s) => {
            assert(reaches(b, s, -dr, -df, ti));
            assert(0 <= s < 64 && byte_occupied(b[s] as int) && byte_color(b[s] as int) == by && (
            byte_kind(b[s] as int) == k1 || byte_kind(b[s] as int) == k2) && reaches(
                b,
                s,
                -dr,
                -df,
                ti,
            ));
        },
        None => {
            assert(false);
        },
    }
}

/// A bishop or queen of `by` reaches `t` along a clear diagonal.
#[verifier::rlimit(100)]
#[verifier::spinoff_prover]
fn diag_probe(board: &Board, t: Square, by: Color) -> (r: bool)
    requires
        t.wf(),
        board@.len() == 64,
    ensures
        r == exists|s: int|
            #![trigger byte_kind(board@[s] as int)]
            0 <= s < 64 && byte_occupied(board@[s] as int) && byte_color(board@[s] as int) == by && (
            byte_kind(board@[s] as int) == 3 || byte_kind(board@[s] as int) == 5) && slider_diag(
                board@,
                s,
                t.idx(),
            ),
{
    let f1 = scan_hit_is(board, t, 1, 1, by, 3, 5);
    let f2 = scan_hit_is(board, t, 1, -1, by, 3, 5);
    let f3 = scan_hit_is(board, t, -1, 1, by, 3, 5);
    let f4 = scan_hit_is(board, t, -1, -1, by, 3, 5);
    let found = f1 || f2 || f3 || f4;
    proof {
        let b = board@;
        let ti = t.idx();
        if found {
            if f1 {
                lemma_slider_found(b, ti, 1, 1, by, 3, 5);
                let s = choose|s: int|
                    #![trigger byte_kind(b[s] as int)]
                    0 <= s < 64 && byte_occupied(b[s] as int) && byte_color(b[s] as int) == by && (
                    byte_kind(b[s] as int) == 3 || byte_kind(b[s] as int) == 5) && reaches(
                        b,
                        s,
                        -1,
                        -1,
                        ti,
                    );
                assert(diag_dir(-1, -1) && reaches(b, s, -1, -1, ti));
                assert(slider_diag(b, s, ti));
            } else if f2 {
                lemma_slider_found(b, ti, 1, -1, by, 3, 5);
                let s = choose|s: int|
                    #![trigger byte_kind(b[s] as int)]
                    0 <= s < 64 && byte_occupied(b[s] as int) && byte_color(b[s] as int) == by && (
                    byte_kind(b[s] as int) == 3 || byte_kind(b[s] as int) == 5) && reaches(
                        b,
                        s,
                        -1,
                        1,
                        ti,
                    );
                assert(diag_dir(-1, 1) && reaches(b, s, -1, 1, ti));
                assert(slider_diag(b, s, ti));
            } else if f3 {
                lemma_slider_found(b, ti, -1, 1, by, 3, 5);
                let s = choose|s: int|
                    #![trigger byte_kind(b[s] as int)]
                    0 <= s < 64 && byte_occupied(b[s] as int) && byte_color(b[s] as int) == by && (
                    byte_kind(b[s] as int) == 3 || byte_kind(b[s] as int) == 5) && reaches(
                        b,
                        s,
                        1,
                        -1,
                        ti,
                    );
                assert(diag_dir(1, -1) && reaches(b, s, 1, -1, ti));
                assert(slider_diag(b, s, ti));
            } else {
                lemma_slider_found(b, ti, -1, -1, by, 3, 5);
                let s = choose|s: int|
                    #![trigger byte_kind(b[s] as int)]
                    0 <= s < 64 && byte_occupied(b[s] as int) && byte_color(b[s] as int) == by && (
                    byte_kind(b[s] as int) == 3 || byte_kind(b[s] as int) == 5) && reaches(
                        b,
                        s,
                        1,
                        1,
                        ti,
                    );
                assert(diag_dir(1, 1) && reaches(b, s, 1, 1, ti));
                assert(slider_diag(b, s, ti));
            }
        } else {
            assert forall|s: int|
                !(0 <= s < 64 && byte_occupied(b[s] as int) && byte_color(b[s] as int) == by && (
                #[trigger] byte_kind(b[s] as int) == 3 || byte_kind(b[s] as int) == 5)
                    && slider_diag(b, s, ti)) by {
                if 0 <= s < 64 && byte_occupied(b[s] as int) && slider_diag(b, s, ti) {
                    let (dr, df) = choose|dr: int, df: int|
                        diag_dir(dr, df) && reaches(b, s, dr, df, ti);
                    assert(square_index(rank_of(s), file_of(s)) == s);
                    lemma_first_hit_complete(
                        b,
                        rank_of(ti),
                        file_of(ti),
                        -dr,
                        -df,
                        8,
                        rank_of(s),
                        file_of(s),
                    );
                    if dr == 1 && df == 1 {
                        assert(first_hit(b, rank_of(ti), file_of(ti), -1, -1, 8) == Some(s));
                    } else if dr == 1 && df == -1 {
                        assert(first_hit(b, rank_of(ti), file_of(ti), -1, 1, 8) == Some(s));
                    } else if dr == -1 && df == 1 {
                        assert(first_hit(b, rank_of(ti), file_of(ti), 1, -1, 8) == Some(s));
                    } else {
                        assert(first_hit(b, rank_of(ti), file_of(ti), 1, 1, 8) == Some(s));
                    }
                }
            }
        }
    }
    found
}

/// A rook or queen of `by` reaches `t` along a clear rank or file.
#[verifier::rlimit(100)]
#[verifier::spinoff_prover]
fn ortho_probe(board: &Board, t: Square, by: Color) -> (r: bool)
    requires
        t.wf(),
        board@.len() == 64,
    ensures
        r == exists|s: int|
            #![trigger byte_kind(board@[s] as int)]
            0 <= s < 64 && byte_occupied(board@[s] as int) && byte_color(board@[s] as int) == by && (
            byte_kind(board@[s] as int) == 4 || byte_kind(board@[s] as int) == 5) && slider_ortho(
                board@,
                s,
                t.idx(),
            ),
{
    let f1 = scan_hit_is(board, t, 0, 1, by, 4, 5);
    let f2 = scan_hit_is(board, t, 0, -1, by, 4, 5);
    let f3 = scan_hit_is(board, t, 1, 0, by, 4, 5);
    let f4 = scan_hit_is(board, t, -1, 0, by, 4, 5);
    let found = f1 || f2 || f3 || f4;
    proof {
        let b = board@;
        let ti = t.idx();
        if found {
            if f1 {
                lemma_slider_found(b, ti, 0, 1, by, 4, 5);
                let s = choose|s: int|
                    #![trigger byte_kind(b[s] as int)]
                    0 <= s < 64 && byte_occupied(b[s] as int) && byte_color(b[s] as int) == by && (
                    byte_kind(b[s] as int) == 4 || byte_kind(b[s] as int) == 5) && reaches(
                        b,
                        s,
                        0,
                        -1,
                        ti,
                    );
                assert(ortho_dir(0, -1) && reaches(b, s, 0, -1, ti));
                assert(slider_ortho(b, s, ti));
            } else if f2 {
                lemma_slider_found(b, ti, 0, -1, by, 4, 5);
                let s = choose|s: int|
                    #![trigger byte_kind(b[s] as int)]
                    0 <= s < 64 && byte_occupied(b[s] as int) && byte_color(b[s] as int) == by && (
                    byte_kind(b[s] as int) == 4 || byte_kind(b[s] as int) == 5) && reaches(
                        b,
                        s,
                        0,
                        1,
                        ti,
                    );
                assert(ortho_dir(0, 1) && reaches(b, s, 0, 1, ti));
                assert(slider_ortho(b, s, ti));
            } else if f3 {
                lemma_slider_found(b, ti, 1, 0, by, 4, 5);
                let s = choose|s: int|
                    #![trigger byte_kind(b[s] as int)]
                    0 <= s < 64 && byte_occupied(b[s] as int) && byte_color(b[s] as int) == by && (
                    byte_kind(b[s] as int) == 4 || byte_kind(b[s] as int) == 5) && reaches(
                        b,
                        s,
                        -1,
                        0,
                        ti,
                    );
                assert(ortho_dir(-1, 0) && reaches(b, s, -1, 0, ti));
                assert(slider_ortho(b, s, ti));
            } else {
                lemma_slider_found(b, ti, -1, 0, by, 4, 5);
                let s = choose|s: int|
                    #![trigger byte_kind(b[s] as int)]
                    0 <= s < 64 && byte_occupied(b[s] as int) && byte_color(b[s] as int) == by && (
                    byte_kind(b[s] as int) == 4 || byte_kind(b[s] as int) == 5) && reaches(
                        b,
                        s,
                        1,
                        0,
                        ti,
                    );
                assert(ortho_dir(1, 0) && reaches(b, s, 1, 0, ti));
                assert(slider_ortho(b, s, ti));
            }
        } else {
            assert forall|s: int|
                !(0 <= s < 64 && byte_occupied(b[s] as int) && byte_color(b[s] as int) == by && (
                #[trigger] byte_kind(b[s] as int) == 4 || byte_kind(b[s] as int) == 5)
                    && slider_ortho(b, s, ti)) by {
                if 0 <= s < 64 && byte_occupied(b[s] as int) && slider_ortho(b, s, ti) {
                    let (dr, df) = choose|dr: int, df: int|
                        ortho_dir(dr, df) && reaches(b, s, dr, df, ti);
                    assert(square_index(rank_of(s), file_of(s)) == s);
                    lemma_first_hit_complete(
                        b,
                        rank_of(ti),
                        file_of(ti),
                        -dr,
                        -df,
                        8,
                        rank_of(s),
                        file_of(s),
                    );
                    if dr == 0 && df == 1 {
                        assert(first_hit(b, rank_of(ti), file_of(ti), 0, -1, 8) == Some(s));
                    } else if dr == 0 && df == -1 {
                        assert(first_hit(b, rank_of(ti), file_of(ti), 0, 1, 8) == Some(s));
                    } else if dr == 1 && df == 0 {
                        assert(first_hit(b, rank_of(ti), file_of(ti), -1, 0, 8) == Some(s));
                    } else {
                        assert(first_hit(b, rank_of(ti), file_of(ti), 1, 0, 8) == Some(s));
                    }
                }
            }
        }
    }
    found
}

/// Check if a square is attacked by pieces of a given color: knight and king
/// offsets, the two pawn diagonals, and a ray cast in each of the eight
/// directions whose first blocker counts exactly when it is a matching slider.
#[verifier::rlimit(100)]
#[verifier::spinoff_prover]
pub fn is_square_attacked(board: &Board, square: Square, by: Color) -> (r: bool)
    requires
        square.wf(),
        board@.len() == 64,
    ensures
        r == spec_attacked(board@, square.idx(), by),
{
    let r = knight_probe(board, square, by) || king_probe(board, square, by) || pawn_probe(
        board,
        square,
        by,
    ) || diag_probe(board, square, by) || ortho_probe(board, square, by);
    proof {
        let b = board@;
        let ti = square.idx();
        if r {
            assert(spec_attacked(b, ti, by)) by {
                let s = choose|s: int|
                    #![trigger byte_kind(b[s] as int)]
                    0 <= s < 64 && byte_occupied(b[s] as int) && byte_color(b[s] as int) == by && ({
                        let k = byte_kind(b[s] as int);
                        let dr = rank_of(ti) - rank_of(s);
                        let df = file_of(ti) - file_of(s);
                        (k == 1 && dr == forward_of(by) && (df == 1 || df == -1)) || (k == 2
                            && knight_delta(dr, df)) || (k == 6 && king_delta(dr, df)) || ((k == 3
                            || k == 5) && slider_diag(b, s, ti)) || ((k == 4 || k == 5)
                            && slider_ortho(b, s, ti))
                    });
                assert(attacks(b, s, ti, by));
            }
        } else {
            assert forall|s: int| !attacks(b, s, ti, by) by {
                if 0 <= s < 64 && byte_occupied(b[s] as int) && byte_color(b[s] as int) == by {
                    assert(slot_is(b, s, by, byte_kind(b[s] as int)));
                }
            }
        }
    }
    r
}

// ============================================================================
// Kings and check
// ============================================================================

/// Find the king of a given color on the board.
pub fn find_king(board: &Board, color: Color) -> (r: Square)
    requires
        board@.len() == 64,
        exists|k: int| is_king_at(board@, k, color),
    ensures
        r.wf(),
        is_king_at(board@, r.idx(), color),
{
    let mut i: usize = 0;
    while i < 64
        invariant
            i <= 64,
            board@.len() == 64,
            exists|k: int| is_king_at(board@, k, color),
            forall|j: int| 0 <= j < i ==> !is_king_at(board@, j, color),
        decreases 64 - i,
    {
        let s = Square::from_index(i);
        match board.piece_at(s) {
            Some(p) => {
                if p.value() % 8 == 6 && p.color() == color {
                    return s;
                }
            },
            None => {},
        }
        i = i + 1;
    }
    proof {
        let k = choose|k: int| is_king_at(board@, k, color);
        assert(false);
    }
    Square(0)
}

// ============================================================================
// The pseudo-legal move model
// ============================================================================

/// Square `i` holds a piece of color `c`.
pub open spec fn own_piece_at(b: Seq<u8>, i: int, c: Color) -> bool {
    byte_occupied(b[i] as int) && byte_color(b[i] as int) == c
}

/// Square `i` holds no piece of color `c` (it is empty or holds an enemy).
pub open spec fn free_for(b: Seq<u8>, i: int, c: Color) -> bool {
    !own_piece_at(b, i, c)
}

/// Square `i` holds a piece of the color opposing `c`.
pub open spec fn enemy_at(b: Seq<u8>, i: int, c: Color) -> bool {
    own_piece_at(b, i, other(c))
}

/// A canonically encoded Normal move.
pub open spec fn plain_normal(m: Move) -> bool {
    m.ty_code_spec() == 0 && m.promo_code_spec() == 0
}

/// Pseudo-legal knight move: one of the eight offsets, not landing on an own
/// piece.
pub open spec fn pl_knight(b: Seq<u8>, c: Color, m: Move) -> bool {
    &&& plain_normal(m)
    &&& knight_delta(
        rank_of(m.tgt_spec()) - rank_of(m.src_spec()),
        file_of(m.tgt_spec()) - file_of(m.src_spec()),
    )
    &&& free_for(b, m.tgt_spec(), c)
}

/// Pseudo-legal single king step.
pub open spec fn pl_king_step(b: Seq<u8>, c: Color, m: Move) -> bool {
    &&& plain_normal(m)
    &&& king_delta(
        rank_of(m.tgt_spec()) - rank_of(m.src_spec()),
        file_of(m.tgt_spec()) - file_of(m.src_spec()),
    )
    &&& free_for(b, m.tgt_spec(), c)
}

/// Pseudo-legal slider move: the target is reached along a clear ray of an
/// allowed direction class and is not an own piece (the first blocker is
/// included exactly when it is an enemy).
pub open spec fn pl_slider(b: Seq<u8>, c: Color, m: Move, diag: bool, ortho: bool) -> bool {
    &&& plain_normal(m)
    &&& free_for(b, m.tgt_spec(), c)
    &&& ((diag && slider_diag(b, m.src_spec(), m.tgt_spec())) || (ortho && slider_ortho(
        b,
        m.src_spec(),
        m.tgt_spec(),
    )))
}

/// Pseudo-legal pawn advance: a single push onto an empty square, or a double
/// push from the start rank through two empty squares; reaching the far rank
/// turns the push into one promotion move per promotable kind.
pub open spec fn pl_pawn_push(s: StateModel, m: Move) -> bool {
    let b = s.board;
    let c = s.to_move;
    let sr = rank_of(m.src_spec());
    let sf = file_of(m.src_spec());
    let tr = rank_of(m.tgt_spec());
    let tf = file_of(m.tgt_spec());
    &&& tf == sf
    &&& !byte_occupied(b[m.tgt_spec()] as int)
    &&& {
        ||| (m.ty_code_spec() == 0 && m.promo_code_spec() == 0 && tr == sr + forward_of(c) && tr
            != last_rank_of(c))
        ||| (m.ty_code_spec() == 0 && m.promo_code_spec() == 0 && sr == start_rank_of(c) && tr == sr
            + forward_of(c) + forward_of(c) && !byte_occupied(
            b[square_index(sr + forward_of(c), sf)] as int,
        ))
        ||| (m.ty_code_spec() == 1 && tr == sr + forward_of(c) && tr == last_rank_of(c))
    }
}

/// Pseudo-legal pawn capture: diagonally forward onto an enemy occupant, as a
/// promotion on the far rank; or en passant onto the current en-passant
/// target.
pub open spec fn pl_pawn_capture(s: StateModel, m: Move) -> bool {
    let b = s.board;
    let c = s.to_move;
    let sr = rank_of(m.src_spec());
    let sf = file_of(m.src_spec());
    let tr = rank_of(m.tgt_spec());
    let tf = file_of(m.tgt_spec());
    &&& tr == sr + forward_of(c)
    &&& (tf == sf + 1 || tf == sf - 1)
    &&& {
        ||| (m.ty_code_spec() == 0 && m.promo_code_spec() == 0 && enemy_at(b, m.tgt_spec(), c) && tr
            != last_rank_of(c))
        ||| (m.ty_code_spec() == 1 && enemy_at(b, m.tgt_spec(), c) && tr == last_rank_of(c))
        ||| (m.ty_code_spec() == 2 && m.promo_code_spec() == 0 && s.ep == Some(m.tgt_spec()))
    }
}

/// Pseudo-legal pawn move.
pub open spec fn pl_pawn(s: StateModel, m: Move) -> bool {
    pl_pawn_push(s, m) || pl_pawn_capture(s, m)
}

/// The castling conditions for one side: the right is held, the corridor
/// between king and rook is empty, the king is not attacked where it stands,
/// and no square on its path is attacked.
pub open spec fn castle_ok(s: StateModel, side: CastlingSide) -> bool {
    let b = s.board;
    let c = s.to_move;
    let hr = home_rank_of(c);
    let opp = other(c);
    &&& has_right(s.rights, c, side)
    &&& !spec_attacked(b, square_index(hr, 4), opp)
    &&& match side {
        CastlingSide::Kingside => {
            &&& !byte_occupied(b[square_index(hr, 5)] as int)
            &&& !byte_occupied(b[square_index(hr, 6)] as int)
            &&& !spec_attacked(b, square_index(hr, 5), opp)
            &&& !spec_attacked(b, square_index(hr, 6), opp)
        },
        CastlingSide::Queenside => {
            &&& !byte_occupied(b[square_index(hr, 1)] as int)
            &&& !byte_occupied(b[square_index(hr, 2)] as int)
            &&& !byte_occupied(b[square_index(hr, 3)] as int)
            &&& !spec_attacked(b, square_index(hr, 3), opp)
            &&& !spec_attacked(b, square_index(hr, 2), opp)
        },
    }
}

/// Pseudo-legal castling move: from the king's home square to its castling
/// target, with the side's conditions met.
pub open spec fn pl_castle(s: StateModel, m: Move) -> bool {
    let c = s.to_move;
    let hr = home_rank_of(c);
    &&& m.ty_code_spec() == 3
    &&& m.promo_code_spec() == 0
    &&& m.src_spec() == square_index(hr, 4)
    &&& {
        ||| (m.tgt_spec() == square_index(hr, 6) && castle_ok(s, CastlingSide::Kingside))
        ||| (m.tgt_spec() == square_index(hr, 2) && castle_ok(s, CastlingSide::Queenside))
    }
}

/// Pseudo-legal move: the source holds a piece of the side to move, and the
/// move obeys that piece's movement and occupancy rules.
pub open spec fn pl(s: StateModel, m: Move) -> bool {
    let b = s.board;
    let c = s.to_move;
    let src = m.src_spec();
    &&& own_piece_at(b, src, c)
    &&& {
        let k = byte_kind(b[src] as int);
        if k == 1 {
            pl_pawn(s, m)
        } else if k == 2 {
            pl_knight(b, c, m)
        } else if k == 3 {
            pl_slider(b, c, m, true, false)
        } else if k == 4 {
            pl_slider(b, c, m, false, true)
        } else if k == 5 {
            pl_slider(b, c, m, true, true)
        } else if k == 6 {
            pl_king_step(b, c, m) || pl_castle(s, m)
        } else {
            false
        }
    }
}

/// Legal move: pseudo-legal, and the mover's king is not attacked in the
/// resulting position.
pub open spec fn legal(s: StateModel, m: Move) -> bool {
    pl(s, m) && !in_check_color(apply_spec(s, m).board, s.to_move)
}

// ============================================================================
// Pseudo-legal generation
// ============================================================================

/// Append a move, with membership stated for every move.
fn push_move(v: &mut Vec<Move>, m: Move)
    ensures
        final(v)@ == old(v)@.push(m),
        forall|m2: Move| final(v)@.contains(m2) <==> (old(v)@.contains(m2) || m2 == m),
{
    v.push(m);
    proof {
        assert forall|m2: Move| v@.contains(m2) implies (old(v)@.contains(m2) || m2 == m) by {
            let i = choose|i: int| 0 <= i < v@.len() && v@[i] == m2;
            if i < v@.len() - 1 {
                assert(old(v)@[i] == m2);
            }
        }
        assert forall|m2: Move| (old(v)@.contains(m2) || m2 == m) implies v@.contains(m2) by {
            if old(v)@.contains(m2) {
                let i = choose|i: int| 0 <= i < old(v)@.len() && old(v)@[i] == m2;
                assert(v@[i] == m2);
            } else {
                assert(v@[v@.len() - 1] == m2);
            }
        }
    }
}

/// Whether the slot at `t` is open to the mover: empty or enemy-occupied.
fn target_free(board: &Board, t: Square, c: Color) -> (r: bool)
    requires
        t.wf(),
    ensures
        r == free_for(board@, t.idx(), c),
{
    match board.piece_at(t) {
        None => true,
        Some(p) => p.color() != c,
    }
}

/// Rank deltas of the eight knight offsets.
pub open spec fn knight_drs() -> Seq<int> {
    seq![-2, -2, -1, -1, 1, 1, 2, 2]
}

/// File deltas of the eight knight offsets.
pub open spec fn knight_dfs() -> Seq<int> {
    seq![-1, 1, -2, 2, -2, 2, -1, 1]
}

/// The eight knight offsets are exactly the knight-move deltas.
pub proof fn lemma_knight_table(src: int, tgt: int)
    ensures
        step_hit(src, tgt, knight_drs(), knight_dfs(), 8) <==> knight_delta(
            rank_of(tgt) - rank_of(src),
            file_of(tgt) - file_of(src),
        ),
{
    let dr = rank_of(tgt) - rank_of(src);
    let df = file_of(tgt) - file_of(src);
    let drs = knight_drs();
    let dfs = knight_dfs();
    if knight_delta(dr, df) {
        if dr == -2 && df == -1 {
            assert(0 <= 0 < 8 && rank_of(tgt) == rank_of(src) + drs[0] && file_of(tgt) == file_of(
                src,
            ) + dfs[0]);
        } else if dr == -2 && df == 1 {
            assert(0 <= 1 < 8 && rank_of(tgt) == rank_of(src) + drs[1] && file_of(tgt) == file_of(
                src,
            ) + dfs[1]);
        } else if dr == -1 && df == -2 {
            assert(0 <= 2 < 8 && rank_of(tgt) == rank_of(src) + drs[2] && file_of(tgt) == file_of(
                src,
            ) + dfs[2]);
        } else if dr == -1 && df == 2 {
            assert(0 <= 3 < 8 && rank_of(tgt) == rank_of(src) + drs[3] && file_of(tgt) == file_of(
                src,
            ) + dfs[3]);
        } else if dr == 1 && df == -2 {
            assert(0 <= 4 < 8 && rank_of(tgt) == rank_of(src) + drs[4] && file_of(tgt) == file_of(
                src,
            ) + dfs[4]);
        } else if dr == 1 && df == 2 {
            assert(0 <= 5 < 8 && rank_of(tgt) == rank_of(src) + drs[5] && file_of(tgt) == file_of(
                src,
            ) + dfs[5]);
        } else if dr == 2 && df == -1 {
            assert(0 <= 6 < 8 && rank_of(tgt) == rank_of(src) + drs[6] && file_of(tgt) == file_of(
                src,
            ) + dfs[6]);
        } else {
            assert(0 <= 7 < 8 && rank_of(tgt) == rank_of(src) + drs[7] && file_of(tgt) == file_of(
                src,
            ) + dfs[7]);
        }
        assert(step_hit(src, tgt, drs, dfs, 8));
    }
    if step_hit(src, tgt, drs, dfs, 8) {
        let j = choose|j: int|
            0 <= j < 8 && rank_of(tgt) == rank_of(src) + #[trigger] drs[j] && file_of(tgt)
                == file_of(src) + dfs[j];
        assert(j == 0 || j == 1 || j == 2 || j == 3 || j == 4 || j == 5 || j == 6 || j == 7);
        assert(knight_delta(dr, df));
    }
}

/// The canonically encoded Normal move between two squares.
pub open spec fn normal_move(src: int, tgt: int) -> Move {
    Move((src + tgt * 64) as u16)
}

/// Some processed offset (among the first `i`) carries `src` to `tgt`.
pub open spec fn step_hit(src: int, tgt: int, drs: Seq<int>, dfs: Seq<int>, i: int) -> bool {
    exists|j: int|
        0 <= j < i && rank_of(tgt) == rank_of(src) + #[trigger] drs[j] && file_of(tgt) == file_of(
            src,
        ) + dfs[j]
}

/// The set of step moves gathered so far by a step-table generator: one
/// candidate target per processed offset, kept when it is on the board and
/// free for the mover.
pub open spec fn step_moves_inv(
    b: Seq<u8>,
    c: Color,
    src: int,
    r: Seq<Move>,
    i: int,
    drs: Seq<int>,
    dfs: Seq<int>,
) -> bool {
    forall|m: Move|
        #![trigger r.contains(m)]
        r.contains(m) <==> (plain_normal(m) && m.src_spec() == src && free_for(b, m.tgt_spec(), c)
            && step_hit(src, m.tgt_spec(), drs, dfs, i))
}

/// One step of a step-table generator preserves the gathered-moves invariant.
proof fn lemma_step_update(
    b: Seq<u8>,
    c: Color,
    src: int,
    r0: Seq<Move>,
    r1: Seq<Move>,
    i: int,
    drs: Seq<int>,
    dfs: Seq<int>,
    took: bool,
    tnew: int,
)
    requires
        0 <= src < 64,
        0 <= i,
        step_moves_inv(b, c, src, r0, i, drs, dfs),
        took ==> 0 <= tnew < 64 && rank_of(tnew) == rank_of(src) + drs[i] && file_of(tnew)
            == file_of(src) + dfs[i] && free_for(b, tnew, c),
        took ==> forall|m2: Move| r1.contains(m2) <==> (r0.contains(m2) || m2 == normal_move(
            src,
            tnew,
        )),
        !took ==> r1 == r0,
        !took ==> forall|t2: int|
            (0 <= t2 < 64 && #[trigger] rank_of(t2) == rank_of(src) + drs[i] && file_of(t2)
                == file_of(src) + dfs[i]) ==> !free_for(b, t2, c),
    ensures
        step_moves_inv(b, c, src, r1, i + 1, drs, dfs),
{
    assert forall|m: Move|
        r1.contains(m) implies (plain_normal(m) && m.src_spec() == src && free_for(
        b,
        m.tgt_spec(),
        c,
    ) && step_hit(src, m.tgt_spec(), drs, dfs, i + 1)) by {
        if r0.contains(m) {
            assert(step_hit(src, m.tgt_spec(), drs, dfs, i));
            let j = choose|j: int|
                0 <= j < i && rank_of(m.tgt_spec()) == rank_of(src) + #[trigger] drs[j] && file_of(
                    m.tgt_spec(),
                ) == file_of(src) + dfs[j];
            assert(0 <= j < i + 1 && rank_of(m.tgt_spec()) == rank_of(src) + drs[j] && file_of(
                m.tgt_spec(),
            ) == file_of(src) + dfs[j]);
            assert(step_hit(src, m.tgt_spec(), drs, dfs, i + 1));
        } else {
            assert(took && m == normal_move(src, tnew));
            assert(0 <= src + tnew * 64 < 4096);
            assert(m.0 as int == src + tnew * 64);
            assert(m.src_spec() == src && m.tgt_spec() == tnew && m.ty_code_spec() == 0
                && m.promo_code_spec() == 0);
            assert(0 <= i < i + 1 && rank_of(m.tgt_spec()) == rank_of(src) + drs[i] && file_of(
                m.tgt_spec(),
            ) == file_of(src) + dfs[i]);
            assert(step_hit(src, m.tgt_spec(), drs, dfs, i + 1));
        }
    }
    assert forall|m: Move|
        (plain_normal(m) && m.src_spec() == src && free_for(b, m.tgt_spec(), c) && step_hit(
            src,
            m.tgt_spec(),
            drs,
            dfs,
            i + 1,
        )) implies r1.contains(m) by {
        let j = choose|j: int|
            0 <= j < i + 1 && rank_of(m.tgt_spec()) == rank_of(src) + #[trigger] drs[j] && file_of(
                m.tgt_spec(),
            ) == file_of(src) + dfs[j];
        if j == i {
            crate::mv::lemma_move_decompose(m);
            assert(m.tgt_spec() == square_index(rank_of(m.tgt_spec()), file_of(m.tgt_spec())));
            if took {
                assert(tnew == square_index(rank_of(tnew), file_of(tnew)));
                assert(m.tgt_spec() == tnew);
                assert(0 <= src + tnew * 64 < 4096);
                assert(m.0 as int == src + tnew * 64);
                assert(m == normal_move(src, tnew));
            } else {
                assert(!free_for(b, m.tgt_spec(), c));
            }
        } else {
            assert(0 <= j < i && rank_of(m.tgt_spec()) == rank_of(src) + drs[j] && file_of(
                m.tgt_spec(),
            ) == file_of(src) + dfs[j]);
            assert(step_hit(src, m.tgt_spec(), drs, dfs, i));
            assert(r0.contains(m));
        }
    }
}

/// The `i`th knight offset as machine integers.
fn knight_step(i: u8) -> (r: (i8, i8))
    requires
        i < 8,
    ensures
        r.0 as int == knight_drs()[i as int],
        r.1 as int == knight_dfs()[i as int],
{
    match i {
        0 => (-2, -1),
        1 => (-2, 1),
        2 => (-1, -2),
        3 => (-1, 2),
        4 => (1, -2),
        5 => (1, 2),
        6 => (2, -1),
        _ => (2, 1),
    }
}

/// Pseudo-legal knight moves from one square.
#[verifier::rlimit(50)]
fn knight_moves(st: &State, from: Square) -> (r: Vec<Move>)
    requires
        from.wf(),
        st.board@.len() == 64,
        own_piece_at(st@.board, from.idx(), st@.to_move),
        byte_kind(st@.board[from.idx()] as int) == 2,
    ensures
        forall|m: Move| r@.contains(m) <==> (pl(st@, m) && m.src_spec() == from.idx()),
{
    let c = st.to_move;
    let ghost b = st@.board;
    let ghost src = from.idx();
    let ghost drs = knight_drs();
    let ghost dfs = knight_dfs();
    let mut r: Vec<Move> = Vec::new();
    let mut i: u8 = 0;
    while i < 8
        invariant
            i <= 8,
            from.wf(),
            st.board@.len() == 64,
            c == st@.to_move,
            b == st@.board,
            src == from.idx(),
            drs == knight_drs(),
            dfs == knight_dfs(),
            step_moves_inv(b, c, src, r@, i as int, drs, dfs),
        decreases 8 - i,
    {
        let (dr, df) = knight_step(i);
        let ghost r0 = r@;
        match from.offset(dr, df) {
            Some(t) => {
                if target_free(&st.board, t, c) {
                    let mnew = Move::new(from, t);
                    push_move(&mut r, mnew);
                    proof {
                        assert(mnew == normal_move(src, t.idx()));
                        lemma_step_update(b, c, src, r0, r@, i as int, drs, dfs, true, t.idx());
                    }
                } else {
                    proof {
                        assert forall|t2: int|
                            (0 <= t2 < 64 && #[trigger] rank_of(t2) == rank_of(src) + drs[i as int]
                                && file_of(t2) == file_of(src) + dfs[i as int]) implies !free_for(
                            b,
                            t2,
                            c,
                        ) by {
                            assert(t2 == square_index(rank_of(t2), file_of(t2)));
                            assert(t2 == t.idx());
                        }
                        lemma_step_update(b, c, src, r0, r@, i as int, drs, dfs, false, 0);
                    }
                }
            },
            None => {
                proof {
                    assert forall|t2: int|
                        (0 <= t2 < 64 && #[trigger] rank_of(t2) == rank_of(src) + drs[i as int]
                            && file_of(t2) == file_of(src) + dfs[i as int]) implies !free_for(
                        b,
                        t2,
                        c,
                    ) by {
                        assert(t2 == square_index(rank_of(t2), file_of(t2)));
                        assert(false);
                    }
                    lemma_step_update(b, c, src, r0, r@, i as int, drs, dfs, false, 0);
                }
            },
        }
        i = i + 1;
    }
    proof {
        assert forall|m: Move| r@.contains(m) <==> (pl(st@, m) && m.src_spec() == src) by {
            lemma_knight_table(src, m.tgt_spec());
        }
    }
    r
}

/// A ray only reaches squares strictly ahead of its start in its direction.
pub proof fn lemma_ray_advances(
    b: Seq<u8>,
    r: int,
    f: int,
    dr: int,
    df: int,
    tr: int,
    tf: int,
    n: nat,
)
    requires
        ray_reaches(b, r, f, dr, df, tr, tf, n),
    ensures
        dr == 1 ==> tr > r,
        dr == -1 ==> tr < r,
        dr == 0 ==> tr == r,
        df == 1 ==> tf > f,
        df == -1 ==> tf < f,
        df == 0 ==> tf == f,
    decreases n,
{
    let r2 = r + dr;
    let f2 = f + df;
    if r2 == tr && f2 == tf {
    } else {
        lemma_ray_advances(b, r2, f2, dr, df, tr, tf, (n - 1) as nat);
    }
}

/// Emit every move along one ray from `from`: each empty square passed, and
/// the first blocker exactly when it is an enemy.
#[verifier::rlimit(100)]
fn ray_moves(st: &State, from: Square, dr: i8, df: i8, r: &mut Vec<Move>)
    requires
        from.wf(),
        st.board@.len() == 64,
        -1 <= dr as int <= 1,
        -1 <= df as int <= 1,
        !(dr == 0 && df == 0),
    ensures
        forall|m: Move|
            #![trigger final(r)@.contains(m)]
            final(r)@.contains(m) <==> (old(r)@.contains(m) || (plain_normal(m) && m.src_spec()
                == from.idx() && free_for(st@.board, m.tgt_spec(), st@.to_move) && ray_reaches(
                st@.board,
                rank_of(from.idx()),
                file_of(from.idx()),
                dr as int,
                df as int,
                rank_of(m.tgt_spec()),
                file_of(m.tgt_spec()),
                8,
            ))),
{
    let c = st.to_move;
    let ghost b = st@.board;
    let ghost src = from.idx();
    let mut cur = from;
    let mut k: u8 = 0;
    while k < 8
        invariant
            from.wf(),
            cur.wf(),
            k <= 8,
            b == st@.board,
            c == st@.to_move,
            src == from.idx(),
            st.board@.len() == 64,
            -1 <= dr as int <= 1,
            -1 <= df as int <= 1,
            !(dr == 0 && df == 0),
            k >= 1 ==> !byte_occupied(b[cur.idx()] as int),
            k >= 1 ==> ray_reaches(
                b,
                rank_of(src),
                file_of(src),
                dr as int,
                df as int,
                cur.rank_spec(),
                cur.file_spec(),
                k as nat,
            ),
            k == 0 ==> cur == from,
            forall|m: Move|
                #![trigger r@.contains(m)]
                r@.contains(m) <==> (old(r)@.contains(m) || (plain_normal(m) && m.src_spec() == src
                    && free_for(b, m.tgt_spec(), c) && ray_reaches(
                    b,
                    rank_of(src),
                    file_of(src),
                    dr as int,
                    df as int,
                    rank_of(m.tgt_spec()),
                    file_of(m.tgt_spec()),
                    8,
                ) && !ray_reaches(
                    b,
                    cur.rank_spec(),
                    cur.file_spec(),
                    dr as int,
                    df as int,
                    rank_of(m.tgt_spec()),
                    file_of(m.tgt_spec()),
                    (8 - k) as nat,
                ))),
        decreases 8 - k,
    {
        match cur.offset(dr, df) {
            None => {
                proof {
                    assert forall|m: Move| !ray_reaches(
                        b,
                        cur.rank_spec(),
                        cur.file_spec(),
                        dr as int,
                        df as int,
                        rank_of(m.tgt_spec()),
                        file_of(m.tgt_spec()),
                        (8 - k) as nat,
                    ) by {}
                }
                return;
            },
            Some(nxt) => {
                let occupant = st.board.piece_at(nxt);
                match occupant {
                    None => {
                        let mnew = Move::new(from, nxt);
                        push_move(r, mnew);
                        let ghost tr_new = nxt.rank_spec();
                        let ghost tf_new = nxt.file_spec();
                        proof {
                            if k == 0 {
                                assert(ray_reaches(
                                    b,
                                    rank_of(src),
                                    file_of(src),
                                    dr as int,
                                    df as int,
                                    tr_new,
                                    tf_new,
                                    1,
                                ));
                            } else {
                                lemma_ray_extend(
                                    b,
                                    rank_of(src),
                                    file_of(src),
                                    dr as int,
                                    df as int,
                                    cur.rank_spec(),
                                    cur.file_spec(),
                                    k as nat,
                                );
                            }
                            lemma_ray_mono(
                                b,
                                rank_of(src),
                                file_of(src),
                                dr as int,
                                df as int,
                                tr_new,
                                tf_new,
                                (k + 1) as nat,
                                8,
                            );
                            assert forall|m: Move|
                                #![trigger r@.contains(m)]
                                r@.contains(m) <==> (old(r)@.contains(m) || (plain_normal(m)
                                    && m.src_spec() == src && free_for(b, m.tgt_spec(), c)
                                    && ray_reaches(
                                    b,
                                    rank_of(src),
                                    file_of(src),
                                    dr as int,
                                    df as int,
                                    rank_of(m.tgt_spec()),
                                    file_of(m.tgt_spec()),
                                    8,
                                ) && !ray_reaches(
                                    b,
                                    tr_new,
                                    tf_new,
                                    dr as int,
                                    df as int,
                                    rank_of(m.tgt_spec()),
                                    file_of(m.tgt_spec()),
                                    (8 - (k + 1)) as nat,
                                ))) by {
                                let tr = rank_of(m.tgt_spec());
                                let tf = file_of(m.tgt_spec());
                                crate::mv::lemma_move_decompose(m);
                                assert(m.tgt_spec() == square_index(tr, tf));
                                assert(nxt.idx() == square_index(tr_new, tf_new));
                                assert(ray_reaches(
                                    b,
                                    cur.rank_spec(),
                                    cur.file_spec(),
                                    dr as int,
                                    df as int,
                                    tr,
                                    tf,
                                    (8 - k) as nat,
                                ) == ((tr == tr_new && tf == tf_new) || ray_reaches(
                                    b,
                                    tr_new,
                                    tf_new,
                                    dr as int,
                                    df as int,
                                    tr,
                                    tf,
                                    (8 - (k + 1)) as nat,
                                )));
                                if tr == tr_new && tf == tf_new {
                                    if ray_reaches(
                                        b,
                                        tr_new,
                                        tf_new,
                                        dr as int,
                                        df as int,
                                        tr,
                                        tf,
                                        (8 - (k + 1)) as nat,
                                    ) {
                                        lemma_ray_advances(
                                            b,
                                            tr_new,
                                            tf_new,
                                            dr as int,
                                            df as int,
                                            tr,
                                            tf,
                                            (8 - (k + 1)) as nat,
                                        );
                                    }
                                }
                            }
                        }
                        cur = nxt;
                        k = k + 1;
                    },
                    Some(p) => {
                        let is_enemy = p.color() != c;
                        if is_enemy {
                            push_move(r, Move::new(from, nxt));
                        }
                        proof {
                            if k == 0 {
                                assert(ray_reaches(
                                    b,
                                    rank_of(src),
                                    file_of(src),
                                    dr as int,
                                    df as int,
                                    nxt.rank_spec(),
                                    nxt.file_spec(),
                                    1,
                                ));
                            } else {
                                lemma_ray_extend(
                                    b,
                                    rank_of(src),
                                    file_of(src),
                                    dr as int,
                                    df as int,
                                    cur.rank_spec(),
                                    cur.file_spec(),
                                    k as nat,
                                );
                            }
                            lemma_ray_mono(
                                b,
                                rank_of(src),
                                file_of(src),
                                dr as int,
                                df as int,
                                nxt.rank_spec(),
                                nxt.file_spec(),
                                (k + 1) as nat,
                                8,
                            );
                            assert forall|m: Move|
                                #![trigger r@.contains(m)]
                                r@.contains(m) <==> (old(r)@.contains(m) || (plain_normal(m)
                                    && m.src_spec() == src && free_for(b, m.tgt_spec(), c)
                                    && ray_reaches(
                                    b,
                                    rank_of(src),
                                    file_of(src),
                                    dr as int,
                                    df as int,
                                    rank_of(m.tgt_spec()),
                                    file_of(m.tgt_spec()),
                                    8,
                                ))) by {
                                let tr = rank_of(m.tgt_spec());
                                let tf = file_of(m.tgt_spec());
                                crate::mv::lemma_move_decompose(m);
                                assert(m.tgt_spec() == square_index(tr, tf));
                                assert(nxt.idx() == square_index(nxt.rank_spec(), nxt.file_spec()));
                                assert(ray_reaches(
                                    b,
                                    cur.rank_spec(),
                                    cur.file_spec(),
                                    dr as int,
                                    df as int,
                                    tr,
                                    tf,
                                    (8 - k) as nat,
                                ) == (tr == nxt.rank_spec() && tf == nxt.file_spec()));
                            }
                        }
                        return;
                    },
                }
            },
        }
    }
    proof {
        assert forall|m: Move| !ray_reaches(
            b,
            cur.rank_spec(),
            cur.file_spec(),
            dr as int,
            df as int,
            rank_of(m.tgt_spec()),
            file_of(m.tgt_spec()),
            (8 - k) as nat,
        ) by {}
    }
}

/// What four ray calls leave in the vector, phrased over `reaches`.
spec fn rays_done(
    b: Seq<u8>,
    c: Color,
    src: int,
    r0: Seq<Move>,
    r: Seq<Move>,
    d1: (int, int),
    d2: (int, int),
    d3: (int, int),
    d4: (int, int),
) -> bool {
    forall|m: Move|
        #![trigger r.contains(m)]
        r.contains(m) <==> (r0.contains(m) || (plain_normal(m) && m.src_spec() == src && free_for(
            b,
            m.tgt_spec(),
            c,
        ) && (reaches(b, src, d1.0, d1.1, m.tgt_spec()) || reaches(b, src, d2.0, d2.1, m.tgt_spec())
            || reaches(b, src, d3.0, d3.1, m.tgt_spec()) || reaches(
            b,
            src,
            d4.0,
            d4.1,
            m.tgt_spec(),
        ))))
}

/// Pseudo-legal bishop moves from one square.
fn bishop_moves(st: &State, from: Square) -> (r: Vec<Move>)
    requires
        from.wf(),
        st.board@.len() == 64,
        own_piece_at(st@.board, from.idx(), st@.to_move),
        byte_kind(st@.board[from.idx()] as int) == 3,
    ensures
        forall|m: Move| r@.contains(m) <==> (pl(st@, m) && m.src_spec() == from.idx()),
{
    let ghost b = st@.board;
    let ghost src = from.idx();
    let ghost c = st@.to_move;
    let mut r: Vec<Move> = Vec::new();
    ray_moves(st, from, 1, 1, &mut r);
    ray_moves(st, from, 1, -1, &mut r);
    ray_moves(st, from, -1, 1, &mut r);
    ray_moves(st, from, -1, -1, &mut r);
    proof {
        assert(rays_done(b, c, src, Seq::<Move>::empty(), r@, (1, 1), (1, -1), (-1, 1), (-1, -1)));
        assert forall|m: Move| r@.contains(m) <==> (pl(st@, m) && m.src_spec() == src) by {
            if r@.contains(m) {
                assert(diag_dir(1, 1) && diag_dir(1, -1) && diag_dir(-1, 1) && diag_dir(-1, -1));
                assert(slider_diag(b, src, m.tgt_spec()));
            }
            if pl(st@, m) && m.src_spec() == src {
                let (dr, df) = choose|dr: int, df: int|
                    diag_dir(dr, df) && reaches(b, src, dr, df, m.tgt_spec());
                if dr == 1 && df == 1 {
                    assert(reaches(b, src, 1, 1, m.tgt_spec()));
                } else if dr == 1 && df == -1 {
                    assert(reaches(b, src, 1, -1, m.tgt_spec()));
                } else if dr == -1 && df == 1 {
                    assert(reaches(b, src, -1, 1, m.tgt_spec()));
                } else {
                    assert(reaches(b, src, -1, -1, m.tgt_spec()));
                }
            }
        }
    }
    r
}

/// Pseudo-legal rook moves from one square.
fn rook_moves(st: &State, from: Square) -> (r: Vec<Move>)
    requires
        from.wf(),
        st.board@.len() == 64,
        own_piece_at(st@.board, from.idx(), st@.to_move),
        byte_kind(st@.board[from.idx()] as int) == 4,
    ensures
        forall|m: Move| r@.contains(m) <==> (pl(st@, m) && m.src_spec() == from.idx()),
{
    let ghost b = st@.board;
    let ghost src = from.idx();
    let ghost c = st@.to_move;
    let mut r: Vec<Move> = Vec::new();
    ray_moves(st, from, 0, 1, &mut r);
    ray_moves(st, from, 0, -1, &mut r);
    ray_moves(st, from, 1, 0, &mut r);
    ray_moves(st, from, -1, 0, &mut r);
    proof {
        assert(rays_done(b, c, src, Seq::<Move>::empty(), r@, (0, 1), (0, -1), (1, 0), (-1, 0)));
        assert forall|m: Move| r@.contains(m) <==> (pl(st@, m) && m.src_spec() == src) by {
            if r@.contains(m) {
                assert(ortho_dir(0, 1) && ortho_dir(0, -1) && ortho_dir(1, 0) && ortho_dir(-1, 0));
                assert(slider_ortho(b, src, m.tgt_spec()));
            }
            if pl(st@, m) && m.src_spec() == src {
                let (dr, df) = choose|dr: int, df: int|
                    ortho_dir(dr, df) && reaches(b, src, dr, df, m.tgt_spec());
                if dr == 0 && df == 1 {
                    assert(reaches(b, src, 0, 1, m.tgt_spec()));
                } else if dr == 0 && df == -1 {
                    assert(reaches(b, src, 0, -1, m.tgt_spec()));
                } else if dr == 1 && df == 0 {
                    assert(reaches(b, src, 1, 0, m.tgt_spec()));
                } else {
                    assert(reaches(b, src, -1, 0, m.tgt_spec()));
                }
            }
        }
    }
    r
}

/// Pseudo-legal queen moves from one square: bishop rays plus rook rays.
fn queen_moves(st: &State, from: Square) -> (r: Vec<Move>)
    requires
        from.wf(),
        st.board@.len() == 64,
        own_piece_at(st@.board, from.idx(), st@.to_move),
        byte_kind(st@.board[from.idx()] as int) == 5,
    ensures
        forall|m: Move| r@.contains(m) <==> (pl(st@, m) && m.src_spec() == from.idx()),
{
    let ghost b = st@.board;
    let ghost src = from.idx();
    let ghost c = st@.to_move;
    let mut r: Vec<Move> = Vec::new();
    ray_moves(st, from, 1, 1, &mut r);
    ray_moves(st, from, 1, -1, &mut r);
    ray_moves(st, from, -1, 1, &mut r);
    ray_moves(st, from, -1, -1, &mut r);
    let ghost mid = r@;
    ray_moves(st, from, 0, 1, &mut r);
    ray_moves(st, from, 0, -1, &mut r);
    ray_moves(st, from, 1, 0, &mut r);
    ray_moves(st, from, -1, 0, &mut r);
    proof {
        assert(rays_done(b, c, src, Seq::<Move>::empty(), mid, (1, 1), (1, -1), (-1, 1), (-1, -1)));
        assert(rays_done(b, c, src, mid, r@, (0, 1), (0, -1), (1, 0), (-1, 0)));
        assert forall|m: Move| r@.contains(m) <==> (pl(st@, m) && m.src_spec() == src) by {
            if r@.contains(m) {
                assert(diag_dir(1, 1) && diag_dir(1, -1) && diag_dir(-1, 1) && diag_dir(-1, -1));
                assert(ortho_dir(0, 1) && ortho_dir(0, -1) && ortho_dir(1, 0) && ortho_dir(-1, 0));
                if mid.contains(m) {
                    assert(slider_diag(b, src, m.tgt_spec()));
                } else {
                    assert(slider_diag(b, src, m.tgt_spec()) || slider_ortho(b, src, m.tgt_spec()));
                }
            }
            if pl(st@, m) && m.src_spec() == src {
                if slider_diag(b, src, m.tgt_spec()) {
                    let (dr, df) = choose|dr: int, df: int|
                        diag_dir(dr, df) && reaches(b, src, dr, df, m.tgt_spec());
                    if dr == 1 && df == 1 {
                        assert(reaches(b, src, 1, 1, m.tgt_spec()));
                    } else if dr == 1 && df == -1 {
                        assert(reaches(b, src, 1, -1, m.tgt_spec()));
                    } else if dr == -1 && df == 1 {
                        assert(reaches(b, src, -1, 1, m.tgt_spec()));
                    } else {
                        assert(reaches(b, src, -1, -1, m.tgt_spec()));
                    }
                    assert(mid.contains(m));
                } else {
                    let (dr, df) = choose|dr: int, df: int|
                        ortho_dir(dr, df) && reaches(b, src, dr, df, m.tgt_spec());
                    if dr == 0 && df == 1 {
                        assert(reaches(b, src, 0, 1, m.tgt_spec()));
                    } else if dr == 0 && df == -1 {
                        assert(reaches(b, src, 0, -1, m.tgt_spec()));
                    } else if dr == 1 && df == 0 {
                        assert(reaches(b, src, 1, 0, m.tgt_spec()));
                    } else {
                        assert(reaches(b, src, -1, 0, m.tgt_spec()));
                    }
                }
            }
        }
    }
    r
}

/// Rank deltas of the eight king steps.
pub open spec fn king_drs() -> Seq<int> {
    seq![-1, -1, -1, 0, 0, 1, 1, 1]
}

/// File deltas of the eight king steps.
pub open spec fn king_dfs() -> Seq<int> {
    seq![-1, 0, 1, -1, 1, -1, 0, 1]
}

/// The eight king steps are exactly the king-move deltas.
pub proof fn lemma_king_table(src: int, tgt: int)
    ensures
        step_hit(src, tgt, king_drs(), king_dfs(), 8) <==> king_delta(
            rank_of(tgt) - rank_of(src),
            file_of(tgt) - file_of(src),
        ),
{
    let dr = rank_of(tgt) - rank_of(src);
    let df = file_of(tgt) - file_of(src);
    let drs = king_drs();
    let dfs = king_dfs();
    if king_delta(dr, df) {
        if dr == -1 && df == -1 {
            assert(0 <= 0 < 8 && rank_of(tgt) == rank_of(src) + drs[0] && file_of(tgt) == file_of(
                src,
            ) + dfs[0]);
        } else if dr == -1 && df == 0 {
            assert(0 <= 1 < 8 && rank_of(tgt) == rank_of(src) + drs[1] && file_of(tgt) == file_of(
                src,
            ) + dfs[1]);
        } else if dr == -1 && df == 1 {
            assert(0 <= 2 < 8 && rank_of(tgt) == rank_of(src) + drs[2] && file_of(tgt) == file_of(
                src,
            ) + dfs[2]);
        } else if dr == 0 && df == -1 {
            assert(0 <= 3 < 8 && rank_of(tgt) == rank_of(src) + drs[3] && file_of(tgt) == file_of(
                src,
            ) + dfs[3]);
        } else if dr == 0 && df == 1 {
            assert(0 <= 4 < 8 && rank_of(tgt) == rank_of(src) + drs[4] && file_of(tgt) == file_of(
                src,
            ) + dfs[4]);
        } else if dr == 1 && df == -1 {
            assert(0 <= 5 < 8 && rank_of(tgt) == rank_of(src) + drs[5] && file_of(tgt) == file_of(
                src,
            ) + dfs[5]);
        } else if dr == 1 && df == 0 {
            assert(0 <= 6 < 8 && rank_of(tgt) == rank_of(src) + drs[6] && file_of(tgt) == file_of(
                src,
            ) + dfs[6]);
        } else {
            assert(0 <= 7 < 8 && rank_of(tgt) == rank_of(src) + drs[7] && file_of(tgt) == file_of(
                src,
            ) + dfs[7]);
        }
        assert(step_hit(src, tgt, drs, dfs, 8));
    }
    if step_hit(src, tgt, drs, dfs, 8) {
        let j = choose|j: int|
            0 <= j < 8 && rank_of(tgt) == rank_of(src) + #[trigger] drs[j] && file_of(tgt)
                == file_of(src) + dfs[j];
        assert(j == 0 || j == 1 || j == 2 || j == 3 || j == 4 || j == 5 || j == 6 || j == 7);
        assert(king_delta(dr, df));
    }
}

/// The `i`th king step as machine integers.
fn king_step(i: u8) -> (r: (i8, i8))
    requires
        i < 8,
    ensures
        r.0 as int == king_drs()[i as int],
        r.1 as int == king_dfs()[i as int],
{
    match i {
        0 => (-1, -1),
        1 => (-1, 0),
        2 => (-1, 1),
        3 => (0, -1),
        4 => (0, 1),
        5 => (1, -1),
        6 => (1, 0),
        _ => (1, 1),
    }
}

/// Pseudo-legal king moves from one square: the eight single steps, plus a
/// castling move per side whose conditions all hold.
#[verifier::rlimit(100)]
fn king_moves(st: &State, from: Square) -> (r: Vec<Move>)
    requires
        from.wf(),
        st.board@.len() == 64,
        own_piece_at(st@.board, from.idx(), st@.to_move),
        byte_kind(st@.board[from.idx()] as int) == 6,
    ensures
        forall|m: Move| r@.contains(m) <==> (pl(st@, m) && m.src_spec() == from.idx()),
{
    let c = st.to_move;
    let ghost b = st@.board;
    let ghost src = from.idx();
    let ghost drs = king_drs();
    let ghost dfs = king_dfs();
    let mut r: Vec<Move> = Vec::new();
    let mut i: u8 = 0;
    while i < 8
        invariant
            i <= 8,
            from.wf(),
            st.board@.len() == 64,
            c == st@.to_move,
            b == st@.board,
            src == from.idx(),
            drs == king_drs(),
            dfs == king_dfs(),
            step_moves_inv(b, c, src, r@, i as int, drs, dfs),
        decreases 8 - i,
    {
        let (dr, df) = king_step(i);
        let ghost r0 = r@;
        match from.offset(dr, df) {
            Some(t) => {
                if target_free(&st.board, t, c) {
                    let mnew = Move::new(from, t);
                    push_move(&mut r, mnew);
                    proof {
                        assert(mnew == normal_move(src, t.idx()));
                        lemma_step_update(b, c, src, r0, r@, i as int, drs, dfs, true, t.idx());
                    }
                } else {
                    proof {
                        assert forall|t2: int|
                            (0 <= t2 < 64 && #[trigger] rank_of(t2) == rank_of(src) + drs[i as int]
                                && file_of(t2) == file_of(src) + dfs[i as int]) implies !free_for(
                            b,
                            t2,
                            c,
                        ) by {
                            assert(t2 == square_index(rank_of(t2), file_of(t2)));
                            assert(t2 == t.idx());
                        }
                        lemma_step_update(b, c, src, r0, r@, i as int, drs, dfs, false, 0);
                    }
                }
            },
            None => {
                proof {
                    assert forall|t2: int|
                        (0 <= t2 < 64 && #[trigger] rank_of(t2) == rank_of(src) + drs[i as int]
                            && file_of(t2) == file_of(src) + dfs[i as int]) implies !free_for(
                        b,
                        t2,
                        c,
                    ) by {
                        assert(t2 == square_index(rank_of(t2), file_of(t2)));
                        assert(false);
                    }
                    lemma_step_update(b, c, src, r0, r@, i as int, drs, dfs, false, 0);
                }
            },
        }
        i = i + 1;
    }
    let ghost r_steps = r@;
    proof {
        assert forall|m: Move|
            r_steps.contains(m) <==> (pl_king_step(b, c, m) && m.src_spec() == src) by {
            lemma_king_table(src, m.tgt_spec());
        }
    }

    // Castling: emitted only from the king's home square, per side, when the
    // right is held, the corridor is empty, and neither the king's square nor
    // its path is attacked.
    let opp = c.opposite();
    let hr = c.home_rank();
    let at_home = from.rank() == hr && from.file() == 4;
    let ks_ok = at_home && st.castling_rights.has(c, CastlingSide::Kingside) && st.board.is_empty(
        Square::from_coords(hr, 5),
    ) && st.board.is_empty(Square::from_coords(hr, 6)) && !is_square_attacked(&st.board, from, opp)
        && !is_square_attacked(&st.board, Square::from_coords(hr, 5), opp) && !is_square_attacked(
        &st.board,
        Square::from_coords(hr, 6),
        opp,
    );
    if ks_ok {
        push_move(&mut r, Move::castling(from, Square::from_coords(hr, 6)));
    }
    let ghost r_ks = r@;
    proof {
        assert(ks_ok == (src == square_index(home_rank_of(c), 4) && castle_ok(
            st@,
            CastlingSide::Kingside,
        )));
    }
    let qs_ok = at_home && st.castling_rights.has(c, CastlingSide::Queenside) && st.board.is_empty(
        Square::from_coords(hr, 1),
    ) && st.board.is_empty(Square::from_coords(hr, 2)) && st.board.is_empty(
        Square::from_coords(hr, 3),
    ) && !is_square_attacked(&st.board, from, opp) && !is_square_attacked(
        &st.board,
        Square::from_coords(hr, 3),
        opp,
    ) && !is_square_attacked(&st.board, Square::from_coords(hr, 2), opp);
    if qs_ok {
        push_move(&mut r, Move::castling(from, Square::from_coords(hr, 2)));
    }
    proof {
        assert(qs_ok == (src == square_index(home_rank_of(c), 4) && castle_ok(
            st@,
            CastlingSide::Queenside,
        )));
        let hri = home_rank_of(c);
        assert forall|m: Move| r@.contains(m) <==> (pl(st@, m) && m.src_spec() == src) by {
            crate::mv::lemma_move_decompose(m);
            if pl(st@, m) && m.src_spec() == src && m.ty_code_spec() == 3 {
                assert(m.src_spec() == square_index(hri, 4));
                if m.tgt_spec() == square_index(hri, 6) && castle_ok(st@, CastlingSide::Kingside) {
                    assert(m.0 as int == move_bits(src, square_index(hri, 6), 0, 3));
                    assert(r_ks.contains(m));
                } else {
                    assert(m.tgt_spec() == square_index(hri, 2) && castle_ok(
                        st@,
                        CastlingSide::Queenside,
                    ));
                    assert(m.0 as int == move_bits(src, square_index(hri, 2), 0, 3));
                }
            }
        }
    }
    r
}

/// Pseudo-legal pawn capture toward one side (`lat` is the file offset).
pub open spec fn pl_pawn_capture_side(s: StateModel, m: Move, lat: int) -> bool {
    let b = s.board;
    let c = s.to_move;
    let sr = rank_of(m.src_spec());
    let sf = file_of(m.src_spec());
    let tr = rank_of(m.tgt_spec());
    let tf = file_of(m.tgt_spec());
    &&& tr == sr + forward_of(c)
    &&& tf == sf + lat
    &&& {
        ||| (m.ty_code_spec() == 0 && m.promo_code_spec() == 0 && enemy_at(b, m.tgt_spec(), c) && tr
            != last_rank_of(c))
        ||| (m.ty_code_spec() == 1 && enemy_at(b, m.tgt_spec(), c) && tr == last_rank_of(c))
        ||| (m.ty_code_spec() == 2 && m.promo_code_spec() == 0 && s.ep == Some(m.tgt_spec()))
    }
}

/// Append the four promotion moves from `from` to `t`.
fn push_promotions(v: &mut Vec<Move>, from: Square, t: Square)
    requires
        from.wf(),
        t.wf(),
    ensures
        forall|m2: Move|
            #![trigger final(v)@.contains(m2)]
            final(v)@.contains(m2) <==> (old(v)@.contains(m2) || (m2.ty_code_spec() == 1
                && m2.src_spec() == from.idx() && m2.tgt_spec() == t.idx())),
{
    let m1 = Move::promotion(from, t, PieceType::Knight);
    let m2 = Move::promotion(from, t, PieceType::Bishop);
    let m3 = Move::promotion(from, t, PieceType::Rook);
    let m4 = Move::promotion(from, t, PieceType::Queen);
    push_move(v, m1);
    push_move(v, m2);
    push_move(v, m3);
    push_move(v, m4);
    proof {
        assert forall|m: Move|
            (m.ty_code_spec() == 1 && m.src_spec() == from.idx() && m.tgt_spec() == t.idx())
                implies (m == m1 || m == m2 || m == m3 || m == m4) by {
            crate::mv::lemma_move_decompose(m);
            assert(m.promo_code_spec() == 0 || m.promo_code_spec() == 1 || m.promo_code_spec() == 2
                || m.promo_code_spec() == 3);
        }
    }
}

/// Append the pseudo-legal pawn advances from one square.
#[verifier::rlimit(100)]
#[verifier::spinoff_prover]
fn pawn_push_moves(st: &State, from: Square, r: &mut Vec<Move>)
    requires
        from.wf(),
        st.board@.len() == 64,
    ensures
        forall|m: Move|
            #![trigger final(r)@.contains(m)]
            final(r)@.contains(m) <==> (old(r)@.contains(m) || (pl_pawn_push(st@, m)
                && m.src_spec() == from.idx())),
{
    let c = st.to_move;
    let ghost b = st@.board;
    let ghost src = from.idx();
    let last: u8 = match c {
        Color::White => 7,
        Color::Black => 0,
    };
    let start: u8 = match c {
        Color::White => 1,
        Color::Black => 6,
    };
    match from.forward(c, 1, 0) {
        Some(t1) => {
            if st.board.is_empty(t1) {
                if t1.rank() == last {
                    push_promotions(r, from, t1);
                    proof {
                        assert forall|m: Move|
                            (pl_pawn_push(st@, m) && m.src_spec() == src) implies (m.ty_code_spec()
                            == 1 && m.src_spec() == src && m.tgt_spec() == t1.idx()) by {
                            assert(m.tgt_spec() == square_index(
                                rank_of(m.tgt_spec()),
                                file_of(m.tgt_spec()),
                            ));
                            assert(t1.idx() == square_index(t1.rank_spec(), t1.file_spec()));
                        }
                        assert forall|m: Move|
                            (m.ty_code_spec() == 1 && m.src_spec() == src && m.tgt_spec()
                                == t1.idx()) implies (pl_pawn_push(st@, m) && m.src_spec() == src) by {
                            crate::mv::lemma_move_decompose(m);
                        }
                    }
                } else {
                    let m1 = Move::new(from, t1);
                    push_move(r, m1);
                    if from.rank() == start {
                        match from.forward(c, 2, 0) {
                            Some(t2) => {
                                if st.board.is_empty(t2) {
                                    push_move(r, Move::new(from, t2));
                                }
                            },
                            None => {},
                        }
                    }
                    proof {
                        assert forall|m: Move|
                            r@.contains(m) <==> (old(r)@.contains(m) || (pl_pawn_push(st@, m)
                                && m.src_spec() == src)) by {
                            crate::mv::lemma_move_decompose(m);
                            assert(m.tgt_spec() == square_index(
                                rank_of(m.tgt_spec()),
                                file_of(m.tgt_spec()),
                            ));
                            assert(t1.idx() == square_index(t1.rank_spec(), t1.file_spec()));
                            assert(src == square_index(rank_of(src), file_of(src)));
                        }
                    }
                }
            } else {
                proof {
                    assert forall|m: Move|
                        !(pl_pawn_push(st@, m) && m.src_spec() == src) by {
                        assert(m.tgt_spec() == square_index(
                            rank_of(m.tgt_spec()),
                            file_of(m.tgt_spec()),
                        ));
                        assert(t1.idx() == square_index(t1.rank_spec(), t1.file_spec()));
                    }
                }
            }
        },
        None => {
            proof {
                assert forall|m: Move| !(pl_pawn_push(st@, m) && m.src_spec() == src) by {
                    assert(m.tgt_spec() == square_index(
                        rank_of(m.tgt_spec()),
                        file_of(m.tgt_spec()),
                    ));
                }
            }
        },
    }
}

/// Append the pseudo-legal pawn captures toward one side, the en-passant
/// capture included.
#[verifier::rlimit(100)]
#[verifier::spinoff_prover]
fn pawn_capture_side(st: &State, from: Square, lat: i8, r: &mut Vec<Move>)
    requires
        from.wf(),
        st.board@.len() == 64,
        lat == 1 || lat == -1,
    ensures
        forall|m: Move|
            #![trigger final(r)@.contains(m)]
            final(r)@.contains(m) <==> (old(r)@.contains(m) || (pl_pawn_capture_side(
                st@,
                m,
                lat as int,
            ) && m.src_spec() == from.idx())),
{
    let c = st.to_move;
    let ghost b = st@.board;
    let ghost src = from.idx();
    let last: u8 = match c {
        Color::White => 7,
        Color::Black => 0,
    };
    let dr: i8 = match c {
        Color::White => 1,
        Color::Black => -1,
    };
    match from.offset(dr, lat) {
        Some(t) => {
            let is_enemy = match st.board.piece_at(t) {
                Some(p) => p.color() != c,
                None => false,
            };
            if is_enemy {
                if t.rank() == last {
                    push_promotions(r, from, t);
                } else {
                    push_move(r, Move::new(from, t));
                }
            }
            match st.en_passant {
                Some(ep) => {
                    if t == ep {
                        push_move(r, Move::en_passant(from, t));
                    }
                },
                None => {},
            }
            proof {
                assert forall|m: Move|
                    r@.contains(m) <==> (old(r)@.contains(m) || (pl_pawn_capture_side(
                        st@,
                        m,
                        lat as int,
                    ) && m.src_spec() == src)) by {
                    crate::mv::lemma_move_decompose(m);
                    assert(m.tgt_spec() == square_index(
                        rank_of(m.tgt_spec()),
                        file_of(m.tgt_spec()),
                    ));
                    assert(t.idx() == square_index(t.rank_spec(), t.file_spec()));
                    assert(src == square_index(rank_of(src), file_of(src)));
                }
            }
        },
        None => {
            proof {
                assert forall|m: Move|
                    !(pl_pawn_capture_side(st@, m, lat as int) && m.src_spec() == src) by {
                    assert(m.tgt_spec() == square_index(
                        rank_of(m.tgt_spec()),
                        file_of(m.tgt_spec()),
                    ));
                }
            }
        },
    }
}

/// Pseudo-legal pawn moves from one square.
#[verifier::rlimit(100)]
#[verifier::spinoff_prover]
fn pawn_moves(st: &State, from: Square) -> (r: Vec<Move>)
    requires
        from.wf(),
        st.board@.len() == 64,
        own_piece_at(st@.board, from.idx(), st@.to_move),
        byte_kind(st@.board[from.idx()] as int) == 1,
    ensures
        forall|m: Move| r@.contains(m) <==> (pl(st@, m) && m.src_spec() == from.idx()),
{
    let mut r: Vec<Move> = Vec::new();
    pawn_push_moves(st, from, &mut r);
    pawn_capture_side(st, from, -1, &mut r);
    pawn_capture_side(st, from, 1, &mut r);
    proof {
        assert forall|m: Move|
            r@.contains(m) <==> (pl(st@, m) && m.src_spec() == from.idx()) by {
            assert(pl_pawn_capture(st@, m) == (pl_pawn_capture_side(st@, m, -1)
                || pl_pawn_capture_side(st@, m, 1)));
        }
    }
    r
}

/// Append a chunk of moves, with membership stated for every move.
fn append_moves(v: &mut Vec<Move>, chunk: &Vec<Move>)
    ensures
        forall|m: Move|
            #![trigger final(v)@.contains(m)]
            final(v)@.contains(m) <==> (old(v)@.contains(m) || chunk@.contains(m)),
{
    let mut j: usize = 0;
    while j < chunk.len()
        invariant
            j <= chunk@.len(),
            forall|m: Move|
                #![trigger v@.contains(m)]
                v@.contains(m) <==> (old(v)@.contains(m) || exists|t: int|
                    0 <= t < j && chunk@[t] == m),
        decreases chunk@.len() - j,
    {
        push_move(v, chunk[j]);
        proof {
            assert(chunk@[j as int] == chunk[j as int]);
        }
        j = j + 1;
    }
}

/// Every pseudo-legal move of the side to move, gathered piece by piece.
#[verifier::rlimit(100)]
#[verifier::spinoff_prover]
fn pseudo_legal_moves(st: &State) -> (r: Vec<Move>)
    requires
        crate::board::board_bytes_wf(st@.board),
    ensures
        forall|m: Move| r@.contains(m) <==> pl(st@, m),
{
    let mut r: Vec<Move> = Vec::new();
    let mut i: usize = 0;
    while i < 64
        invariant
            i <= 64,
            crate::board::board_bytes_wf(st@.board),
            forall|m: Move|
                #![trigger r@.contains(m)]
                r@.contains(m) <==> (pl(st@, m) && m.src_spec() < i as int),
        decreases 64 - i,
    {
        let s = Square::from_index(i);
        let ghost r0 = r@;
        match st.board.piece_at(s) {
            Some(p) => {
                if p.color() == st.to_move {
                    let chunk = match p.piece_type() {
                        PieceType::Pawn => pawn_moves(st, s),
                        PieceType::Knight => knight_moves(st, s),
                        PieceType::Bishop => bishop_moves(st, s),
                        PieceType::Rook => rook_moves(st, s),
                        PieceType::Queen => queen_moves(st, s),
                        PieceType::King => king_moves(st, s),
                    };
                    append_moves(&mut r, &chunk);
                }
            },
            None => {},
        }
        proof {
            assert forall|m: Move|
                r@.contains(m) <==> (pl(st@, m) && m.src_spec() < i as int + 1) by {
                if pl(st@, m) && m.src_spec() == i as int {
                    assert(own_piece_at(st@.board, i as int, st@.to_move));
                }
            }
        }
        i = i + 1;
    }
    proof {
        assert forall|m: Move| r@.contains(m) <==> pl(st@, m) by {
            assert(m.src_spec() < 64);
        }
    }
    r
}

// ============================================================================
// Kings across a move
// ============================================================================

/// A pseudo-legal move never removes the mover's own king: exactly one king
/// of the side to move remains after the board update.
#[verifier::rlimit(100)]
#[verifier::spinoff_prover]
pub proof fn lemma_mover_king_survives(s: StateModel, m: Move)
    requires
        s.wf(),
        pl(s, m),
    ensures
        one_king(board_after(s, m), s.to_move),
{
    let b = s.board;
    let c = s.to_move;
    let b2 = board_after(s, m);
    let src = m.src_spec();
    let tgt = m.tgt_spec();
    let ty = m.ty_code_spec();
    crate::mv::lemma_move_decompose(m);
    let k = choose|k: int| is_king_at(b, k, c) && (forall|j: int| is_king_at(b, j, c) ==> j == k);
    assert(is_king_at(b, k, c) && (forall|j: int| is_king_at(b, j, c) ==> j == k));
    if ty == 0 {
        let mb = moved_byte(b[src] as int);
        assert(byte_kind(mb) == byte_kind(b[src] as int) && byte_color(mb) == byte_color(
            b[src] as int,
        ) && byte_occupied(mb));
        assert(!is_king_at(b, tgt, c));
        if src == k {
            assert(is_king_at(b2, tgt, c));
            assert forall|j: int| is_king_at(b2, j, c) implies j == tgt by {
                if j != tgt && j != src {
                    assert(is_king_at(b, j, c));
                }
            }
            assert(one_king(b2, c));
        } else {
            assert(byte_kind(b[src] as int) != 6) by {
                if byte_kind(b[src] as int) == 6 {
                    assert(is_king_at(b, src, c));
                }
            }
            assert(is_king_at(b2, k, c));
            assert forall|j: int| is_king_at(b2, j, c) implies j == k by {
                if j != src && j != tgt {
                    assert(is_king_at(b, j, c));
                }
            }
            assert(one_king(b2, c));
        }
    } else if ty == 1 {
        assert(byte_kind(b[src] as int) == 1);
        assert(src != k);
        let pb = crate::board::piece_byte(
            crate::mv::kind_of_code(m.promo_code_spec() + 2),
            byte_color(b[src] as int),
            false,
        );
        assert(byte_kind(pb) != 6);
        assert(!is_king_at(b, tgt, c));
        assert(is_king_at(b2, k, c));
        assert forall|j: int| is_king_at(b2, j, c) implies j == k by {
            if j != src && j != tgt {
                assert(is_king_at(b, j, c));
            }
        }
        assert(one_king(b2, c));
    } else if ty == 2 {
        assert(byte_kind(b[src] as int) == 1);
        assert(src != k);
        let cap = square_index(rank_of(src), file_of(tgt));
        assert(s.ep == Some(tgt));
        assert(rank_of(tgt) - forward_of(c) == rank_of(src));
        assert(slot_is(b, cap, other(c), 1));
        assert(cap != k && tgt != k);
        let mb = moved_byte(b[src] as int);
        assert(byte_kind(mb) == 1 && byte_occupied(mb));
        assert(is_king_at(b2, k, c));
        assert forall|j: int| is_king_at(b2, j, c) implies j == k by {
            if j != src && j != tgt && j != cap {
                assert(is_king_at(b, j, c));
            }
        }
        assert(one_king(b2, c));
    } else {
        assert(byte_kind(b[src] as int) == 6);
        assert(is_king_at(b, src, c));
        assert(src == k);
        let hr = home_rank_of(c);
        let kingside = file_of(tgt) > file_of(src);
        let rsrc = square_index(
            hr,
            if kingside {
                7int
            } else {
                0int
            },
        );
        let rtgt = square_index(
            hr,
            if kingside {
                5int
            } else {
                3int
            },
        );
        assert(rank_of(src) == hr && file_of(src) == 4);
        assert(!byte_occupied(b[tgt] as int));
        assert(src != tgt && src != rsrc && src != rtgt && tgt != rsrc && tgt != rtgt && rsrc
            != rtgt);
        let b1 = crate::board::board_with_move(b, src, tgt);
        let mb = moved_byte(b[src] as int);
        assert(byte_kind(mb) == 6 && byte_color(mb) == c && byte_occupied(mb));
        assert(is_king_at(b1, tgt, c));
        assert(b2 == crate::board::board_with_move(b1, rsrc, rtgt));
        if byte_occupied(b1[rsrc] as int) {
            let rb = moved_byte(b1[rsrc] as int);
            assert(b1[rsrc] == b[rsrc]);
            assert(!(byte_kind(rb) == 6 && byte_color(rb) == c)) by {
                if byte_kind(b[rsrc] as int) == 6 && byte_color(b[rsrc] as int) == c {
                    assert(is_king_at(b, rsrc, c));
                }
            }
            assert(is_king_at(b2, tgt, c));
            assert forall|j: int| is_king_at(b2, j, c) implies j == tgt by {
                if j != src && j != tgt && j != rsrc && j != rtgt {
                    assert(is_king_at(b, j, c));
                }
            }
            assert(one_king(b2, c));
        } else {
            assert(b2 == b1);
            assert forall|j: int| is_king_at(b2, j, c) implies j == tgt by {
                if j != src && j != tgt {
                    assert(is_king_at(b, j, c));
                }
            }
            assert(one_king(b2, c));
        }
    }
}

/// A pseudo-legal move whose target holds the opponent's king would mean the
/// opponent was already attacked there.
#[verifier::rlimit(100)]
#[verifier::spinoff_prover]
proof fn lemma_no_king_capture(s: StateModel, m: Move)
    requires
        s.wf(),
        pl(s, m),
        !in_check_color(s.board, other(s.to_move)),
    ensures
        !is_king_at(s.board, m.tgt_spec(), other(s.to_move)),
{
    let b = s.board;
    let c = s.to_move;
    let opp = other(c);
    let src = m.src_spec();
    let tgt = m.tgt_spec();
    crate::mv::lemma_move_decompose(m);
    if is_king_at(b, tgt, opp) {
        assert(byte_occupied(b[tgt] as int));
        assert(attacks(b, src, tgt, c)) by {
            assert(src == square_index(rank_of(src), file_of(src)));
            assert(tgt == square_index(rank_of(tgt), file_of(tgt)));
        }
        assert(spec_attacked(b, tgt, c));
        assert(in_check_color(b, opp));
    }
}

/// After any pseudo-legal move from a well-formed position in which the
/// opponent is not already capturable, exactly one king of each color
/// remains: a legal move never captures a king.
#[verifier::rlimit(100)]
#[verifier::spinoff_prover]
pub proof fn lemma_apply_preserves_kings(s: StateModel, m: Move)
    requires
        s.wf(),
        pl(s, m),
        !in_check_color(s.board, other(s.to_move)),
    ensures
        one_king(apply_spec(s, m).board, Color::White),
        one_king(apply_spec(s, m).board, Color::Black),
{
    let b = s.board;
    let c = s.to_move;
    let opp = other(c);
    let b2 = board_after(s, m);
    let src = m.src_spec();
    let tgt = m.tgt_spec();
    let ty = m.ty_code_spec();
    crate::mv::lemma_move_decompose(m);
    lemma_mover_king_survives(s, m);
    let ko = choose|ko: int|
        is_king_at(b, ko, opp) && (forall|j: int| is_king_at(b, j, opp) ==> j == ko);
    assert(is_king_at(b, ko, opp) && (forall|j: int| is_king_at(b, j, opp) ==> j == ko));
    assert(ko != src);
    lemma_no_king_capture(s, m);
    if ty == 0 {
        let mb = moved_byte(b[src] as int);
        assert(byte_color(mb) == byte_color(b[src] as int));
        assert(is_king_at(b2, ko, opp));
        assert forall|j: int| is_king_at(b2, j, opp) implies j == ko by {
            if j != src && j != tgt {
                assert(is_king_at(b, j, opp));
            }
        }
        assert(one_king(b2, opp));
    } else if ty == 1 {
        let pb = crate::board::piece_byte(
            crate::mv::kind_of_code(m.promo_code_spec() + 2),
            byte_color(b[src] as int),
            false,
        );
        assert(byte_kind(pb) != 6);
        assert(is_king_at(b2, ko, opp));
        assert forall|j: int| is_king_at(b2, j, opp) implies j == ko by {
            if j != src && j != tgt {
                assert(is_king_at(b, j, opp));
            }
        }
        assert(one_king(b2, opp));
    } else if ty == 2 {
        let cap = square_index(rank_of(src), file_of(tgt));
        assert(s.ep == Some(tgt));
        assert(rank_of(tgt) - forward_of(c) == rank_of(src));
        assert(slot_is(b, cap, opp, 1));
        assert(cap != ko) by {
            if cap == ko {
                assert(byte_kind(b[ko] as int) == 6);
            }
        }
        let mb = moved_byte(b[src] as int);
        assert(byte_kind(mb) == byte_kind(b[src] as int));
        assert(is_king_at(b2, ko, opp));
        assert forall|j: int| is_king_at(b2, j, opp) implies j == ko by {
            if j != src && j != tgt && j != cap {
                assert(is_king_at(b, j, opp));
            }
        }
        assert(one_king(b2, opp));
    } else {
        let hr = home_rank_of(c);
        let kingside = file_of(tgt) > file_of(src);
        let rsrc = square_index(
            hr,
            if kingside {
                7int
            } else {
                0int
            },
        );
        let rtgt = square_index(
            hr,
            if kingside {
                5int
            } else {
                3int
            },
        );
        assert(rank_of(src) == hr && file_of(src) == 4);
        assert(!byte_occupied(b[tgt] as int) && !byte_occupied(b[rtgt] as int));
        assert(src != tgt && src != rsrc && src != rtgt && tgt != rsrc && tgt != rtgt && rsrc
            != rtgt);
        let b1 = crate::board::board_with_move(b, src, tgt);
        assert(b1[rsrc] == b[rsrc]);
        assert(b2 == crate::board::board_with_move(b1, rsrc, rtgt));
        if byte_occupied(b[rsrc] as int) {
            let rb = moved_byte(b[rsrc] as int);
            assert(byte_kind(rb) == byte_kind(b[rsrc] as int) && byte_color(rb) == byte_color(
                b[rsrc] as int,
            ));
            if ko == rsrc {
                // A king standing on the rook's origin square is relocated,
                // not removed.
                assert(is_king_at(b2, rtgt, opp));
                assert forall|j: int| is_king_at(b2, j, opp) implies j == rtgt by {
                    if j != src && j != tgt && j != rsrc && j != rtgt {
                        assert(is_king_at(b, j, opp));
                    }
                }
                assert(one_king(b2, opp));
            } else {
                assert(!(byte_kind(rb) == 6 && byte_color(rb) == opp)) by {
                    if byte_kind(b[rsrc] as int) == 6 && byte_color(b[rsrc] as int) == opp {
                        assert(is_king_at(b, rsrc, opp));
                    }
                }
                assert(is_king_at(b2, ko, opp));
                assert forall|j: int| is_king_at(b2, j, opp) implies j == ko by {
                    if j != src && j != tgt && j != rsrc && j != rtgt {
                        assert(is_king_at(b, j, opp));
                    }
                }
                assert(one_king(b2, opp));
            }
        } else {
            assert(b2 == b1);
            assert(is_king_at(b2, ko, opp));
            assert forall|j: int| is_king_at(b2, j, opp) implies j == ko by {
                if j != src && j != tgt {
                    assert(is_king_at(b, j, opp));
                }
            }
            assert(one_king(b2, opp));
        }
    }
    assert(apply_spec(s, m).board == b2);
    if c == Color::White {
        assert(one_king(b2, Color::White) && one_king(b2, Color::Black));
    } else {
        assert(one_king(b2, Color::White) && one_king(b2, Color::Black));
    }
}

/// Applying a pseudo-legal move to a well-formed position whose opponent is
/// not already capturable yields a well-formed position again, so generation
/// can be chained across applied moves.
#[verifier::rlimit(100)]
#[verifier::spinoff_prover]
pub proof fn lemma_apply_preserves_wf(s: StateModel, m: Move)
    requires
        s.wf(),
        pl(s, m),
        !in_check_color(s.board, other(s.to_move)),
    ensures
        apply_spec(s, m).wf(),
{
    let b = s.board;
    let c = s.to_move;
    let next = apply_spec(s, m);
    let b2 = next.board;
    let src = m.src_spec();
    let tgt = m.tgt_spec();
    let ty = m.ty_code_spec();
    crate::mv::lemma_move_decompose(m);
    lemma_apply_preserves_kings(s, m);
    crate::state::lemma_apply_rights_monotonic(s, m);

    // Every written slot stays well formed: cleared slots, relocated pieces
    // with their has-moved flag set, and freshly promoted pieces.
    assert forall|i: int| 0 <= i < 64 implies crate::board::slot_wf(b2[i] as int) by {
        assert(crate::board::slot_wf(b[i] as int));
        if byte_occupied(b[src] as int) {
            assert(crate::board::byte_wf(moved_byte(b[src] as int)));
        }
        if ty == 3 {
            let hr = home_rank_of(c);
            let kingside = file_of(tgt) > file_of(src);
            let rsrc = square_index(
                hr,
                if kingside {
                    7int
                } else {
                    0int
                },
            );
            let b1 = crate::board::board_with_move(b, src, tgt);
            if byte_occupied(b1[rsrc] as int) {
                assert(crate::board::slot_wf(b[rsrc] as int));
                assert(crate::board::byte_wf(moved_byte(b1[rsrc] as int)));
            }
        }
        if ty == 1 && byte_occupied(b[src] as int) {
            assert(crate::board::byte_wf(
                crate::board::piece_byte(
                    crate::mv::kind_of_code(m.promo_code_spec() + 2),
                    byte_color(b[src] as int),
                    false,
                ),
            ));
        }
    }
    assert(b2.len() == 64);

    // The next en-passant target, when set, marks a genuine double push: the
    // skipped square is empty and the pawn stands one rank beyond it.
    match next.ep {
        None => {},
        Some(t) => {
            assert(byte_occupied(b[src] as int) && byte_kind(b[src] as int) == 1);
            assert(rank_of(tgt) - rank_of(src) == 2 || rank_of(src) - rank_of(tgt) == 2);
            assert(ty == 0 && rank_of(src) == start_rank_of(c) && file_of(tgt) == file_of(src)
                && rank_of(tgt) == rank_of(src) + forward_of(c) + forward_of(c));
            let mid = square_index(rank_of(src) + forward_of(c), file_of(src));
            assert(t == mid);
            assert(!byte_occupied(b[mid] as int));
            assert(mid != src && mid != tgt);
            assert(!byte_occupied(b2[t] as int));
            assert(rank_of(t) == (if next.to_move == Color::White {
                5int
            } else {
                2int
            }));
            let behind = square_index(rank_of(t) - forward_of(next.to_move), file_of(t));
            assert(behind == tgt);
            assert(slot_is(b2, behind, other(next.to_move), 1));
        },
    }
    assert(next.wf());
}

// ============================================================================
// Legality and the generator
// ============================================================================

/// Check if a pseudo-legal move is actually legal: apply it to a disposable
/// copy and ask whether the mover's king is attacked afterward.
fn is_legal(st: &State, mv: Move) -> (r: bool)
    requires
        st@.wf(),
        st@.clocks_ok(),
        pl(st@, mv),
    ensures
        r == legal(st@, mv),
{
    proof {
        assert(st.board.wf());
        lemma_mover_king_survives(st@, mv);
    }
    let next = st.apply(mv);
    let king_sq = find_king(&next.board, st.to_move);
    let attacked = is_square_attacked(&next.board, king_sq, st.to_move.opposite());
    proof {
        if attacked {
            assert(in_check_color(next@.board, st@.to_move));
        } else {
            assert forall|k: int| is_king_at(next.board@, k, st@.to_move) implies !spec_attacked(
                next.board@,
                k,
                other(st@.to_move),
            ) by {
                assert(k == king_sq.idx());
            }
        }
    }
    !attacked
}

/// Whether a move already stands in the vector.
fn contains_move(v: &Vec<Move>, mv: Move) -> (r: bool)
    ensures
        r == v@.contains(mv),
{
    let mut i: usize = 0;
    while i < v.len()
        invariant
            i <= v@.len(),
            forall|t: int| 0 <= t < i ==> v@[t] != mv,
        decreases v@.len() - i,
    {
        if v[i] == mv {
            return true;
        }
        i = i + 1;
    }
    false
}

/// Generates the legal moves of a position.
pub struct MoveGenerator<'a> {
    pub state: &'a State,
}

impl<'a> MoveGenerator<'a> {
    /// Create a new move generator for the given state.
    pub fn new(state: &'a State) -> (r: Self)
        ensures
            r.state == state,
    {
        MoveGenerator { state }
    }

    /// Generate all legal moves for the current side to move: exactly the
    /// moves that are pseudo-legal and do not leave the mover's king
    /// attacked, each once.
    pub fn all(self) -> (r: Vec<Move>)
        requires
            self.state@.wf(),
            self.state@.clocks_ok(),
        ensures
            forall|m: Move| #[trigger] r@.contains(m) <==> legal(self.state@, m),
            r@.no_duplicates(),
    {
        let pseudo = pseudo_legal_moves(self.state);
        let mut r: Vec<Move> = Vec::new();
        let mut i: usize = 0;
        while i < pseudo.len()
            invariant
                i <= pseudo@.len(),
                self.state@.wf(),
                self.state@.clocks_ok(),
                forall|m: Move| #[trigger] pseudo@.contains(m) <==> pl(self.state@, m),
                forall|m: Move| #[trigger] r@.contains(m) ==> legal(self.state@, m),
                forall|t: int|
                    0 <= t < i && legal(self.state@, #[trigger] pseudo@[t]) ==> r@.contains(
                        pseudo@[t],
                    ),
                r@.no_duplicates(),
            decreases pseudo@.len() - i,
        {
            let mv = pseudo[i];
            proof {
                assert(pseudo@.contains(mv));
            }
            if is_legal(self.state, mv) {
                if !contains_move(&r, mv) {
                    let ghost r0 = r@;
                    push_move(&mut r, mv);
                    proof {
                        assert forall|a: int, b2: int|
                            0 <= a < r@.len() && 0 <= b2 < r@.len() && a != b2 implies r@[a]
                            != r@[b2] by {
                            if a < r@.len() - 1 && b2 < r@.len() - 1 {
                            } else if a == r@.len() - 1 {
                                assert(r@[b2] == r0[b2]);
                                assert(!r0.contains(mv));
                            } else {
                                assert(r@[a] == r0[a]);
                                assert(!r0.contains(mv));
                            }
                        }
                    }
                }
            }
            i = i + 1;
        }
        proof {
            assert forall|m: Move| #[trigger] r@.contains(m) <==> legal(self.state@, m) by {
                if legal(self.state@, m) {
                    assert(pseudo@.contains(m));
                    let t = choose|t: int| 0 <= t < pseudo@.len() && pseudo@[t] == m;
                    assert(legal(self.state@, pseudo@[t]));
                }
            }
        }
        r
    }

    /// Generate legal moves from a specific square.
    pub fn from(self, sq: Square) -> (r: Vec<Move>)
        requires
            self.state@.wf(),
            self.state@.clocks_ok(),
        ensures
            forall|m: Move| #[trigger] r@.contains(m) <==> (legal(self.state@, m) && m.src_spec()
                == sq.idx()),
            r@.no_duplicates(),
    {
        let all = self.all();
        let mut r: Vec<Move> = Vec::new();
        let mut i: usize = 0;
        while i < all.len()
            invariant
                i <= all@.len(),
                all@.no_duplicates(),
                forall|m: Move| #[trigger] all@.contains(m) <==> legal(self.state@, m),
                forall|m: Move| #[trigger] r@.contains(m) ==> (legal(self.state@, m)
                    && m.src_spec() == sq.idx()),
                forall|t: int|
                    0 <= t < i && legal(self.state@, #[trigger] all@[t]) && all@[t].src_spec()
                        == sq.idx() ==> r@.contains(all@[t]),
                r@.no_duplicates(),
            decreases all@.len() - i,
        {
            let mv = all[i];
            proof {
                assert(all@.contains(mv));
            }
            if mv.source() == sq {
                if !contains_move(&r, mv) {
                    let ghost r0 = r@;
                    push_move(&mut r, mv);
                    proof {
                        assert forall|a: int, b2: int|
                            0 <= a < r@.len() && 0 <= b2 < r@.len() && a != b2 implies r@[a]
                            != r@[b2] by {
                            if a < r@.len() - 1 && b2 < r@.len() - 1 {
                            } else if a == r@.len() - 1 {
                                assert(r@[b2] == r0[b2]);
                                assert(!r0.contains(mv));
                            } else {
                                assert(r@[a] == r0[a]);
                                assert(!r0.contains(mv));
                            }
                        }
                    }
                }
            }
            i = i + 1;
        }
        proof {
            assert forall|m: Move|
                #[trigger] r@.contains(m) <==> (legal(self.state@, m) && m.src_spec() == sq.idx()) by {
                if legal(self.state@, m) && m.src_spec() == sq.idx() {
                    assert(all@.contains(m));
                    let t = choose|t: int| 0 <= t < all@.len() && all@[t] == m;
                    assert(legal(self.state@, all@[t]) && all@[t].src_spec() == sq.idx());
                }
            }
        }
        r
    }
}

// ============================================================================
// Laws of generated moves
// ============================================================================

/// A legal move never leaves the mover's own king attacked in the resulting
/// position.
pub proof fn lemma_legal_never_leaves_check(s: StateModel, m: Move)
    requires
        legal(s, m),
    ensures
        !in_check_color(apply_spec(s, m).board, s.to_move),
{
}

/// A pawn reaching the far rank never moves as a plain Normal move: every
/// pseudo-legal pawn move onto the far rank is a promotion.
pub proof fn lemma_pawn_promotion_forced(s: StateModel, m: Move)
    requires
        s.wf(),
        pl(s, m),
        byte_kind(s.board[m.src_spec()] as int) == 1,
        rank_of(m.tgt_spec()) == last_rank_of(s.to_move),
    ensures
        m.ty_spec() == crate::mv::MoveType::Promotion,
{
    crate::mv::lemma_move_decompose(m);
    if m.ty_code_spec() == 2 {
        assert(s.ep == Some(m.tgt_spec()));
    }
}

/// Check if the current side to move is in check.
pub fn is_in_check(state: &State) -> (r: bool)
    requires
        state.board@.len() == 64,
        one_king(state.board@, state.to_move),
    ensures
        r == in_check_color(state@.board, state@.to_move),
{
    let king_sq = find_king(&state.board, state.to_move);
    let r = is_square_attacked(&state.board, king_sq, state.to_move.opposite());
    proof {
        if !r {
            assert forall|k: int|
                is_king_at(state.board@, k, state.to_move) implies !spec_attacked(
                state.board@,
                k,
                other(state.to_move),
            ) by {
                assert(k == king_sq.idx());
            }
        }
    }
    r
}

} // verus!
