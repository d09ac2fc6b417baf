//! Attack sets for leapers (knight, king, pawn) and ray-based attacks for
//! sliding pieces (bishop, rook, queen), all as bitboards.
use crate::bitboard::{has_sq, lemma_empty, lemma_intersects, lemma_or, lemma_single};
use crate::types::{file_of, file_spec, rank_of, rank_spec, square_spec, Bitboard, Color, Square};
use vstd::prelude::*;

verus! {

/// (file, rank) lies on the board.
pub open spec fn on_board_spec(file: int, rank: int) -> bool {
    0 <= file < 8 && 0 <= rank < 8
}

pub open spec fn abs(x: int) -> int {
    if x < 0 {
        -x
    } else {
        x
    }
}

/// File and rank distance from `a` to `b`.
pub open spec fn dfile(a: int, b: int) -> int {
    file_spec(b) - file_spec(a)
}

pub open spec fn drank(a: int, b: int) -> int {
    rank_spec(b) - rank_spec(a)
}

/// A knight on `a` attacks `b`.
pub open spec fn knight_step(a: int, b: int) -> bool {
    ||| abs(dfile(a, b)) == 1 && abs(drank(a, b)) == 2
    ||| abs(dfile(a, b)) == 2 && abs(drank(a, b)) == 1
}

/// A king on `a` attacks `b`.
pub open spec fn king_step(a: int, b: int) -> bool {
    abs(dfile(a, b)) <= 1 && abs(drank(a, b)) <= 1 && a != b
}

/// A pawn of color `c` on `a` attacks `b`: one file aside, one rank forward.
pub open spec fn pawn_step(c: Color, a: int, b: int) -> bool {
    abs(dfile(a, b)) == 1 && drank(a, b) == (if c == Color::White { 1int } else { -1int })
}

/// Squares reached from (file, rank) walking by (df, dr) for at most `n` steps,
/// up to and including the first occupied square.
pub open spec fn ray_hits(file: int, rank: int, df: int, dr: int, occ: spec_fn(int) -> bool, s: int, n: nat) -> bool
    decreases n,
{
    if n == 0 {
        false
    } else {
        let nf = file + df;
        let nr = rank + dr;
        if !on_board_spec(nf, nr) {
            false
        } else if s == square_spec(nf, nr) {
            true
        } else if occ(square_spec(nf, nr)) {
            false
        } else {
            ray_hits(nf, nr, df, dr, occ, s, (n - 1) as nat)
        }
    }
}

/// A slider on `sq` attacks `s` along direction (df, dr) with occupancy `occ`.
/// No ray on the board is longer than seven squares.
pub open spec fn ray_attack(sq: int, occ: spec_fn(int) -> bool, df: int, dr: int, s: int) -> bool {
    ray_hits(file_spec(sq), rank_spec(sq), df, dr, occ, s, 7)
}

pub open spec fn bishop_attack(sq: int, occ: spec_fn(int) -> bool, s: int) -> bool {
    ||| ray_attack(sq, occ, 1, 1, s)
    ||| ray_attack(sq, occ, 1, -1, s)
    ||| ray_attack(sq, occ, -1, 1, s)
    ||| ray_attack(sq, occ, -1, -1, s)
}

pub open spec fn rook_attack(sq: int, occ: spec_fn(int) -> bool, s: int) -> bool {
    ||| ray_attack(sq, occ, 1, 0, s)
    ||| ray_attack(sq, occ, -1, 0, s)
    ||| ray_attack(sq, occ, 0, 1, s)
    ||| ray_attack(sq, occ, 0, -1, s)
}

pub open spec fn queen_attack(sq: int, occ: spec_fn(int) -> bool, s: int) -> bool {
    bishop_attack(sq, occ, s) || rook_attack(sq, occ, s)
}

/// The squares of a bitboard as a predicate.
pub open spec fn bb_fn(b: u64) -> spec_fn(int) -> bool {
    |s: int| has_sq(b, s)
}

/// The `j`-th square from (file, rank) along (df, dr) is on the board.
pub open spec fn ray_on(file: int, rank: int, df: int, dr: int, j: int) -> bool {
    on_board_spec(file + j * df, rank + j * dr)
}

pub open spec fn ray_sq(file: int, rank: int, df: int, dr: int, j: int) -> int {
    square_spec(file + j * df, rank + j * dr)
}

/// `s` is the `k`-th square along the ray and every square before it is on the board and empty.
pub open spec fn ray_reach(file: int, rank: int, df: int, dr: int, occ: spec_fn(int) -> bool, s: int, k: int) -> bool {
    &&& 1 <= k
    &&& ray_on(file, rank, df, dr, k)
    &&& s == ray_sq(file, rank, df, dr, k)
    &&& forall|j: int| 1 <= j < k ==> #[trigger] ray_on(file, rank, df, dr, j) && !occ(ray_sq(file, rank, df, dr, j))
}

proof fn lemma_reach_intro(file: int, rank: int, df: int, dr: int, occ: spec_fn(int) -> bool, s: int, k: int)
    requires
        1 <= k,
        ray_on(file, rank, df, dr, k),
        s == ray_sq(file, rank, df, dr, k),
        forall|j: int| 1 <= j < k ==> #[trigger] ray_on(file, rank, df, dr, j) && !occ(ray_sq(file, rank, df, dr, j)),
    ensures
        ray_reach(file, rank, df, dr, occ, s, k),
{
}

proof fn lemma_reach_shift_back(file: int, rank: int, df: int, dr: int, occ: spec_fn(int) -> bool, s: int, k: int)
    requires
        ray_reach(file, rank, df, dr, occ, s, k),
        k > 1,
    ensures
        ray_reach(file + df, rank + dr, df, dr, occ, s, k - 1),
{
    let nf = file + df;
    let nr = rank + dr;
    lemma_shift(file, df, k - 1);
    lemma_shift(rank, dr, k - 1);
    assert forall|j: int| 1 <= j < k - 1 implies #[trigger] ray_on(nf, nr, df, dr, j) && !occ(ray_sq(nf, nr, df, dr, j)) by {
        lemma_shift(file, df, j);
        lemma_shift(rank, dr, j);
        assert(ray_on(file, rank, df, dr, j + 1));
    }
    lemma_reach_intro(nf, nr, df, dr, occ, s, k - 1);
}

proof fn lemma_shift(f: int, df: int, j: int)
    ensures
        f + (j + 1) * df == (f + df) + j * df,
{
    assert((j + 1) * df == j * df + df) by (nonlinear_arith);
}

/// One empty square more at the start of a ray reaches one step further.
proof fn lemma_reach_extend(file: int, rank: int, df: int, dr: int, occ: spec_fn(int) -> bool, s: int, k: int)
    requires
        on_board_spec(file + df, rank + dr),
        !occ(square_spec(file + df, rank + dr)),
        ray_reach(file + df, rank + dr, df, dr, occ, s, k),
    ensures
        ray_reach(file, rank, df, dr, occ, s, k + 1),
{
    let nf = file + df;
    let nr = rank + dr;
    lemma_shift(file, df, k);
    lemma_shift(rank, dr, k);
    assert(ray_on(file, rank, df, dr, 1) == on_board_spec(nf, nr));
    assert(ray_sq(file, rank, df, dr, 1) == square_spec(nf, nr));
    assert forall|j: int| 1 <= j < k + 1 implies #[trigger] ray_on(file, rank, df, dr, j) && !occ(ray_sq(file, rank, df, dr, j)) by {
        if j > 1 {
            lemma_shift(file, df, j - 1);
            lemma_shift(rank, dr, j - 1);
            assert(ray_on(nf, nr, df, dr, j - 1));
        }
    }
    lemma_reach_intro(file, rank, df, dr, occ, s, k + 1);
}

/// Walking the ray step by step reaches exactly the squares of the closed form.
pub proof fn lemma_ray_closed(file: int, rank: int, df: int, dr: int, occ: spec_fn(int) -> bool, s: int, n: nat)
    ensures
        ray_hits(file, rank, df, dr, occ, s, n) <==> exists|k: int| k <= n && #[trigger] ray_reach(file, rank, df, dr, occ, s, k),
    decreases n,
{
    let nf = file + df;
    let nr = rank + dr;
    assert(ray_on(file, rank, df, dr, 1) == on_board_spec(nf, nr));
    assert(ray_sq(file, rank, df, dr, 1) == square_spec(nf, nr));
    if n == 0 {
    } else if !on_board_spec(nf, nr) {
        assert forall|k: int| k <= n implies !#[trigger] ray_reach(file, rank, df, dr, occ, s, k) by {
            if k > 1 {
                assert(!ray_on(file, rank, df, dr, 1));
            }
        }
    } else if s == square_spec(nf, nr) {
        assert(ray_reach(file, rank, df, dr, occ, s, 1));
    } else if occ(square_spec(nf, nr)) {
        assert forall|k: int| k <= n implies !#[trigger] ray_reach(file, rank, df, dr, occ, s, k) by {
            if k > 1 {
                assert(ray_on(file, rank, df, dr, 1));
            }
        }
    } else {
        lemma_ray_closed(nf, nr, df, dr, occ, s, (n - 1) as nat);
        if ray_hits(nf, nr, df, dr, occ, s, (n - 1) as nat) {
            let k = choose|k: int| k <= n - 1 && #[trigger] ray_reach(nf, nr, df, dr, occ, s, k);
            lemma_reach_extend(file, rank, df, dr, occ, s, k);
            assert(ray_reach(file, rank, df, dr, occ, s, k + 1));
        } else {
            assert forall|k: int| k <= n implies !#[trigger] ray_reach(file, rank, df, dr, occ, s, k) by {
                if ray_reach(file, rank, df, dr, occ, s, k) {
                    assert(k > 1);
                    lemma_reach_shift_back(file, rank, df, dr, occ, s, k);
                }
            }
        }
    }
}

/// Attacks along a ray are symmetric: `b` is seen from `a` along (df, dr)
/// exactly when `a` is seen from `b` along the opposite direction.
pub proof fn lemma_ray_symmetric(a: int, b: int, occ: spec_fn(int) -> bool, df: int, dr: int)
    requires
        0 <= a < 64,
        0 <= b < 64,
        -1 <= df <= 1,
        -1 <= dr <= 1,
        df != 0 || dr != 0,
    ensures
        ray_attack(a, occ, df, dr, b) == ray_attack(b, occ, -df, -dr, a),
{
    lemma_ray_symmetric_dir(a, b, occ, df, dr);
    lemma_ray_symmetric_dir(b, a, occ, -df, -dr);
    assert(-(-df) == df && -(-dr) == dr);
}

proof fn lemma_ray_symmetric_dir(a: int, b: int, occ: spec_fn(int) -> bool, df: int, dr: int)
    requires
        0 <= a < 64,
        0 <= b < 64,
        -1 <= df <= 1,
        -1 <= dr <= 1,
        df != 0 || dr != 0,
    ensures
        ray_attack(a, occ, df, dr, b) ==> ray_attack(b, occ, -df, -dr, a),
{
    let fa = file_spec(a);
    let ra = rank_spec(a);
    let fb = file_spec(b);
    let rb = rank_spec(b);
    lemma_ray_closed(fa, ra, df, dr, occ, b, 7);
    lemma_ray_closed(fb, rb, -df, -dr, occ, a, 7);
    if ray_attack(a, occ, df, dr, b) {
        let k = choose|k: int| k <= 7 && #[trigger] ray_reach(fa, ra, df, dr, occ, b, k);
        assert(fb == fa + k * df && rb == ra + k * dr);
        assert forall|j: int| 1 <= j < k implies #[trigger] ray_on(fb, rb, -df, -dr, j) && !occ(ray_sq(fb, rb, -df, -dr, j)) by {
            assert(fb + j * (-df) == fa + (k - j) * df) by (nonlinear_arith)
                requires
                    fb == fa + k * df,
            ;
            assert(rb + j * (-dr) == ra + (k - j) * dr) by (nonlinear_arith)
                requires
                    rb == ra + k * dr,
            ;
            assert(ray_on(fa, ra, df, dr, k - j));
        }
        assert(fb + k * (-df) == fa) by (nonlinear_arith)
            requires
                fb == fa + k * df,
        ;
        assert(rb + k * (-dr) == ra) by (nonlinear_arith)
            requires
                rb == ra + k * dr,
        ;
        assert(ray_reach(fb, rb, -df, -dr, occ, a, k));
    }
}

/// Rays only look at squares on the board, so occupancies that agree there give the same rays.
pub proof fn lemma_ray_congruent(file: int, rank: int, df: int, dr: int, o1: spec_fn(int) -> bool, o2: spec_fn(int) -> bool, s: int, n: nat)
    requires
        forall|t: int| 0 <= t < 64 ==> #[trigger] o1(t) == o2(t),
    ensures
        ray_hits(file, rank, df, dr, o1, s, n) == ray_hits(file, rank, df, dr, o2, s, n),
    decreases n,
{
    if n > 0 {
        lemma_ray_congruent(file + df, rank + dr, df, dr, o1, o2, s, (n - 1) as nat);
    }
}


/// Leaper attacks are symmetric; a pawn's attack is mirrored by the other color's pawn.
pub proof fn lemma_leaper_symmetric(a: int, b: int, c: Color)
    ensures
        knight_step(a, b) == knight_step(b, a),
        king_step(a, b) == king_step(b, a),
        pawn_step(c, a, b) == pawn_step(c.other(), b, a),
{
}

/// Bishop and rook attacks are symmetric (their direction sets are closed under reversal).
pub proof fn lemma_slider_symmetric(a: int, b: int, occ: spec_fn(int) -> bool)
    requires
        0 <= a < 64,
        0 <= b < 64,
    ensures
        bishop_attack(a, occ, b) == bishop_attack(b, occ, a),
        rook_attack(a, occ, b) == rook_attack(b, occ, a),
        queen_attack(a, occ, b) == queen_attack(b, occ, a),
{
    lemma_ray_symmetric(a, b, occ, 1, 1);
    lemma_ray_symmetric(a, b, occ, 1, -1);
    lemma_ray_symmetric(a, b, occ, -1, 1);
    lemma_ray_symmetric(a, b, occ, -1, -1);
    lemma_ray_symmetric(a, b, occ, 1, 0);
    lemma_ray_symmetric(a, b, occ, -1, 0);
    lemma_ray_symmetric(a, b, occ, 0, 1);
    lemma_ray_symmetric(a, b, occ, 0, -1);
}

/// Slider attacks depend on the occupancy of the board squares only.
pub proof fn lemma_slider_congruent(a: int, b: int, o1: spec_fn(int) -> bool, o2: spec_fn(int) -> bool)
    requires
        forall|t: int| 0 <= t < 64 ==> #[trigger] o1(t) == o2(t),
    ensures
        bishop_attack(a, o1, b) == bishop_attack(a, o2, b),
        rook_attack(a, o1, b) == rook_attack(a, o2, b),
        queen_attack(a, o1, b) == queen_attack(a, o2, b),
{
    let f = file_spec(a);
    let r = rank_spec(a);
    lemma_ray_congruent(f, r, 1, 1, o1, o2, b, 7);
    lemma_ray_congruent(f, r, 1, -1, o1, o2, b, 7);
    lemma_ray_congruent(f, r, -1, 1, o1, o2, b, 7);
    lemma_ray_congruent(f, r, -1, -1, o1, o2, b, 7);
    lemma_ray_congruent(f, r, 1, 0, o1, o2, b, 7);
    lemma_ray_congruent(f, r, -1, 0, o1, o2, b, 7);
    lemma_ray_congruent(f, r, 0, 1, o1, o2, b, 7);
    lemma_ray_congruent(f, r, 0, -1, o1, o2, b, 7);
}

#[inline]
fn bit(sq: i32) -> (b: Bitboard)
    requires
        0 <= sq < 64,
    ensures
        forall|s: int| 0 <= s < 64 ==> #[trigger] has_sq(b, s) == (s == sq),
{
    let b = 1u64 << (sq as u64);
    proof {
        assert forall|s: int| 0 <= s < 64 implies #[trigger] has_sq(b, s) == (s == sq) by {
            lemma_single(sq as u64, s as u64);
        }
    }
    b
}

/// True if (file,rank) is on the board.
#[inline]
fn on_board(file: i32, rank: i32) -> (r: bool)
    ensures
        r == on_board_spec(file as int, rank as int),
{
    0 <= file && file < 8 && 0 <= rank && rank < 8
}

/// `acc` with the square at (file, rank) added when that is on the board.
fn add_target(acc: Bitboard, file: i32, rank: i32) -> (r: Bitboard)
    requires
        -8 <= file <= 16,
        -8 <= rank <= 16,
    ensures
        forall|s: int|
            0 <= s < 64 ==> #[trigger] has_sq(r, s) == (has_sq(acc, s) || (on_board_spec(
                file as int,
                rank as int,
            ) && s == square_spec(file as int, rank as int))),
{
    if on_board(file, rank) {
        let t = bit(rank * 8 + file);
        let r = acc | t;
        proof {
            assert forall|s: int| 0 <= s < 64 implies #[trigger] has_sq(r, s) == (has_sq(acc, s) || s
                == square_spec(file as int, rank as int)) by {
                lemma_or(acc, t, s as u64);
            }
        }
        r
    } else {
        acc
    }
}

proof fn lemma_step_square(sq: int, df: int, dr: int, s: int)
    requires
        0 <= sq < 64,
        0 <= s < 64,
        -2 <= df <= 2,
        -2 <= dr <= 2,
    ensures
        (on_board_spec(file_spec(sq) + df, rank_spec(sq) + dr) && s == square_spec(
            file_spec(sq) + df,
            rank_spec(sq) + dr,
        )) == (dfile(sq, s) == df && drank(sq, s) == dr),
{
}

#[inline]
pub fn knight_attacks(sq: Square) -> (b: Bitboard)
    requires
        sq < 64,
    ensures
        forall|s: int| 0 <= s < 64 ==> #[trigger] has_sq(b, s) == knight_step(sq as int, s),
{
    let f = file_of(sq) as i32;
    let r = rank_of(sq) as i32;
    let mut a: u64 = 0;
    a = add_target(a, f + 1, r + 2);
    a = add_target(a, f + 2, r + 1);
    a = add_target(a, f + 2, r - 1);
    a = add_target(a, f + 1, r - 2);
    a = add_target(a, f - 1, r - 2);
    a = add_target(a, f - 2, r - 1);
    a = add_target(a, f - 2, r + 1);
    a = add_target(a, f - 1, r + 2);
    proof {
        assert forall|s: int| 0 <= s < 64 implies #[trigger] has_sq(a, s) == knight_step(sq as int, s) by {
            lemma_empty(s as u64);
            lemma_step_square(sq as int, 1, 2, s);
            lemma_step_square(sq as int, 2, 1, s);
            lemma_step_square(sq as int, 2, -1, s);
            lemma_step_square(sq as int, 1, -2, s);
            lemma_step_square(sq as int, -1, -2, s);
            lemma_step_square(sq as int, -2, -1, s);
            lemma_step_square(sq as int, -2, 1, s);
            lemma_step_square(sq as int, -1, 2, s);
        }
    }
    a
}

#[inline]
pub fn king_attacks(sq: Square) -> (b: Bitboard)
    requires
        sq < 64,
    ensures
        forall|s: int| 0 <= s < 64 ==> #[trigger] has_sq(b, s) == king_step(sq as int, s),
{
    let f = file_of(sq) as i32;
    let r = rank_of(sq) as i32;
    let mut a: u64 = 0;
    a = add_target(a, f + 1, r);
    a = add_target(a, f + 1, r + 1);
    a = add_target(a, f, r + 1);
    a = add_target(a, f - 1, r + 1);
    a = add_target(a, f - 1, r);
    a = add_target(a, f - 1, r - 1);
    a = add_target(a, f, r - 1);
    a = add_target(a, f + 1, r - 1);
    proof {
        assert forall|s: int| 0 <= s < 64 implies #[trigger] has_sq(a, s) == king_step(sq as int, s) by {
            lemma_empty(s as u64);
            lemma_step_square(sq as int, 1, 0, s);
            lemma_step_square(sq as int, 1, 1, s);
            lemma_step_square(sq as int, 0, 1, s);
            lemma_step_square(sq as int, -1, 1, s);
            lemma_step_square(sq as int, -1, 0, s);
            lemma_step_square(sq as int, -1, -1, s);
            lemma_step_square(sq as int, 0, -1, s);
            lemma_step_square(sq as int, 1, -1, s);
        }
    }
    a
}

#[inline]
pub fn pawn_attacks(color: Color, sq: Square) -> (b: Bitboard)
    requires
        sq < 64,
    ensures
        forall|s: int| 0 <= s < 64 ==> #[trigger] has_sq(b, s) == pawn_step(color, sq as int, s),
{
    let f = file_of(sq) as i32;
    let r = rank_of(sq) as i32;
    let dr: i32 = match color {
        Color::White => 1,
        Color::Black => -1,
    };
    let mut a: u64 = 0;
    a = add_target(a, f - 1, r + dr);
    a = add_target(a, f + 1, r + dr);
    proof {
        assert forall|s: int| 0 <= s < 64 implies #[trigger] has_sq(a, s) == pawn_step(color, sq as int, s) by {
            lemma_empty(s as u64);
            lemma_step_square(sq as int, -1, dr as int, s);
            lemma_step_square(sq as int, 1, dr as int, s);
        }
    }
    a
}

/// The attacks of a slider on `sq` along one direction.
fn ray_dir(sq: Square, occ: Bitboard, df: i32, dr: i32) -> (b: Bitboard)
    requires
        sq < 64,
        -1 <= df <= 1,
        -1 <= dr <= 1,
    ensures
        forall|s: int| 0 <= s < 64 ==> #[trigger] has_sq(b, s) == ray_attack(sq as int, bb_fn(occ), df as int, dr as int, s),
{
    let f0 = file_of(sq) as i32;
    let r0 = rank_of(sq) as i32;
    let mut attacks: u64 = 0;
    let mut f = f0 + df;
    let mut r = r0 + dr;
    let mut i: u32 = 0;
    let ghost mut cf: int = f0 as int;
    let ghost mut cr: int = r0 as int;
    let ghost mut n: nat = 7;
    proof {
        assert forall|s: int| 0 <= s < 64 implies #[trigger] has_sq(attacks, s) == false by {
            lemma_empty(s as u64);
        }
    }
    while on_board(f, r) && i < 7
        invariant_except_break
            0 <= cf < 8,
            0 <= cr < 8,
            f == cf + df,
            r == cr + dr,
            i <= 7,
            n == 7 - i,
            -1 <= df <= 1,
            -1 <= dr <= 1,
            forall|s: int|
                0 <= s < 64 ==> (ray_attack(sq as int, bb_fn(occ), df as int, dr as int, s) == (#[trigger] has_sq(
                    attacks,
                    s,
                ) || ray_hits(cf, cr, df as int, dr as int, bb_fn(occ), s, n))),
        ensures
            forall|s: int|
                0 <= s < 64 ==> (ray_attack(sq as int, bb_fn(occ), df as int, dr as int, s) == #[trigger] has_sq(
                    attacks,
                    s,
                )),
        decreases 7 - i,
    {
        let t = bit(r * 8 + f);
        let new_attacks = attacks | t;
        proof {
            assert forall|s: int| 0 <= s < 64 implies #[trigger] has_sq(new_attacks, s) == (has_sq(attacks, s)
                || s == r * 8 + f) by {
                lemma_or(attacks, t, s as u64);
            }
        }
        let ghost old_attacks = attacks;
        attacks = new_attacks;
        let blocked = occ & t != 0;
        let ghost k: int = (r * 8 + f) as int;
        proof {
            lemma_intersects(occ, t);
            assert(has_sq(t, k));
            if has_sq(occ, k) {
                assert(0 <= k < 64 && has_sq(occ, k) && has_sq(t, k));
            }
            assert(blocked == has_sq(occ, k));
            assert forall|s: int| 0 <= s < 64 implies #[trigger] ray_hits(cf, cr, df as int, dr as int, bb_fn(occ), s, n)
                == (s == k || (!blocked && ray_hits(f as int, r as int, df as int, dr as int, bb_fn(occ), s, (n - 1) as nat))) by {
            }
        }
        if blocked {
            // The blocking square itself is included.
            break;
        }
        let ghost old_n = n;
        assert forall|s: int| 0 <= s < 64 implies #[trigger] ray_attack(sq as int, bb_fn(occ), df as int, dr as int, s) == (has_sq(old_attacks, s) || ray_hits(
                    cf, cr, df as int, dr as int, bb_fn(occ), s, n)) by {}
        let ghost old_cf = cf;
        let ghost old_cr = cr;
        f = f + df;
        r = r + dr;
        i = i + 1;
        proof {
            cf = cf + df;
            cr = cr + dr;
            n = (n - 1) as nat;
            assert(n == (old_n - 1) as nat);
            assert forall|s: int| 0 <= s < 64 implies (ray_attack(sq as int, bb_fn(occ), df as int, dr as int, s) == (
            #[trigger] has_sq(attacks, s) || ray_hits(cf, cr, df as int, dr as int, bb_fn(occ), s, n))) by {
                assert(has_sq(attacks, s) == (has_sq(old_attacks, s) || s == k));
                assert(ray_attack(sq as int, bb_fn(occ), df as int, dr as int, s) == (has_sq(old_attacks, s) || ray_hits(
                    old_cf, old_cr, df as int, dr as int, bb_fn(occ), s, old_n)));
                assert(ray_hits(old_cf, old_cr, df as int, dr as int, bb_fn(occ), s, old_n) == (s == k
                    || ray_hits(cf, cr, df as int, dr as int, bb_fn(occ), s, (old_n - 1) as nat)));
            }
        }
    }
    attacks
}

#[inline]
fn ray_attacks(sq: Square, occ: Bitboard, diagonal: bool) -> (b: Bitboard)
    requires
        sq < 64,
    ensures
        diagonal ==> forall|s: int| 0 <= s < 64 ==> #[trigger] has_sq(b, s) == bishop_attack(sq as int, bb_fn(occ), s),
        !diagonal ==> forall|s: int| 0 <= s < 64 ==> #[trigger] has_sq(b, s) == rook_attack(sq as int, bb_fn(occ), s),
{
    let (a, b, c, d) = if diagonal {
        (ray_dir(sq, occ, 1, 1), ray_dir(sq, occ, 1, -1), ray_dir(sq, occ, -1, 1), ray_dir(sq, occ, -1, -1))
    } else {
        (ray_dir(sq, occ, 1, 0), ray_dir(sq, occ, -1, 0), ray_dir(sq, occ, 0, 1), ray_dir(sq, occ, 0, -1))
    };
    let res = a | b | c | d;
    proof {
        assert forall|s: int| 0 <= s < 64 implies #[trigger] has_sq(res, s) == (has_sq(a, s) || has_sq(b, s)
            || has_sq(c, s) || has_sq(d, s)) by {
            lemma_or(a, b, s as u64);
            lemma_or(a | b, c, s as u64);
            lemma_or(a | b | c, d, s as u64);
        }
    }
    res
}

#[inline]
pub fn bishop_attacks(sq: Square, occ: Bitboard) -> (b: Bitboard)
    requires
        sq < 64,
    ensures
        forall|s: int| 0 <= s < 64 ==> #[trigger] has_sq(b, s) == bishop_attack(sq as int, bb_fn(occ), s),
{
    ray_attacks(sq, occ, true)
}

#[inline]
pub fn rook_attacks(sq: Square, occ: Bitboard) -> (b: Bitboard)
    requires
        sq < 64,
    ensures
        forall|s: int| 0 <= s < 64 ==> #[trigger] has_sq(b, s) == rook_attack(sq as int, bb_fn(occ), s),
{
    ray_attacks(sq, occ, false)
}

#[inline]
pub fn queen_attacks(sq: Square, occ: Bitboard) -> (b: Bitboard)
    requires
        sq < 64,
    ensures
        forall|s: int| 0 <= s < 64 ==> #[trigger] has_sq(b, s) == queen_attack(sq as int, bb_fn(occ), s),
{
    let x = ray_attacks(sq, occ, true);
    let y = ray_attacks(sq, occ, false);
    let res = x | y;
    proof {
        assert forall|s: int| 0 <= s < 64 implies #[trigger] has_sq(res, s) == queen_attack(sq as int, bb_fn(occ), s) by {
            lemma_or(x, y, s as u64);
        }
    }
    res
}

} // verus!
