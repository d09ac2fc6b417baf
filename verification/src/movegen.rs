//! Pseudo-legal move generation followed by a legality filter
//! (make the move, reject if it leaves the mover's king in check).
use crate::bitboard::{has_sq, lemma_and, lemma_clear_lowest, lemma_nonzero, lemma_not};
use crate::position::{
    attacked, cap_square, has_king, is_castling_flag, is_king_of, kind_on, king_square, lemma_unmake_inverts_make, lowest_king, make_view, move_ok, occupied, owned_by, view_ok, BoardView, Position, CR_BK, CR_BQ, CR_WK, CR_WQ,
};
use crate::tables::{
    bb_fn, bishop_attack, bishop_attacks, king_attacks, king_step, knight_attacks, knight_step,
    lemma_slider_congruent, pawn_attacks, pawn_step, queen_attack, queen_attacks, rook_attack,
    rook_attacks,
};
use crate::types::{
    lemma_mk_move_fields, lemma_move_decompose, mk_move, rank_of, rank_spec, Bitboard, Color, Move,
    PieceType, Square, FLAG_CAPTURE, FLAG_DOUBLE_PAWN, FLAG_EP_CAPTURE, FLAG_KING_CASTLE,
    FLAG_PROMO_B, FLAG_PROMO_B_CAP, FLAG_PROMO_N, FLAG_PROMO_N_CAP, FLAG_PROMO_Q, FLAG_PROMO_Q_CAP,
    FLAG_PROMO_R, FLAG_PROMO_R_CAP, FLAG_QUEEN_CASTLE, FLAG_QUIET,
};
use vstd::prelude::*;
use vstd::std_specs::bits::u64_trailing_zeros;

verus! {

pub type MoveList = Vec<Move>;


/// A move from the side to move's piece to `to` with `flag`: an empty square
/// with the quiet flag, or an enemy piece with the capture flag.
pub open spec fn target_ok(v: BoardView, to: int, flag: int) -> bool {
    &&& !owned_by(v.squares[to], v.side)
    &&& flag == (if owned_by(v.squares[to], v.side.other()) { 4int } else { 0int })
}

pub open spec fn pawn_dir(c: Color) -> int {
    if c == Color::White { 8 } else { -8 }
}

pub open spec fn pawn_start_rank(c: Color) -> int {
    if c == Color::White { 1 } else { 6 }
}

/// The rank from which a pawn push promotes.
pub open spec fn pawn_promo_rank(c: Color) -> int {
    if c == Color::White { 6 } else { 1 }
}

pub open spec fn promo_flag(flag: int, capture: bool) -> bool {
    if capture {
        12 <= flag <= 15
    } else {
        8 <= flag <= 11
    }
}

/// The pawn moves of the side to move from `from`: single and double pushes
/// onto empty squares, diagonal captures of enemy pieces (all four promotions
/// from the rank before the last) and the capture onto the en-passant target.
pub open spec fn pawn_move(v: BoardView, from: int, to: int, flag: int) -> bool {
    let us = v.side;
    let r = rank_spec(from);
    let one = from + pawn_dir(us);
    ||| to == one && 0 <= one < 64 && v.squares[one] is None && (if r == pawn_promo_rank(us) {
        promo_flag(flag, false)
    } else {
        flag == 0
    })
    ||| to == one + pawn_dir(us) && 0 <= one < 64 && v.squares[one] is None && r != pawn_promo_rank(us) && r == pawn_start_rank(us)
        && v.squares[to] is None && flag == 1
    ||| pawn_step(us, from, to) && owned_by(v.squares[to], us.other()) && (if r == pawn_promo_rank(us) {
        promo_flag(flag, true)
    } else {
        flag == 4
    })
    ||| v.ep matches Some(e) && e == to && pawn_step(us, from, to) && flag == 5
}

/// The moves of the piece on `from`, by its kind. Only the king on the king
/// square (the lowest, should there be several) moves as a king.
pub open spec fn piece_move(v: BoardView, from: int, to: int, flag: int) -> bool {
    let occ = occupied(v);
    match kind_on(v, from) {
        PieceType::Pawn => pawn_move(v, from, to, flag),
        PieceType::Knight => knight_step(from, to) && target_ok(v, to, flag),
        PieceType::Bishop => bishop_attack(from, occ, to) && target_ok(v, to, flag),
        PieceType::Rook => rook_attack(from, occ, to) && target_ok(v, to, flag),
        PieceType::Queen => queen_attack(from, occ, to) && target_ok(v, to, flag),
        PieceType::King => from == king_square(v, v.side) && king_step(from, to) && target_ok(v, to, flag),
    }
}

/// A castling move: the king is not in check, the right is held, the squares
/// between king and rook are empty and the king does not pass through an
/// attacked square.
pub open spec fn castle_move(v: BoardView, m: Move) -> bool {
    let us = v.side;
    let them = us.other();
    let e = occupied(v);
    &&& !attacked(v, king_square(v, us), them)
    &&& if us == Color::White {
        ||| m == mk_move(4, 6, 2) && v.castling & 1 != 0 && !e(5) && !e(6) && !attacked(v, 5, them) && !attacked(v, 6, them)
        ||| m == mk_move(4, 2, 3) && v.castling & 2 != 0 && !e(1) && !e(2) && !e(3) && !attacked(v, 3, them) && !attacked(v, 2, them)
    } else {
        ||| m == mk_move(60, 62, 2) && v.castling & 4 != 0 && !e(61) && !e(62) && !attacked(v, 61, them) && !attacked(v, 62, them)
        ||| m == mk_move(60, 58, 3) && v.castling & 8 != 0 && !e(57) && !e(58) && !e(59) && !attacked(v, 59, them)
            && !attacked(v, 58, them)
    }
}

/// The king-side and queen-side castling moves of the side to move of `v`.
pub open spec fn castle_pair(v: BoardView) -> (Move, Move) {
    if v.side == Color::White {
        (mk_move(4, 6, 2), mk_move(4, 2, 3))
    } else {
        (mk_move(60, 62, 2), mk_move(60, 58, 3))
    }
}

/// The castling moves of `v` in the order they are generated: king side,
/// then queen side.
pub open spec fn castle_list(v: BoardView) -> Seq<Move> {
    let (ks, qs) = castle_pair(v);
    (if castle_move(v, ks) { seq![ks] } else { Seq::empty() }) + (if castle_move(v, qs) { seq![qs] } else { Seq::empty() })
}

/// The castling moves are distinct castling moves that no piece move matches.
proof fn lemma_castle_fields(v: BoardView)
    ensures
        castle_pair(v).0 != castle_pair(v).1,
        is_castling_flag(castle_pair(v).0.flag_bits()),
        is_castling_flag(castle_pair(v).1.flag_bits()),
        castle_pair(v).0.flag_bits() == 2,
        castle_pair(v).1.flag_bits() == 3,
{
    lemma_mk_move_fields(4, 6, 2);
    lemma_mk_move_fields(4, 2, 3);
    lemma_mk_move_fields(60, 62, 2);
    lemma_mk_move_fields(60, 58, 3);
}

/// A list of at most the two castling moves, king side first, holding each
/// exactly when it is a castling move, is `castle_list`.
proof fn lemma_castle_list(v: BoardView, s: Seq<Move>)
    requires
        castle_pair(v).0 != castle_pair(v).1,
        s == Seq::<Move>::empty() || s == seq![castle_pair(v).0] || s == seq![castle_pair(v).1] || s == seq![
            castle_pair(v).0,
            castle_pair(v).1,
        ],
        s.contains(castle_pair(v).0) <==> castle_move(v, castle_pair(v).0),
        s.contains(castle_pair(v).1) <==> castle_move(v, castle_pair(v).1),
    ensures
        s == castle_list(v),
{
    let ks = castle_pair(v).0;
    let qs = castle_pair(v).1;
    let sk = seq![ks];
    let sq = seq![qs];
    assert(sk[0] == ks);
    assert(sk.contains(ks));
    assert(sq[0] == qs);
    assert(sq.contains(qs));
    assert(seq![ks, qs][0] == ks && seq![ks, qs][1] == qs);
    assert(seq![ks, qs].contains(ks) && seq![ks, qs].contains(qs));
    assert(!seq![ks].contains(qs)) by {
        if seq![ks].contains(qs) {
            let i = choose|i: int| 0 <= i < 1 && seq![ks][i] == qs;
        }
    }
    assert(!seq![qs].contains(ks)) by {
        if seq![qs].contains(ks) {
            let i = choose|i: int| 0 <= i < 1 && seq![qs][i] == ks;
        }
    }
    assert(!Seq::<Move>::empty().contains(ks) && !Seq::<Move>::empty().contains(qs));
    assert(Seq::<Move>::empty() + seq![ks] =~= seq![ks]);
    assert(Seq::<Move>::empty() + seq![qs] =~= seq![qs]);
    assert(seq![ks] + Seq::<Move>::empty() =~= seq![ks]);
    assert(seq![ks] + seq![qs] =~= seq![ks, qs]);
    assert(Seq::<Move>::empty() + Seq::<Move>::empty() =~= Seq::<Move>::empty());
}

/// A pseudo-legal move: it may still leave the mover's king attacked.
pub open spec fn pseudo_move(v: BoardView, m: Move) -> bool {
    ||| owned_by(v.squares[m.from_sq()], v.side) && piece_move(v, m.from_sq(), m.to_sq(), m.flag_bits())
    ||| castle_move(v, m)
}

/// A legal move: pseudo-legal and the mover's king is not attacked afterwards.
pub open spec fn legal_move(v: BoardView, m: Move) -> bool {
    let w = make_view(v, m);
    pseudo_move(v, m) && !attacked(w, king_square(w, v.side), v.side.other())
}

/// The order in which moves are generated: by the kind of the moving piece, castling last.
pub open spec fn move_stage(v: BoardView, m: Move) -> int {
    if is_castling_flag(m.flag_bits()) {
        7
    } else {
        kind_on(v, m.from_sq()).idx() + 1
    }
}

/// The list holds, once each, the pseudo-legal moves of the stages up to `k`.
pub open spec fn gen_ok(v: BoardView, l: Seq<Move>, k: int) -> bool {
    &&& l.no_duplicates()
    &&& forall|m: Move| #[trigger] l.contains(m) <==> (pseudo_move(v, m) && move_stage(v, m) <= k)
}

/// The list holds, once each, the pseudo-legal moves of the stages `lo` to `hi`.
pub open spec fn gen_seg(v: BoardView, l: Seq<Move>, lo: int, hi: int) -> bool {
    &&& l.no_duplicates()
    &&& forall|m: Move| #[trigger] l.contains(m) <==> (pseudo_move(v, m) && lo <= move_stage(v, m) <= hi)
}

/// The moves of `l` come stage by stage.
pub open spec fn stage_sorted(v: BoardView, l: Seq<Move>) -> bool {
    forall|i: int, j: int| 0 <= i < j < l.len() ==> move_stage(v, #[trigger] l[i]) <= move_stage(v, #[trigger] l[j])
}

/// `b` is `a` followed by the pseudo-legal moves of the stages `lo` to `hi`,
/// once each, stage by stage.
pub open spec fn appended(v: BoardView, a: Seq<Move>, b: Seq<Move>, lo: int, hi: int) -> bool {
    &&& a.len() <= b.len()
    &&& b.subrange(0, a.len() as int) == a
    &&& gen_seg(v, b.subrange(a.len() as int, b.len() as int), lo, hi)
    &&& stage_sorted(v, b.subrange(a.len() as int, b.len() as int))
    &&& stage_square_order(v, b.subrange(a.len() as int, b.len() as int))
}

/// Every move is of a stage from one to seven.
proof fn lemma_stage_range(v: BoardView, m: Move)
    ensures
        1 <= move_stage(v, m) <= 7,
{
    match kind_on(v, m.from_sq()) {
        PieceType::Pawn => {},
        PieceType::Knight => {},
        PieceType::Bishop => {},
        PieceType::Rook => {},
        PieceType::Queen => {},
        PieceType::King => {},
    }
}

/// An empty list holds the moves of an empty range of stages.
proof fn lemma_seg_empty(v: BoardView, lo: int)
    ensures
        gen_seg(v, Seq::<Move>::empty(), lo, lo - 1),
{
}

/// Appending the moves of one stage to a list.
proof fn lemma_appended(v: BoardView, a: Seq<Move>, seg: Seq<Move>, k: int)
    requires
        gen_seg(v, seg, k, k),
        2 <= k <= 6 ==> square_order(seg),
        k == 1 ==> origin_order(seg),
    ensures
        appended(v, a, a + seg, k, k),
{
    assert((a + seg).subrange(0, a.len() as int) =~= a);
    assert((a + seg).subrange(a.len() as int, (a + seg).len() as int) =~= seg);
    assert forall|i: int, j: int| 0 <= i < j < seg.len() implies move_stage(v, #[trigger] seg[i]) <= move_stage(
        v,
        #[trigger] seg[j],
    ) by {
        assert(seg.contains(seg[i]));
        assert(seg.contains(seg[j]));
    }
    assert forall|i: int, j: int| 0 <= i < j < seg.len() && move_stage(v, #[trigger] seg[i]) == move_stage(v, #[trigger] seg[j]) implies {
        &&& 2 <= move_stage(v, seg[i]) <= 6 ==> seg[i].from_sq() < seg[j].from_sq() || (seg[i].from_sq() == seg[j].from_sq()
            && seg[i].to_sq() < seg[j].to_sq())
        &&& move_stage(v, seg[i]) == 1 ==> seg[i].from_sq() <= seg[j].from_sq()
    } by {
        assert(seg.contains(seg[i]));
    }
}

/// Two appended segments of adjacent stage ranges make one.
proof fn lemma_appended_chain(v: BoardView, a: Seq<Move>, b: Seq<Move>, c: Seq<Move>, l1: int, h1: int, h2: int)
    requires
        appended(v, a, b, l1, h1),
        appended(v, b, c, h1 + 1, h2),
        l1 <= h1 + 1,
        h1 <= h2,
    ensures
        appended(v, a, c, l1, h2),
{
    let s1 = b.subrange(a.len() as int, b.len() as int);
    let s2 = c.subrange(b.len() as int, c.len() as int);
    let s = c.subrange(a.len() as int, c.len() as int);
    assert(s =~= s1 + s2) by {
        assert(c.subrange(0, b.len() as int) == b);
        assert forall|i: int| 0 <= i < s.len() implies s[i] == (s1 + s2)[i] by {
            if i < s1.len() {
                assert(c.subrange(0, b.len() as int)[a.len() + i] == c[a.len() + i]);
            }
        }
    }
    assert(c.subrange(0, a.len() as int) =~= a) by {
        assert forall|i: int| 0 <= i < a.len() implies c.subrange(0, a.len() as int)[i] == a[i] by {
            assert(c.subrange(0, b.len() as int)[i] == c[i]);
            assert(b.subrange(0, a.len() as int)[i] == b[i]);
        }
    }
    assert forall|i: int, j: int| 0 <= i < s1.len() && 0 <= j < s2.len() implies s1[i] != s2[j] by {
        assert(s1.contains(s1[i]));
        assert(s2.contains(s2[j]));
    }
    vstd::seq_lib::lemma_no_dup_in_concat(s1, s2);
    assert forall|i: int, j: int| 0 <= i < j < s.len() && move_stage(v, #[trigger] s[i]) == move_stage(v, #[trigger] s[j]) implies {
        &&& 2 <= move_stage(v, s[i]) <= 6 ==> s[i].from_sq() < s[j].from_sq() || (s[i].from_sq() == s[j].from_sq() && s[i].to_sq() < s[j].to_sq())
        &&& move_stage(v, s[i]) == 1 ==> s[i].from_sq() <= s[j].from_sq()
    } by {
        assert(s[i] == (s1 + s2)[i]);
        assert(s[j] == (s1 + s2)[j]);
        if j < s1.len() {
            assert(s1[i] == s[i] && s1[j] == s[j]);
        } else if i >= s1.len() {
            assert(s2[i - s1.len()] == s[i] && s2[j - s1.len()] == s[j]);
        } else {
            assert(s1[i] == s[i] && s2[j - s1.len()] == s[j]);
            assert(s1.contains(s1[i]));
            assert(s2.contains(s2[j - s1.len()]));
        }
    }
    assert forall|i: int, j: int| 0 <= i < j < s.len() implies move_stage(v, #[trigger] s[i]) <= move_stage(v, #[trigger] s[j]) by {
        assert(s[i] == (s1 + s2)[i]);
        assert(s[j] == (s1 + s2)[j]);
        if j < s1.len() {
            assert(s1[i] == s[i] && s1[j] == s[j]);
        } else if i >= s1.len() {
            assert(s2[i - s1.len()] == s[i] && s2[j - s1.len()] == s[j]);
        } else {
            assert(s1[i] == s[i] && s2[j - s1.len()] == s[j]);
            assert(s1.contains(s1[i]));
            assert(s2.contains(s2[j - s1.len()]));
        }
    }
    assert forall|m: Move| #[trigger] s.contains(m) <==> (pseudo_move(v, m) && l1 <= move_stage(v, m) <= h2) by {
        if s.contains(m) {
            let i = choose|i: int| 0 <= i < s.len() && s[i] == m;
            assert((s1 + s2)[i] == m);
            if i < s1.len() {
                assert(s1[i] == m);
                assert(s1.contains(m));
            } else {
                assert(s2[i - s1.len()] == m);
                assert(s2.contains(m));
            }
        }
        if pseudo_move(v, m) && l1 <= move_stage(v, m) <= h2 {
            if move_stage(v, m) <= h1 {
                assert(s1.contains(m));
                let i = choose|i: int| 0 <= i < s1.len() && s1[i] == m;
                assert((s1 + s2)[i] == m);
            } else {
                assert(s2.contains(m));
                let j = choose|j: int| 0 <= j < s2.len() && s2[j] == m;
                assert((s1 + s2)[s1.len() + j] == m);
            }
        }
    }
}

/// The attack set of a knight or slider of kind `kind` on `from`.
pub open spec fn kind_attack(kind: PieceType, from: int, occ: spec_fn(int) -> bool, to: int) -> bool {
    match kind {
        PieceType::Knight => knight_step(from, to),
        PieceType::Bishop => bishop_attack(from, occ, to),
        PieceType::Rook => rook_attack(from, occ, to),
        _ => queen_attack(from, occ, to),
    }
}

/// The moves come by origin square, and from one square by target square,
/// both ascending.
pub open spec fn square_order(l: Seq<Move>) -> bool {
    forall|i: int, j: int|
        0 <= i < j < l.len() ==> (#[trigger] l[i]).from_sq() < (#[trigger] l[j]).from_sq() || (l[i].from_sq() == l[j].from_sq()
            && l[i].to_sq() < l[j].to_sq())
}

/// The moves come by ascending origin square.
pub open spec fn origin_order(l: Seq<Move>) -> bool {
    forall|i: int, j: int| 0 <= i < j < l.len() ==> (#[trigger] l[i]).from_sq() <= (#[trigger] l[j]).from_sq()
}

/// The pawn moves come by ascending origin square, and the knight, bishop,
/// rook, queen and king moves of one stage in `square_order`.
pub open spec fn stage_square_order(v: BoardView, l: Seq<Move>) -> bool {
    forall|i: int, j: int|
        0 <= i < j < l.len() && move_stage(v, #[trigger] l[i]) == move_stage(v, #[trigger] l[j]) ==> {
            &&& 2 <= move_stage(v, l[i]) <= 6 ==> l[i].from_sq() < l[j].from_sq() || (l[i].from_sq() == l[j].from_sq() && l[i].to_sq()
                < l[j].to_sq())
            &&& move_stage(v, l[i]) == 1 ==> l[i].from_sq() <= l[j].from_sq()
        }
}

/// Promotions of one pawn to one square come queen, rook, bishop, knight:
/// in decreasing order of their flags.
pub open spec fn promo_order(l: Seq<Move>) -> bool {
    forall|i: int, j: int|
        0 <= i < j < l.len() && (#[trigger] l[i]).promotes() && (#[trigger] l[j]).promotes() && l[i].from_sq() == l[j].from_sq()
            && l[i].to_sq() == l[j].to_sq() ==> l[i].flag_bits() > l[j].flag_bits()
}

/// Appending a move that is no promotion, or a promotion below every earlier
/// one of the same pawn to the same square, keeps the promotion order.
proof fn lemma_promo_push(l: Seq<Move>, m: Move)
    requires
        promo_order(l),
        m.promotes() ==> forall|i: int|
            0 <= i < l.len() && (#[trigger] l[i]).promotes() && l[i].from_sq() == m.from_sq() && l[i].to_sq() == m.to_sq()
                ==> l[i].flag_bits() > m.flag_bits(),
    ensures
        promo_order(l.push(m)),
{
    let t = l.push(m);
    assert forall|i: int, j: int|
        0 <= i < j < t.len() && (#[trigger] t[i]).promotes() && (#[trigger] t[j]).promotes() && t[i].from_sq() == t[j].from_sq()
            && t[i].to_sq() == t[j].to_sq() implies t[i].flag_bits() > t[j].flag_bits() by {
        assert(t[i] == l[i]);
        if j < l.len() {
            assert(t[j] == l[j]);
        }
    }
}

/// A list without promotions appended to one in promotion order keeps it.
proof fn lemma_promo_concat(a: Seq<Move>, b: Seq<Move>)
    requires
        promo_order(a),
        forall|k: int| 0 <= k < b.len() ==> !(#[trigger] b[k]).promotes(),
    ensures
        promo_order(a + b),
{
    let t = a + b;
    assert forall|i: int, j: int|
        0 <= i < j < t.len() && (#[trigger] t[i]).promotes() && (#[trigger] t[j]).promotes() && t[i].from_sq() == t[j].from_sq()
            && t[i].to_sq() == t[j].to_sq() implies t[i].flag_bits() > t[j].flag_bits() by {
        if j >= a.len() {
            assert(t[j] == b[j - a.len()]);
        } else {
            assert(t[i] == a[i] && t[j] == a[j]);
        }
    }
}

/// Only pawns promote: moves of later stages are no promotions.
proof fn lemma_no_promo_after_pawns(v: BoardView, l: Seq<Move>, hi: int)
    requires
        gen_seg(v, l, 2, hi),
    ensures
        forall|k: int| 0 <= k < l.len() ==> !(#[trigger] l[k]).promotes(),
{
    assert forall|k: int| 0 <= k < l.len() implies !(#[trigger] l[k]).promotes() by {
        assert(l.contains(l[k]));
        lemma_move_decompose(l[k]);
    }
}

/// `l` is `l0` followed by moves from `from`.
spec fn grows_from(l0: Seq<Move>, l: Seq<Move>, from: int) -> bool {
    &&& l0.len() <= l.len()
    &&& l.subrange(0, l0.len() as int) == l0
    &&& forall|i: int| l0.len() <= i < l.len() ==> (#[trigger] l[i]).from_sq() == from
}

/// Appending moves from `from` twice appends moves from `from`.
proof fn lemma_grows_trans(a: Seq<Move>, b: Seq<Move>, c: Seq<Move>, from: int)
    requires
        grows_from(a, b, from),
        grows_from(b, c, from),
    ensures
        grows_from(a, c, from),
{
    assert forall|i: int| 0 <= i < a.len() implies c.subrange(0, a.len() as int)[i] == a[i] by {
        assert(c.subrange(0, b.len() as int)[i] == c[i]);
        assert(b.subrange(0, a.len() as int)[i] == b[i]);
    }
    assert(c.subrange(0, a.len() as int) =~= a);
    assert forall|i: int| a.len() <= i < c.len() implies (#[trigger] c[i]).from_sq() == from by {
        if i < b.len() {
            assert(c.subrange(0, b.len() as int)[i] == c[i]);
        }
    }
}

/// Pushing a move from `from`.
proof fn lemma_grows_push(a: Seq<Move>, b: Seq<Move>, m: Move, from: int)
    requires
        grows_from(a, b, from),
        m.from_sq() == from,
    ensures
        grows_from(a, b.push(m), from),
{
    assert(b.push(m).subrange(0, a.len() as int) =~= b.subrange(0, a.len() as int));
    assert forall|i: int| a.len() <= i < b.push(m).len() implies (#[trigger] b.push(m)[i]).from_sq() == from by {
        if i < b.len() {
            assert(b.push(m)[i] == b[i]);
        }
    }
}

/// Pushing a new element keeps a list free of duplicates and adds exactly that element.
pub(crate) proof fn lemma_push(s: Seq<Move>, x: Move)
    requires
        s.no_duplicates(),
        !s.contains(x),
    ensures
        s.push(x).no_duplicates(),
        forall|m: Move| #[trigger] s.push(x).contains(m) <==> (s.contains(m) || m == x),
{
    let t = s.push(x);
    assert forall|m: Move| #[trigger] t.contains(m) <==> (s.contains(m) || m == x) by {
        if s.contains(m) {
            let i = choose|i: int| 0 <= i < s.len() && s[i] == m;
            assert(t[i] == m);
        }
        if m == x {
            assert(t[s.len() as int] == x);
        }
        if t.contains(m) {
            let i = choose|i: int| 0 <= i < t.len() && t[i] == m;
            if i < s.len() {
                assert(s[i] == m);
            }
        }
    }
}

/// Iterate set bits of a bitboard, yielding square indices.
#[inline]
fn pop_lsb(bb: &mut Bitboard) -> (sq: Square)
    requires
        *old(bb) != 0,
    ensures
        sq < 64,
        has_sq(*old(bb), sq as int),
        forall|s: int| 0 <= s < sq ==> !#[trigger] has_sq(*old(bb), s),
        forall|s: int| 0 <= s < 64 ==> #[trigger] has_sq(*final(bb), s) == (has_sq(*old(bb), s) && s != sq),
        *final(bb) < *old(bb),
{
    let b = *bb;
    let sq = b.trailing_zeros() as Square;
    proof {
        lemma_nonzero(b);
        lemma_clear_lowest(b);
    }
    *bb = b & (b - 1);
    assert(b != 0 ==> b & ((b - 1u64) as u64) < b) by (bit_vector);
    sq
}

/// Push a quiet or capturing move from `from` to every square of `targets`.
#[inline]
fn emit_targets(from: Square, targets: &mut Bitboard, enemy: Bitboard, list: &mut MoveList)
    requires
        from < 64,
        old(list)@.no_duplicates(),
        forall|m: Move| #[trigger] old(list)@.contains(m) ==> m.from_sq() != from,
    ensures
        final(list)@.no_duplicates(),
        forall|m: Move| #[trigger] final(list)@.contains(m) <==> (old(list)@.contains(m) || (m.from_sq() == from
            && has_sq(*old(targets), m.to_sq()) && m.flag_bits() == (if has_sq(enemy, m.to_sq()) { 4int } else { 0int }))),
        // The moves are appended from `from`, by ascending target square.
        old(list)@.len() <= final(list)@.len(),
        final(list)@.subrange(0, old(list)@.len() as int) == old(list)@,
        forall|i: int| old(list)@.len() <= i < final(list)@.len() ==> (#[trigger] final(list)@[i]).from_sq() == from,
        forall|i: int, j: int| old(list)@.len() <= i < j < final(list)@.len() ==> (#[trigger] final(list)@[i]).to_sq() < (
        #[trigger] final(list)@[j]).to_sq(),
{
    let ghost orig = *targets;
    let ghost l0 = list@;
    while *targets != 0
        invariant
            from < 64,
            list@.no_duplicates(),
            forall|s: int| 0 <= s < 64 && #[trigger] has_sq(*targets, s) ==> has_sq(orig, s),
            forall|m: Move| #[trigger] list@.contains(m) <==> (l0.contains(m) || (m.from_sq() == from && has_sq(orig, m.to_sq())
                && !has_sq(*targets, m.to_sq()) && m.flag_bits() == (if has_sq(enemy, m.to_sq()) { 4int } else { 0int }))),
            forall|m: Move| #[trigger] l0.contains(m) ==> m.from_sq() != from,
            l0.len() <= list@.len(),
            list@.subrange(0, l0.len() as int) == l0,
            forall|i: int| l0.len() <= i < list@.len() ==> (#[trigger] list@[i]).from_sq() == from,
            forall|i: int, j: int| l0.len() <= i < j < list@.len() ==> (#[trigger] list@[i]).to_sq() < (#[trigger] list@[j]).to_sq(),
            forall|i: int, s: int| l0.len() <= i < list@.len() && 0 <= s < 64 && #[trigger] has_sq(*targets, s) ==> (#[trigger] list@[i]).to_sq() < s,
        decreases *targets,
    {
        let ghost before = *targets;
        let ghost lb = list@;
        let to = pop_lsb(targets);
        let flag = if enemy & (1u64 << to) != 0 { FLAG_CAPTURE } else { FLAG_QUIET };
        proof {
            crate::bitboard::lemma_single(to as u64, to as u64);
            crate::bitboard::lemma_intersects(enemy, 1u64 << to);
            assert forall|s: int| 0 <= s < 64 implies #[trigger] has_sq(1u64 << to, s) == (s == to) by {
                crate::bitboard::lemma_single(to as u64, s as u64);
            }
            if has_sq(enemy, to as int) {
                assert(0 <= to < 64 && has_sq(enemy, to as int) && has_sq(1u64 << to, to as int));
            }
            assert((flag == 4) == has_sq(enemy, to as int));
        }
        let m = Move::new(from, to, flag);
        proof {
            lemma_mk_move_fields(from as int, to as int, flag as int);
            assert(!list@.contains(m));
            lemma_push(list@, m);
        }
        list.push(m);
        proof {
            assert forall|i: int| 0 <= i < lb.len() implies #[trigger] list@[i] == lb[i] by {}
            assert(list@[lb.len() as int] == m);
            assert(list@.subrange(0, l0.len() as int) =~= lb.subrange(0, l0.len() as int));
            assert forall|i: int| l0.len() <= i < lb.len() implies (#[trigger] lb[i]).to_sq() < to by {
                assert(has_sq(before, to as int));
            }
            assert forall|i: int, s: int| l0.len() <= i < list@.len() && 0 <= s < 64 && #[trigger] has_sq(*targets, s) implies (
            #[trigger] list@[i]).to_sq() < s by {
                if i < lb.len() {
                    assert(has_sq(before, s));
                } else {
                    assert(has_sq(before, s) && s != to);
                }
            }
        }
    }
    proof {
        assert forall|s: int| 0 <= s < 64 implies !#[trigger] has_sq(*targets, s) by {
            crate::bitboard::lemma_empty(s as u64);
        }
    }
}


fn attacks_of(kind: PieceType, from: Square, all: Bitboard) -> (b: Bitboard)
    requires
        from < 64,
    ensures
        forall|s: int| 0 <= s < 64 ==> #[trigger] has_sq(b, s) == kind_attack(kind, from as int, bb_fn(all), s),
{
    match kind {
        PieceType::Knight => knight_attacks(from),
        PieceType::Bishop => bishop_attacks(from, all),
        PieceType::Rook => rook_attacks(from, all),
        _ => queen_attacks(from, all),
    }
}

/// All moves of the pieces of one kind (knight, bishop, rook or queen) of the side to move.
fn gen_piece_moves(
    pos: &Position,
    kind: PieceType,
    own: Bitboard,
    enemy: Bitboard,
    list: &mut MoveList,
    Ghost(lo): Ghost<int>,
)
    requires
        pos.boards_ok(),
        kind == PieceType::Knight || kind == PieceType::Bishop || kind == PieceType::Rook || kind == PieceType::Queen,
        own == pos.occ[pos.side.idx()],
        enemy == pos.occ[pos.side.other().idx()],
        gen_seg(pos@, old(list)@, lo, kind.idx()),
        lo <= kind.idx() + 1,
    ensures
        gen_seg(pos@, final(list)@, lo, kind.idx() + 1),
        old(list)@.len() == 0 ==> square_order(final(list)@),
{
    let ghost empty0 = list@.len() == 0;
    let ghost v = pos@;
    let us = pos.side;
    let all = pos.all;
    let mut bb = pos.bb[us.index()][kind.index()];
    let ghost pieces = bb;
    proof {
        assert forall|t: int| 0 <= t < 64 implies #[trigger] bb_fn(all)(t) == occupied(v)(t) by {
            assert(has_sq(pos.all, t) == (pos.mailbox@[t] is Some));
        }
        assert forall|s: int| 0 <= s < 64 implies #[trigger] has_sq(pieces, s) == (v.squares[s] == Some((us, kind))) by {
            assert(has_sq(pos.bb[us.idx()][kind.idx()], s) == (pos.mailbox@[s] == Some((us, kind))));
        }
    }
    while bb != 0
        invariant
            pos.boards_ok(),
            v == pos@,
            us == v.side,
            all == pos.all,
            kind == PieceType::Knight || kind == PieceType::Bishop || kind == PieceType::Rook || kind == PieceType::Queen,
            own == pos.occ[us.idx()],
            enemy == pos.occ[us.other().idx()],
            forall|t: int| 0 <= t < 64 ==> #[trigger] bb_fn(all)(t) == occupied(v)(t),
            forall|s: int| 0 <= s < 64 ==> #[trigger] has_sq(pieces, s) == (v.squares[s] == Some((us, kind))),
            forall|s: int| 0 <= s < 64 && #[trigger] has_sq(bb, s) ==> has_sq(pieces, s),
            lo <= kind.idx() + 1,
            empty0 ==> square_order(list@),
            empty0 ==> forall|i: int, s: int| 0 <= i < list@.len() && 0 <= s < 64 && #[trigger] has_sq(bb, s) ==> (#[trigger] list@[i]).from_sq() < s,
            list@.no_duplicates(),
            forall|m: Move| #[trigger] list@.contains(m) <==> (pseudo_move(v, m) && ((lo <= move_stage(v, m) <= kind.idx()) || (
                move_stage(v, m) == kind.idx() + 1 && !has_sq(bb, m.from_sq())))),
        decreases bb,
    {
        let ghost before = bb;
        let from = pop_lsb(&mut bb);
        let att = attacks_of(kind, from, all);
        let mut targets = att & !own;
        let ghost tg = targets;
        let ghost l0 = list@;
        proof {
            assert(v.squares[from as int] == Some((us, kind)));
            assert forall|m: Move| #[trigger] l0.contains(m) implies m.from_sq() != from by {
                lemma_move_decompose(m);
                if m.from_sq() == from {
                    assert(kind_on(v, from as int) == kind);
                }
            }
        }
        emit_targets(from, &mut targets, enemy, list);
        proof {
            if empty0 {
                assert forall|i: int| 0 <= i < l0.len() implies #[trigger] list@[i] == l0[i] by {
                    assert(list@.subrange(0, l0.len() as int)[i] == list@[i]);
                }
                assert forall|i: int| 0 <= i < l0.len() implies (#[trigger] l0[i]).from_sq() < from by {
                    assert(has_sq(before, from as int));
                }
                assert forall|i: int, j: int| 0 <= i < j < list@.len() implies (#[trigger] list@[i]).from_sq() < (#[trigger] list@[j]).from_sq() || (
                list@[i].from_sq() == list@[j].from_sq() && list@[i].to_sq() < list@[j].to_sq()) by {
                    if j < l0.len() {
                        assert(list@[i] == l0[i] && list@[j] == l0[j]);
                    } else if i < l0.len() {
                        assert(list@[i] == l0[i]);
                    }
                }
                assert forall|i: int, s: int| 0 <= i < list@.len() && 0 <= s < 64 && #[trigger] has_sq(bb, s) implies (#[trigger] list@[i]).from_sq() < s by {
                    assert(has_sq(before, s) && s != from);
                    if i < l0.len() {
                        assert(list@[i] == l0[i]);
                    }
                }
            }
            assert forall|m: Move| #[trigger] list@.contains(m) <==> (pseudo_move(v, m) && ((lo <= move_stage(v, m) <= kind.idx()) || (
                move_stage(v, m) == kind.idx() + 1 && !has_sq(bb, m.from_sq())))) by {
                lemma_move_decompose(m);
                let f = m.from_sq();
                let t = m.to_sq();
                if f == from {
                    let occ = occupied(v);
                    lemma_slider_congruent(from as int, t, bb_fn(all), occ);
                    lemma_and(att, !own, t as u64);
                    lemma_not(own, t as u64);
                    assert(has_sq(own, t) == owned_by(v.squares[t], us));
                    assert(has_sq(enemy, t) == owned_by(v.squares[t], us.other()));
                }
            }
        }
    }
    proof {
        assert forall|m: Move| #[trigger] list@.contains(m) <==> (pseudo_move(v, m) && lo <= move_stage(v, m) <= kind.idx() + 1) by {
            lemma_move_decompose(m);
            crate::bitboard::lemma_empty(m.from_sq() as u64);
        }
    }
}


fn gen_knights(pos: &Position, us: Color, own: Bitboard, enemy: Bitboard, list: &mut MoveList)
    requires
        pos.boards_ok(),
        us == pos.side,
        own == pos.occ[us.idx()],
        enemy == pos.occ[us.other().idx()],
    ensures
        appended(pos@, old(list)@, final(list)@, 2, 2),
{
    let mut seg: MoveList = Vec::new();
    proof {
        lemma_seg_empty(pos@, 2);
    }
    gen_piece_moves(pos, PieceType::Knight, own, enemy, &mut seg, Ghost(2));
    proof {
        lemma_appended(pos@, list@, seg@, 2);
    }
    list.append(&mut seg);
}

fn gen_bishops_rooks_queens(pos: &Position, us: Color, own: Bitboard, enemy: Bitboard, all: Bitboard, list: &mut MoveList)
    requires
        pos.boards_ok(),
        us == pos.side,
        own == pos.occ[us.idx()],
        enemy == pos.occ[us.other().idx()],
        all == pos.all,
    ensures
        appended(pos@, old(list)@, final(list)@, 3, 5),
{
    let ghost v = pos@;
    let ghost l0 = list@;
    let mut seg: MoveList = Vec::new();
    proof {
        lemma_seg_empty(v, 3);
    }
    gen_piece_moves(pos, PieceType::Bishop, own, enemy, &mut seg, Ghost(3));
    proof {
        lemma_appended(v, list@, seg@, 3);
    }
    list.append(&mut seg);
    let ghost l1 = list@;
    proof {
        lemma_seg_empty(v, 4);
    }
    gen_piece_moves(pos, PieceType::Rook, own, enemy, &mut seg, Ghost(4));
    proof {
        lemma_appended(v, list@, seg@, 4);
    }
    list.append(&mut seg);
    let ghost l2 = list@;
    proof {
        lemma_appended_chain(v, l0, l1, l2, 3, 3, 4);
        lemma_seg_empty(v, 5);
    }
    gen_piece_moves(pos, PieceType::Queen, own, enemy, &mut seg, Ghost(5));
    proof {
        lemma_appended(v, list@, seg@, 5);
    }
    list.append(&mut seg);
    proof {
        lemma_appended_chain(v, l0, l2, list@, 3, 4, 5);
    }
}

fn gen_king(pos: &Position, us: Color, own: Bitboard, enemy: Bitboard, list: &mut MoveList)
    requires
        pos.boards_ok(),
        us == pos.side,
        has_king(pos@, us),
        own == pos.occ[us.idx()],
        enemy == pos.occ[us.other().idx()],
    ensures
        appended(pos@, old(list)@, final(list)@, 6, 6),
{
    let ghost v = pos@;
    let from = pos.king_sq(us);
    let att = king_attacks(from);
    let mut targets = att & !own;
    let mut seg: MoveList = Vec::new();
    proof {
        assert(lowest_king(v, us, from as int));
    }
    emit_targets(from, &mut targets, enemy, &mut seg);
    proof {
        assert forall|m: Move| #[trigger] seg@.contains(m) <==> (pseudo_move(v, m) && 6 <= move_stage(v, m) <= 6) by {
            lemma_move_decompose(m);
            let t = m.to_sq();
            if m.from_sq() == from {
                lemma_and(att, !own, t as u64);
                lemma_not(own, t as u64);
                assert(has_sq(own, t) == owned_by(v.squares[t], us));
                assert(has_sq(enemy, t) == owned_by(v.squares[t], us.other()));
            }
        }
        lemma_appended(v, list@, seg@, 6);
    }
    list.append(&mut seg);
}


#[inline]
fn push_promotions(from: Square, to: Square, capture: bool, list: &mut MoveList)
    requires
        from < 64,
        to < 64,
        old(list)@.no_duplicates(),
        forall|m: Move| #[trigger] old(list)@.contains(m) ==> !(m.from_sq() == from && m.to_sq() == to && m.promotes()),
        promo_order(old(list)@),
    ensures
        final(list)@.no_duplicates(),
        promo_order(final(list)@),
        old(list)@.len() <= final(list)@.len(),
        final(list)@.subrange(0, old(list)@.len() as int) == old(list)@,
        forall|i: int| old(list)@.len() <= i < final(list)@.len() ==> (#[trigger] final(list)@[i]).from_sq() == from,
        forall|m: Move| #[trigger] final(list)@.contains(m) <==> (old(list)@.contains(m) || (m.from_sq() == from && m.to_sq() == to
            && promo_flag(m.flag_bits(), capture))),
{
    let ghost l0 = list@;
    let (f1, f2, f3, f4) = if capture {
        (FLAG_PROMO_Q_CAP, FLAG_PROMO_R_CAP, FLAG_PROMO_B_CAP, FLAG_PROMO_N_CAP)
    } else {
        (FLAG_PROMO_Q, FLAG_PROMO_R, FLAG_PROMO_B, FLAG_PROMO_N)
    };
    let m1 = Move::new(from, to, f1);
    let m2 = Move::new(from, to, f2);
    let m3 = Move::new(from, to, f3);
    let m4 = Move::new(from, to, f4);
    proof {
        lemma_mk_move_fields(from as int, to as int, f1 as int);
        lemma_mk_move_fields(from as int, to as int, f2 as int);
        lemma_mk_move_fields(from as int, to as int, f3 as int);
        lemma_mk_move_fields(from as int, to as int, f4 as int);
        lemma_push(l0, m1);
        lemma_push(l0.push(m1), m2);
        lemma_push(l0.push(m1).push(m2), m3);
        lemma_push(l0.push(m1).push(m2).push(m3), m4);
        assert forall|i: int| 0 <= i < l0.len() implies !((#[trigger] l0[i]).from_sq() == from && l0[i].to_sq() == to && l0[i].promotes()) by {
            assert(l0.contains(l0[i]));
        }
        let a1 = l0.push(m1);
        let a2 = a1.push(m2);
        let a3 = a2.push(m3);
        lemma_promo_push(l0, m1);
        assert forall|i: int| 0 <= i < a1.len() && (#[trigger] a1[i]).promotes() && a1[i].from_sq() == m2.from_sq() && a1[i].to_sq() == m2.to_sq()
            implies a1[i].flag_bits() > m2.flag_bits() by {
            if i < l0.len() {
                assert(a1[i] == l0[i]);
            }
        }
        lemma_promo_push(a1, m2);
        assert forall|i: int| 0 <= i < a2.len() && (#[trigger] a2[i]).promotes() && a2[i].from_sq() == m3.from_sq() && a2[i].to_sq() == m3.to_sq()
            implies a2[i].flag_bits() > m3.flag_bits() by {
            if i < l0.len() {
                assert(a2[i] == l0[i]);
            } else if i == l0.len() {
                assert(a2[i] == m1);
            }
        }
        lemma_promo_push(a2, m3);
        assert forall|i: int| 0 <= i < a3.len() && (#[trigger] a3[i]).promotes() && a3[i].from_sq() == m4.from_sq() && a3[i].to_sq() == m4.to_sq()
            implies a3[i].flag_bits() > m4.flag_bits() by {
            if i < l0.len() {
                assert(a3[i] == l0[i]);
            } else if i == l0.len() {
                assert(a3[i] == m1);
            } else if i == l0.len() + 1 {
                assert(a3[i] == m2);
            }
        }
        lemma_promo_push(a3, m4);
        assert(l0.push(m1).push(m2).push(m3).push(m4).subrange(0, l0.len() as int) =~= l0);
    }
    list.push(m1);
    list.push(m2);
    list.push(m3);
    list.push(m4);
    proof {
        assert forall|m: Move| #[trigger] list@.contains(m) <==> (l0.contains(m) || (m.from_sq() == from && m.to_sq() == to
            && promo_flag(m.flag_bits(), capture))) by {
            lemma_move_decompose(m);
        }
        assert forall|i: int| l0.len() <= i < list@.len() implies (#[trigger] list@[i]).from_sq() == from by {
            lemma_mk_move_fields(from as int, to as int, f1 as int);
            lemma_mk_move_fields(from as int, to as int, f2 as int);
            lemma_mk_move_fields(from as int, to as int, f3 as int);
            lemma_mk_move_fields(from as int, to as int, f4 as int);
        }
    }
}

/// The single and double pushes of the pawn on `from`.
pub open spec fn push_part(v: BoardView, from: int, to: int, flag: int) -> bool {
    let us = v.side;
    let r = rank_spec(from);
    let one = from + pawn_dir(us);
    ||| to == one && 0 <= one < 64 && v.squares[one] is None && (if r == pawn_promo_rank(us) {
        promo_flag(flag, false)
    } else {
        flag == 0
    })
    ||| to == one + pawn_dir(us) && 0 <= one < 64 && v.squares[one] is None && r != pawn_promo_rank(us) && r == pawn_start_rank(us)
        && v.squares[to] is None && flag == 1
}

/// The flag of a pawn capture from rank `r`.
pub open spec fn capture_flag_ok(us: Color, r: int, flag: int) -> bool {
    if r == pawn_promo_rank(us) {
        promo_flag(flag, true)
    } else {
        flag == 4
    }
}

/// All moves of the pawn on `from`.
fn gen_pawn_moves_from(pos: &Position, from: Square, enemy: Bitboard, all: Bitboard, list: &mut MoveList)
    requires
        pos.boards_ok(),
        from < 64,
        pos.mailbox@[from as int] == Some((pos.side, PieceType::Pawn)),
        enemy == pos.occ[pos.side.other().idx()],
        all == pos.all,
        old(list)@.no_duplicates(),
        forall|m: Move| #[trigger] old(list)@.contains(m) ==> m.from_sq() != from,
        promo_order(old(list)@),
    ensures
        final(list)@.no_duplicates(),
        forall|m: Move| #[trigger] final(list)@.contains(m) <==> (old(list)@.contains(m) || (m.from_sq() == from
            && pawn_move(pos@, from as int, m.to_sq(), m.flag_bits()))),
        promo_order(final(list)@),
        old(list)@.len() <= final(list)@.len(),
        final(list)@.subrange(0, old(list)@.len() as int) == old(list)@,
        forall|i: int| old(list)@.len() <= i < final(list)@.len() ==> (#[trigger] final(list)@[i]).from_sq() == from,
{
    let ghost v = pos@;
    let ghost l0 = list@;
    proof {
        assert(l0.subrange(0, l0.len() as int) =~= l0);
    }
    let us = pos.side;
    let r = rank_of(from);
    let forward: i32 = if us == Color::White { 8 } else { -8 };
    let one = from as i32 + forward;
    let promo_rank: u8 = if us == Color::White { 6 } else { 1 };
    let start_rank: u8 = if us == Color::White { 1 } else { 6 };
    proof {
        assert(forward == pawn_dir(us) && promo_rank == pawn_promo_rank(us) && start_rank == pawn_start_rank(us));
        assert forall|t: int| 0 <= t < 64 implies #[trigger] has_sq(all, t) == (v.squares[t] is Some) by {
            assert(has_sq(pos.all, t) == (pos.mailbox@[t] is Some));
        }
        assert forall|t: int| 0 <= t < 64 implies #[trigger] has_sq(enemy, t) == owned_by(v.squares[t], us.other()) by {
            assert(has_sq(pos.occ[us.other().idx()], t) == owned_by(pos.mailbox@[t], us.other()));
        }
    }

    // Single push.
    let one_free = 0 <= one && one < 64 && (all & (1u64 << (one as u64))) == 0;
    proof {
        if 0 <= one < 64 {
            crate::bitboard::lemma_intersects(all, 1u64 << (one as u64));
            assert forall|s: int| 0 <= s < 64 implies #[trigger] has_sq(1u64 << (one as u64), s) == (s == one) by {
                crate::bitboard::lemma_single(one as u64, s as u64);
            }
            if has_sq(all, one as int) {
                assert(has_sq(1u64 << (one as u64), one as int));
            }
        }
        assert(one_free == (0 <= one < 64 && v.squares[one as int] is None));
    }
    if one_free {
        let to = one as Square;
        if r == promo_rank {
            let ghost lp = list@;
            push_promotions(from, to, false, list);
            proof {
                lemma_grows_trans(l0, lp, list@, from as int);
            }
        } else {
            let m = Move::new(from, to, FLAG_QUIET);
            proof {
                lemma_mk_move_fields(from as int, to as int, 0);
                lemma_push(list@, m);
                lemma_promo_push(list@, m);
                lemma_grows_push(l0, list@, m, from as int);
            }
            list.push(m);
            // Double push.
            if r == start_rank {
                let two = one + forward;
                let two_free = (all & (1u64 << (two as u64))) == 0;
                proof {
                    crate::bitboard::lemma_intersects(all, 1u64 << (two as u64));
                    assert forall|s: int| 0 <= s < 64 implies #[trigger] has_sq(1u64 << (two as u64), s) == (s == two) by {
                        crate::bitboard::lemma_single(two as u64, s as u64);
                    }
                    if has_sq(all, two as int) {
                        assert(has_sq(1u64 << (two as u64), two as int));
                    }
                    assert(two_free == (v.squares[two as int] is None));
                }
                if two_free {
                    let m2 = Move::new(from, two as Square, FLAG_DOUBLE_PAWN);
                    proof {
                        lemma_mk_move_fields(from as int, two as int, 1);
                        lemma_push(list@, m2);
                        lemma_promo_push(list@, m2);
                        lemma_grows_push(l0, list@, m2, from as int);
                    }
                    list.push(m2);
                }
                proof {
                    assert forall|m: Move| #[trigger] list@.contains(m) <==> (l0.contains(m) || (m.from_sq() == from && push_part(v, from as int, m.to_sq(), m.flag_bits()))) by {
                        lemma_move_decompose(m);
                    }
                }
            } else {
                proof {
                    assert forall|m: Move| #[trigger] list@.contains(m) <==> (l0.contains(m) || (m.from_sq() == from && push_part(v, from as int, m.to_sq(), m.flag_bits()))) by {
                        lemma_move_decompose(m);
                    }
                }
            }
        }
    }
    let ghost l1 = list@;
    proof {
        assert forall|m: Move| #[trigger] l1.contains(m) <==> (l0.contains(m) || (m.from_sq() == from && push_part(v, from as int, m.to_sq(), m.flag_bits()))) by {
            lemma_move_decompose(m);
        }
    }

    // Captures (including promotion captures and en passant).
    let pa = pawn_attacks(us, from);
    let mut atk = pa & enemy;
    let ghost atk0 = atk;
    proof {
        assert forall|t: int| 0 <= t < 64 implies #[trigger] has_sq(atk0, t) == (pawn_step(us, from as int, t) && owned_by(v.squares[t], us.other())) by {
            lemma_and(pa, enemy, t as u64);
        }
    }
    while atk != 0
        invariant
            from < 64,
            r == rank_spec(from as int),
            promo_rank == pawn_promo_rank(us),
            list@.no_duplicates(),
            promo_order(list@),
            grows_from(l0, list@, from as int),
            forall|t: int| 0 <= t < 64 && #[trigger] has_sq(atk0, t) ==> owned_by(v.squares[t], us.other()),
            forall|t: int| 0 <= t < 64 && #[trigger] has_sq(atk, t) ==> has_sq(atk0, t),
            forall|m: Move| #[trigger] list@.contains(m) <==> (l1.contains(m) || (m.from_sq() == from && capture_flag_ok(us, r as int, m.flag_bits())
                && has_sq(atk0, m.to_sq()) && !has_sq(atk, m.to_sq()))),
            forall|m: Move| #[trigger] l1.contains(m) ==> (m.from_sq() != from || push_part(v, from as int, m.to_sq(), m.flag_bits())),
            v == pos@,
            us == v.side,
        decreases atk,
    {
        let ghost before = atk;
        let ghost lb = list@;
        let to = pop_lsb(&mut atk);
        if r == promo_rank {
            proof {
                assert forall|m: Move| #[trigger] lb.contains(m) implies !(m.from_sq() == from && m.to_sq() == to && m.promotes()) by {
                    lemma_move_decompose(m);
                }
            }
            push_promotions(from, to, true, list);
            proof {
                lemma_grows_trans(l0, lb, list@, from as int);
            }
        } else {
            let m = Move::new(from, to, FLAG_CAPTURE);
            proof {
                lemma_mk_move_fields(from as int, to as int, 4);
                lemma_push(list@, m);
                lemma_promo_push(list@, m);
                lemma_grows_push(l0, list@, m, from as int);
            }
            list.push(m);
        }
        proof {
            assert forall|m: Move| #[trigger] list@.contains(m) <==> (l1.contains(m) || (m.from_sq() == from && capture_flag_ok(us, r as int, m.flag_bits())
                && has_sq(atk0, m.to_sq()) && !has_sq(atk, m.to_sq()))) by {
                lemma_move_decompose(m);
            }
        }
    }
    let ghost l2 = list@;
    proof {
        assert forall|m: Move| #[trigger] l2.contains(m) <==> (l1.contains(m) || (m.from_sq() == from && capture_flag_ok(us, r as int, m.flag_bits())
            && has_sq(atk0, m.to_sq()))) by {
            lemma_move_decompose(m);
            crate::bitboard::lemma_empty(m.to_sq() as u64);
        }
    }
    if let Some(ep) = pos.ep {
        let hit = pa & (1u64 << ep) != 0;
        proof {
            crate::bitboard::lemma_intersects(pa, 1u64 << ep);
            assert forall|s: int| 0 <= s < 64 implies #[trigger] has_sq(1u64 << ep, s) == (s == ep) by {
                crate::bitboard::lemma_single(ep as u64, s as u64);
            }
            if pawn_step(us, from as int, ep as int) {
                assert(has_sq(pa, ep as int) && has_sq(1u64 << ep, ep as int));
            }
            assert(hit == pawn_step(us, from as int, ep as int));
        }
        if hit {
            let m = Move::new(from, ep, FLAG_EP_CAPTURE);
            proof {
                lemma_mk_move_fields(from as int, ep as int, 5);
                assert forall|mm: Move| #[trigger] l2.contains(mm) implies mm != m by {
                    lemma_move_decompose(mm);
                }
                lemma_push(list@, m);
                lemma_promo_push(list@, m);
                lemma_grows_push(l0, list@, m, from as int);
            }
            list.push(m);
        }
        proof {
            assert forall|m: Move| #[trigger] list@.contains(m) <==> (l2.contains(m) || (m.from_sq() == from && m.flag_bits() == 5
                && m.to_sq() == ep && pawn_step(us, from as int, ep as int))) by {
                lemma_move_decompose(m);
            }
        }
    }
    proof {
        assert forall|m: Move| #[trigger] list@.contains(m) <==> (l0.contains(m) || (m.from_sq() == from
            && pawn_move(v, from as int, m.to_sq(), m.flag_bits()))) by {
            lemma_move_decompose(m);
        }
    }
}

fn gen_pawns(pos: &Position, us: Color, them: Color, enemy: Bitboard, all: Bitboard, list: &mut MoveList)
    requires
        pos.boards_ok(),
        us == pos.side,
        them == us.other(),
        enemy == pos.occ[them.idx()],
        all == pos.all,
    ensures
        appended(pos@, old(list)@, final(list)@, 1, 1),
        promo_order(final(list)@.subrange(old(list)@.len() as int, final(list)@.len() as int)),
        origin_order(final(list)@.subrange(old(list)@.len() as int, final(list)@.len() as int)),
{
    let ghost v = pos@;
    let pawns = pos.bb[us.index()][PieceType::Pawn.index()];
    let mut bb = pawns;
    let mut seg: MoveList = Vec::new();
    proof {
        assert forall|s: int| 0 <= s < 64 implies #[trigger] has_sq(pawns, s) == (v.squares[s] == Some((us, PieceType::Pawn))) by {
            assert(has_sq(pos.bb[us.idx()][PieceType::Pawn.idx()], s) == (pos.mailbox@[s] == Some((us, PieceType::Pawn))));
        }
    }
    while bb != 0
        invariant
            pos.boards_ok(),
            v == pos@,
            us == v.side,
            enemy == pos.occ[us.other().idx()],
            all == pos.all,
            forall|s: int| 0 <= s < 64 ==> #[trigger] has_sq(pawns, s) == (v.squares[s] == Some((us, PieceType::Pawn))),
            forall|s: int| 0 <= s < 64 && #[trigger] has_sq(bb, s) ==> has_sq(pawns, s),
            seg@.no_duplicates(),
            promo_order(seg@),
            origin_order(seg@),
            forall|i: int, s: int| 0 <= i < seg@.len() && 0 <= s < 64 && #[trigger] has_sq(bb, s) ==> (#[trigger] seg@[i]).from_sq() < s,
            forall|m: Move| #[trigger] seg@.contains(m) <==> (pseudo_move(v, m) && move_stage(v, m) == 1 && !has_sq(bb, m.from_sq())),
        decreases bb,
    {
        let ghost before = bb;
        let from = pop_lsb(&mut bb);
        let ghost l0 = seg@;
        proof {
            assert(v.squares[from as int] == Some((us, PieceType::Pawn)));
            assert forall|m: Move| #[trigger] l0.contains(m) implies m.from_sq() != from by {
                lemma_move_decompose(m);
            }
        }
        let ghost sb = seg@;
        gen_pawn_moves_from(pos, from, enemy, all, &mut seg);
        proof {
            assert forall|i: int| 0 <= i < sb.len() implies #[trigger] seg@[i] == sb[i] by {
                assert(seg@.subrange(0, sb.len() as int)[i] == seg@[i]);
            }
            assert forall|i: int| 0 <= i < sb.len() implies (#[trigger] sb[i]).from_sq() < from by {
                assert(has_sq(before, from as int));
            }
            assert forall|i: int, j: int| 0 <= i < j < seg@.len() implies (#[trigger] seg@[i]).from_sq() <= (#[trigger] seg@[j]).from_sq() by {
                if j < sb.len() {
                    assert(seg@[i] == sb[i] && seg@[j] == sb[j]);
                } else if i < sb.len() {
                    assert(seg@[i] == sb[i]);
                }
            }
            assert forall|i: int, s: int| 0 <= i < seg@.len() && 0 <= s < 64 && #[trigger] has_sq(bb, s) implies (#[trigger] seg@[i]).from_sq() < s by {
                assert(has_sq(before, s) && s != from);
                if i < sb.len() {
                    assert(seg@[i] == sb[i]);
                }
            }
            assert forall|m: Move| #[trigger] seg@.contains(m) <==> (pseudo_move(v, m) && move_stage(v, m) == 1 && !has_sq(bb, m.from_sq())) by {
                lemma_move_decompose(m);
            }
        }
    }
    let _ = them;
    proof {
        assert forall|m: Move| #[trigger] seg@.contains(m) <==> (pseudo_move(v, m) && 1 <= move_stage(v, m) <= 1) by {
            lemma_move_decompose(m);
            crate::bitboard::lemma_empty(m.from_sq() as u64);
        }
        lemma_appended(v, list@, seg@, 1);
        assert((list@ + seg@).subrange(list@.len() as int, (list@ + seg@).len() as int) =~= seg@);
    }
    list.append(&mut seg);
}


/// The en-passant target, when set, is an empty square with the pawn that
/// just made the double push behind it.
pub open spec fn ep_consistent(v: BoardView) -> bool {
    v.ep matches Some(e) ==> {
        let cap = cap_square(v.side, e as int);
        &&& 0 <= cap < 64
        &&& v.squares[cap] == Some((v.side.other(), PieceType::Pawn))
        &&& v.squares[e as int] is None
    }
}

/// Each castling right still held has its king and rook on their home squares.
pub open spec fn castle_consistent(v: BoardView) -> bool {
    &&& (v.castling & 1 != 0 ==> v.squares[4] == Some((Color::White, PieceType::King)) && v.squares[7] == Some((Color::White, PieceType::Rook)))
    &&& (v.castling & 2 != 0 ==> v.squares[4] == Some((Color::White, PieceType::King)) && v.squares[0] == Some((Color::White, PieceType::Rook)))
    &&& (v.castling & 4 != 0 ==> v.squares[60] == Some((Color::Black, PieceType::King)) && v.squares[63] == Some((Color::Black, PieceType::Rook)))
    &&& (v.castling & 8 != 0 ==> v.squares[60] == Some((Color::Black, PieceType::King)) && v.squares[56] == Some((Color::Black, PieceType::Rook)))
}

/// What move generation needs of a position: the side to move has a king,
/// castling rights and en-passant target are consistent with the board, and
/// the move counters have room for one more move.
pub open spec fn gen_ready(v: BoardView) -> bool {
    &&& view_ok(v)
    &&& has_king(v, v.side)
    &&& ep_consistent(v)
    &&& castle_consistent(v)
    &&& v.halfmove < 65535
    &&& (v.side == Color::Black ==> v.fullmove < 65535)
}

/// `p` is the piece `c`, `pt`.
fn holds(p: Option<(Color, PieceType)>, c: Color, pt: PieceType) -> (r: bool)
    ensures
        r == (p == Some((c, pt))),
{
    match p {
        Some((pc, ppt)) => pc == c && ppt == pt,
        None => false,
    }
}

/// Whether the en-passant target and the castling rights of `pos` agree
/// with its board.
pub fn rights_consistent(pos: &Position) -> (r: bool)
    requires
        pos.boards_ok(),
    ensures
        r == (ep_consistent(pos@) && castle_consistent(pos@)),
{
    let us = pos.side;
    let them = us.opp();
    // The en-passant target has the pawn that made the double push behind it.
    if let Some(e) = pos.ep {
        let cap: usize = if us == Color::White {
            if e < 8 {
                return false;
            }
            (e - 8) as usize
        } else {
            (e + 8) as usize
        };
        if cap >= 64 {
            return false;
        }
        if !holds(pos.mailbox[cap], them, PieceType::Pawn) {
            return false;
        }
        if pos.mailbox[e as usize].is_some() {
            return false;
        }
    }
    // Each castling right has its king and rook at home.
    let c = pos.castling;
    if c & 1 != 0 && !(holds(pos.mailbox[4], Color::White, PieceType::King) && holds(pos.mailbox[7], Color::White, PieceType::Rook)) {
        return false;
    }
    if c & 2 != 0 && !(holds(pos.mailbox[4], Color::White, PieceType::King) && holds(pos.mailbox[0], Color::White, PieceType::Rook)) {
        return false;
    }
    if c & 4 != 0 && !(holds(pos.mailbox[60], Color::Black, PieceType::King) && holds(pos.mailbox[63], Color::Black, PieceType::Rook)) {
        return false;
    }
    if c & 8 != 0 && !(holds(pos.mailbox[60], Color::Black, PieceType::King) && holds(pos.mailbox[56], Color::Black, PieceType::Rook)) {
        return false;
    }
    true
}

/// Whether moves can be generated from `pos` (see `gen_ready`).
pub fn gen_ready_check(pos: &Position) -> (r: bool)
    requires
        pos.boards_ok(),
    ensures
        r == gen_ready(pos@),
{
    let k = pos.king_sq(pos.side);
    k < 64 && rights_consistent(pos) && pos.halfmove < 65535 && (pos.side == Color::White || pos.fullmove < 65535)
}

/// Every pseudo-legal move can be played by `make_move`.
pub proof fn lemma_pseudo_move_ok(v: BoardView, m: Move)
    requires
        gen_ready(v),
        pseudo_move(v, m),
    ensures
        move_ok(v, m),
{
    lemma_move_decompose(m);
    lemma_mk_move_fields(4, 6, 2);
    lemma_mk_move_fields(4, 2, 3);
    lemma_mk_move_fields(60, 62, 2);
    lemma_mk_move_fields(60, 58, 3);
    let c = v.castling;
    assert(c & 1 != 0 || c & 1 == 0);
}

/// The mover keeps a king through any move `make_move` can play.
pub proof fn lemma_make_keeps_king(v: BoardView, m: Move)
    requires
        view_ok(v),
        move_ok(v, m),
        has_king(v, v.side),
    ensures
        has_king(make_view(v, m), v.side),
{
    lemma_move_decompose(m);
    let k = choose|s: int| 0 <= s < 64 && #[trigger] is_king_of(v.squares[s], v.side);
    let w = make_view(v, m);
    if k == m.from_sq() {
        assert(is_king_of(w.squares[m.to_sq()], v.side));
    } else {
        assert(is_king_of(w.squares[k], v.side));
    }
}

proof fn lemma_castle_masks(a: u64)
    by (bit_vector)
    ensures
        ((a & ((1u64 << 5u64) | (1u64 << 6u64))) == 0) == (!((a >> 5u64) & 1u64 == 1u64) && !((a >> 6u64) & 1u64 == 1u64)),
        ((a & ((1u64 << 1u64) | (1u64 << 2u64) | (1u64 << 3u64))) == 0) == (!((a >> 1u64) & 1u64 == 1u64) && !((a >> 2u64)
            & 1u64 == 1u64) && !((a >> 3u64) & 1u64 == 1u64)),
        ((a & ((1u64 << 61u64) | (1u64 << 62u64))) == 0) == (!((a >> 61u64) & 1u64 == 1u64) && !((a >> 62u64) & 1u64 == 1u64)),
        ((a & ((1u64 << 57u64) | (1u64 << 58u64) | (1u64 << 59u64))) == 0) == (!((a >> 57u64) & 1u64 == 1u64) && !((a
            >> 58u64) & 1u64 == 1u64) && !((a >> 59u64) & 1u64 == 1u64)),
{
}

fn gen_castling(pos: &Position, us: Color, them: Color, all: Bitboard, list: &mut MoveList)
    requires
        pos.boards_ok(),
        us == pos.side,
        them == us.other(),
        all == pos.all,
        has_king(pos@, us),
    ensures
        appended(pos@, old(list)@, final(list)@, 7, 7),
        final(list)@ == old(list)@ + castle_list(pos@),
{
    let ghost v = pos@;
    let ghost ks = castle_pair(v).0;
    let ghost qs = castle_pair(v).1;
    let mut seg: MoveList = Vec::new();
    proof {
        lemma_mk_move_fields(4, 6, 2);
        lemma_mk_move_fields(4, 2, 3);
        lemma_mk_move_fields(60, 62, 2);
        lemma_mk_move_fields(60, 58, 3);
        assert forall|t: int| 0 <= t < 64 implies #[trigger] has_sq(all, t) == occupied(v)(t) by {
            assert(has_sq(pos.all, t) == (pos.mailbox@[t] is Some));
        }
        let a = all;
        lemma_castle_masks(a);
        assert(has_sq(a, 1) == ((a >> 1u64) & 1u64 == 1u64));
        assert(has_sq(a, 2) == ((a >> 2u64) & 1u64 == 1u64));
        assert(has_sq(a, 3) == ((a >> 3u64) & 1u64 == 1u64));
        assert(has_sq(a, 5) == ((a >> 5u64) & 1u64 == 1u64));
        assert(has_sq(a, 6) == ((a >> 6u64) & 1u64 == 1u64));
        assert(has_sq(a, 57) == ((a >> 57u64) & 1u64 == 1u64));
        assert(has_sq(a, 58) == ((a >> 58u64) & 1u64 == 1u64));
        assert(has_sq(a, 59) == ((a >> 59u64) & 1u64 == 1u64));
        assert(has_sq(a, 61) == ((a >> 61u64) & 1u64 == 1u64));
        assert(has_sq(a, 62) == ((a >> 62u64) & 1u64 == 1u64));
    }
    // Cannot castle out of check.
    let king = pos.king_sq(us);
    if pos.is_attacked(king, them) {
        proof {
            assert forall|m: Move| #[trigger] seg@.contains(m) <==> (pseudo_move(v, m) && 7 <= move_stage(v, m) <= 7) by {
                lemma_move_decompose(m);
            }
            lemma_appended(v, list@, seg@, 7);
            lemma_castle_fields(v);
            assert(!castle_move(v, ks) && !castle_move(v, qs));
            assert(castle_list(v) =~= Seq::<Move>::empty());
        }
        list.append(&mut seg);
        return;
    }
    if us == Color::White {
        // King on e1 (4). Kingside: f1,g1 empty & not attacked, rook h1.
        if pos.castling & CR_WK != 0 && (all & ((1u64 << 5u64) | (1u64 << 6u64))) == 0 && !pos.is_attacked(5, them)
            && !pos.is_attacked(6, them) {
            let m = Move::new(4, 6, FLAG_KING_CASTLE);
            proof {
                lemma_push(seg@, m);
            }
            seg.push(m);
        }
        let ghost s1 = seg@;
        assert(s1 == Seq::<Move>::empty() || s1 == seq![ks]);
                if pos.castling & CR_WQ != 0 && (all & ((1u64 << 1u64) | (1u64 << 2u64) | (1u64 << 3u64))) == 0
            && !pos.is_attacked(3, them) && !pos.is_attacked(2, them) {
            let m = Move::new(4, 2, FLAG_QUEEN_CASTLE);
            proof {
                lemma_push(seg@, m);
            }
            seg.push(m);
        }
        assert(seg@ == s1 || seg@ == s1.push(qs));
    } else {
        // King on e8 (60).
        if pos.castling & CR_BK != 0 && (all & ((1u64 << 61u64) | (1u64 << 62u64))) == 0 && !pos.is_attacked(61, them)
            && !pos.is_attacked(62, them) {
            let m = Move::new(60, 62, FLAG_KING_CASTLE);
            proof {
                lemma_push(seg@, m);
            }
            seg.push(m);
        }
        let ghost s1 = seg@;
        assert(s1 == Seq::<Move>::empty() || s1 == seq![ks]);
        if pos.castling & CR_BQ != 0 && (all & ((1u64 << 57u64) | (1u64 << 58u64) | (1u64 << 59u64))) == 0
            && !pos.is_attacked(59, them) && !pos.is_attacked(58, them) {
            let m = Move::new(60, 58, FLAG_QUEEN_CASTLE);
            proof {
                lemma_push(seg@, m);
            }
            seg.push(m);
        }
        assert(seg@ == s1 || seg@ == s1.push(qs));
    }
    proof {
        assert forall|m: Move| #[trigger] seg@.contains(m) <==> (pseudo_move(v, m) && 7 <= move_stage(v, m) <= 7) by {
            lemma_move_decompose(m);
        }
        lemma_appended(v, list@, seg@, 7);
        lemma_castle_fields(v);
        assert(seg@.contains(ks) <==> castle_move(v, ks)) by {
            lemma_move_decompose(ks);
        }
        assert(seg@.contains(qs) <==> castle_move(v, qs)) by {
            lemma_move_decompose(qs);
        }
        assert(seq![ks].push(qs) =~= seq![ks, qs]);
        assert(Seq::<Move>::empty().push(qs) =~= seq![qs]);
        lemma_castle_list(v, seg@);
    }
    list.append(&mut seg);
}

/// Append the pseudo-legal moves of the side to move to `list`, by stage:
/// pawns, knights, bishops, rooks, queens, the king, then castling.
fn generate_pseudo(pos: &Position, list: &mut MoveList)
    requires
        pos.boards_ok(),
        has_king(pos@, pos.side),
    ensures
        appended(pos@, old(list)@, final(list)@, 1, 7),
        old(list)@.len() == 0 ==> gen_ok(pos@, final(list)@, 7) && stage_sorted(pos@, final(list)@) && promo_order(final(list)@)
            && stage_square_order(pos@, final(list)@),
{
    let ghost v = pos@;
    let ghost l0 = list@;
    let us = pos.side;
    let them = us.opp();
    let own = pos.occ[us.index()];
    let enemy = pos.occ[them.index()];
    let all = pos.all;
    gen_pawns(pos, us, them, enemy, all, list);
    let ghost l1 = list@;
    gen_knights(pos, us, own, enemy, list);
    let ghost l2 = list@;
    proof {
        lemma_appended_chain(v, l0, l1, l2, 1, 1, 2);
    }
    gen_bishops_rooks_queens(pos, us, own, enemy, all, list);
    let ghost l3 = list@;
    proof {
        lemma_appended_chain(v, l0, l2, l3, 1, 2, 5);
        lemma_appended_chain(v, l1, l2, l3, 2, 2, 5);
    }
    gen_king(pos, us, own, enemy, list);
    let ghost l4 = list@;
    proof {
        lemma_appended_chain(v, l0, l3, l4, 1, 5, 6);
        lemma_appended_chain(v, l1, l3, l4, 2, 5, 6);
    }
    gen_castling(pos, us, them, all, list);
    proof {
        lemma_appended_chain(v, l0, l4, list@, 1, 6, 7);
        lemma_appended_chain(v, l1, l4, list@, 2, 6, 7);
        if l0.len() == 0 {
            let rest = list@.subrange(l1.len() as int, list@.len() as int);
            lemma_no_promo_after_pawns(v, rest, 7);
            assert(l1.subrange(0, l1.len() as int) =~= l1);
            lemma_promo_concat(l1, rest);
            assert(list@ =~= l1 + rest);
        }
        if l0.len() == 0 {
            assert(list@.subrange(0, list@.len() as int) =~= list@);
            assert(list@.subrange(l0.len() as int, list@.len() as int) =~= list@);
            assert forall|m: Move| #[trigger] list@.contains(m) <==> (pseudo_move(v, m) && move_stage(v, m) <= 7) by {
                lemma_stage_range(v, m);
            }
        }
    }
}

/// Generate all fully legal moves for the side to move.
pub fn generate_legal(pos: &mut Position) -> (legal: MoveList)
    requires
        old(pos).wf(),
        gen_ready(old(pos)@),
    ensures
        final(pos).wf(),
        final(pos)@ == old(pos)@,
        legal@.no_duplicates(),
        forall|m: Move| #[trigger] legal@.contains(m) <==> legal_move(old(pos)@, m),
        stage_sorted(old(pos)@, legal@),
        promo_order(legal@),
        stage_square_order(old(pos)@, legal@),
{
    let ghost v = pos@;
    let mut pseudo: MoveList = Vec::new();
    generate_pseudo(pos, &mut pseudo);

    let us = pos.side;
    let mut legal: MoveList = Vec::new();
    let mut i: usize = 0;
    while i < pseudo.len()
        invariant
            pos.wf(),
            pos@ == v,
            gen_ready(v),
            us == v.side,
            gen_ok(v, pseudo@, 7),
            stage_sorted(v, pseudo@),
            promo_order(pseudo@),
            promo_order(legal@),
            stage_square_order(v, pseudo@),
            stage_square_order(v, legal@),
            forall|a: int| 0 <= a < legal@.len() ==> exists|k: int| 0 <= k < i && #[trigger] pseudo@[k] == #[trigger] legal@[a],
            i <= pseudo@.len(),
            legal@.no_duplicates(),
            stage_sorted(v, legal@),
            forall|a: int, j: int| 0 <= a < legal@.len() && i <= j < pseudo@.len() ==> move_stage(v, #[trigger] legal@[a])
                <= move_stage(v, #[trigger] pseudo@[j]),
            forall|m: Move| #[trigger] legal@.contains(m) <==> (pseudo@.take(i as int).contains(m) && legal_move(v, m)),
        decreases pseudo@.len() - i,
    {
        let mv = pseudo[i];
        proof {
            assert(pseudo@.contains(mv));
            lemma_pseudo_move_ok(v, mv);
            lemma_make_keeps_king(v, mv);
            lemma_unmake_inverts_make(v, mv);
        }
        let undo = pos.make_move(mv);
        // After make_move, side flipped; check the mover's king.
        let k = pos.king_sq(us);
        let hit = pos.is_attacked(k, us.opp());
        let ghost lb = legal@;
        proof {
            assert(!pseudo@.take(i as int).contains(mv)) by {
                if pseudo@.take(i as int).contains(mv) {
                    let j = choose|j: int| 0 <= j < i && pseudo@.take(i as int)[j] == mv;
                    assert(pseudo@[j] == pseudo@[i as int]);
                }
            }
        }
        if !hit {
            proof {
                lemma_push(legal@, mv);
                assert forall|a: int| 0 <= a < legal@.len() && (#[trigger] legal@[a]).promotes() && legal@[a].from_sq() == mv.from_sq()
                    && legal@[a].to_sq() == mv.to_sq() implies legal@[a].flag_bits() > mv.flag_bits() by {
                    assert(legal@.contains(legal@[a]));
                    let t0 = pseudo@.take(i as int);
                    assert(t0.contains(legal@[a]));
                    let k = choose|k: int| 0 <= k < t0.len() && t0[k] == legal@[a];
                    assert(pseudo@[k] == legal@[a]);
                    if mv.promotes() {
                        assert(pseudo@[k].flag_bits() > pseudo@[i as int].flag_bits());
                    }
                }
                lemma_promo_push(legal@, mv);
            }
            legal.push(mv);
            proof {
                assert forall|a: int, b: int|
                    0 <= a < b < legal@.len() && move_stage(v, #[trigger] legal@[a]) == move_stage(v, #[trigger] legal@[b]) implies {
                    &&& 2 <= move_stage(v, legal@[a]) <= 6 ==> legal@[a].from_sq() < legal@[b].from_sq() || (legal@[a].from_sq()
                        == legal@[b].from_sq() && legal@[a].to_sq() < legal@[b].to_sq())
                    &&& move_stage(v, legal@[a]) == 1 ==> legal@[a].from_sq() <= legal@[b].from_sq()
                } by {
                    if b < lb.len() {
                        assert(legal@[a] == lb[a] && legal@[b] == lb[b]);
                    } else {
                        assert(legal@[a] == lb[a]);
                        assert(legal@[b] == mv);
                        let k = choose|k: int| 0 <= k < i && #[trigger] pseudo@[k] == #[trigger] lb[a];
                        assert(pseudo@[k] == legal@[a] && pseudo@[i as int] == mv);
                    }
                }
            }
        }
        pos.unmake_move(mv, undo);
        proof {
            let t0 = pseudo@.take(i as int);
            let t1 = pseudo@.take(i + 1);
            assert(t1 =~= t0.push(mv));
            assert forall|m: Move| #[trigger] t1.contains(m) <==> (t0.contains(m) || m == mv) by {
                if t0.contains(m) {
                    let j = choose|j: int| 0 <= j < t0.len() && t0[j] == m;
                    assert(t1[j] == m);
                }
                if m == mv {
                    assert(t1[i as int] == mv);
                }
                if t1.contains(m) {
                    let j = choose|j: int| 0 <= j < t1.len() && t1[j] == m;
                    if j < i {
                        assert(t0[j] == m);
                    }
                }
            }
            assert forall|m: Move| #[trigger] legal@.contains(m) <==> (t1.contains(m) && legal_move(v, m)) by {
                assert(t1.contains(m) == (t0.contains(m) || m == mv));
            }
            assert forall|a: int| 0 <= a < legal@.len() implies exists|k: int| 0 <= k < i + 1 && #[trigger] pseudo@[k] == #[trigger] legal@[a] by {
                if a < lb.len() {
                    assert(legal@[a] == lb[a]);
                    let k = choose|k: int| 0 <= k < i && #[trigger] pseudo@[k] == #[trigger] lb[a];
                    assert(pseudo@[k] == legal@[a]);
                } else {
                    assert(pseudo@[i as int] == legal@[a]);
                }
            }
            assert forall|a: int, j: int| 0 <= a < legal@.len() && i + 1 <= j < pseudo@.len() implies move_stage(v, #[trigger] legal@[a])
                <= move_stage(v, #[trigger] pseudo@[j]) by {
                if a < lb.len() {
                    assert(legal@[a] == lb[a]);
                } else {
                    assert(legal@[a] == pseudo@[i as int]);
                }
            }
            assert forall|a: int, b: int| 0 <= a < b < legal@.len() implies move_stage(v, #[trigger] legal@[a]) <= move_stage(v, #[trigger] legal@[b]) by {
                if b < lb.len() {
                    assert(legal@[a] == lb[a] && legal@[b] == lb[b]);
                } else {
                    assert(legal@[a] == lb[a]);
                    assert(legal@[b] == pseudo@[i as int]);
                }
            }
        }
        i = i + 1;
    }
    proof {
        assert(pseudo@.take(pseudo@.len() as int) =~= pseudo@);
    }
    legal
}

} // verus!
