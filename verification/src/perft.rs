//! Perft: count leaf nodes of the move tree to a given depth.
//! Used to validate move generation against known reference counts.
use crate::movegen::{
    castle_consistent, ep_consistent, gen_ready, generate_legal, lemma_pseudo_move_ok, legal_move,
    move_stage, piece_move, promo_order, pseudo_move, stage_square_order, rights_consistent, target_ok,
};
use crate::position::{
    attacked, attacker_on, has_king, is_king_of, king_square, lemma_king_square, lemma_unmake_inverts_make,
    make_view, owned_by, view_ok, BoardView, Position,
};
use crate::types::{lemma_move_decompose, Color, Move};
use vstd::prelude::*;

verus! {

/// What perft needs of a position at every level of the tree: move generation
/// can run, and the side that just moved is not in check (so no legal move
/// ever takes a king and both kings stay on the board).
pub open spec fn perft_ready(v: BoardView) -> bool {
    &&& view_ok(v)
    &&& has_king(v, v.side)
    &&& has_king(v, v.side.other())
    &&& !attacked(v, king_square(v, v.side.other()), v.side)
    &&& ep_consistent(v)
    &&& castle_consistent(v)
}

/// Number of leaf nodes of the legal move tree of depth `d` below `v`.
pub open spec fn perft_spec(v: BoardView, d: nat) -> nat
    decreases d, 65537nat,
{
    if d == 0 {
        1
    } else {
        perft_sum(v, d, 65536, Set::empty())
    }
}

/// Sum of the subtree counts over the legal moves whose word is below `w`, leaving out `ex`.
pub open spec fn perft_sum(v: BoardView, d: nat, w: nat, ex: Set<Move>) -> nat
    decreases d, w,
{
    if w == 0 || d == 0 || w > 65536 {
        0
    } else {
        let m = Move((w - 1) as u16);
        perft_sum(v, d, (w - 1) as nat, ex) + if legal_move(v, m) && !ex.contains(m) {
            perft_spec(make_view(v, m), (d - 1) as nat)
        } else {
            0
        }
    }
}

/// Sum of the subtree counts over a list of moves.
pub open spec fn list_sum(v: BoardView, d: nat, l: Seq<Move>) -> nat
    decreases l.len(),
{
    if l.len() == 0 || d == 0 {
        0
    } else {
        list_sum(v, d, l.drop_last()) + perft_spec(make_view(v, l.last()), (d - 1) as nat)
    }
}

proof fn lemma_sum_remove(v: BoardView, d: nat, w: nat, ex: Set<Move>, x: Move)
    requires
        d > 0,
        w <= 65536,
        legal_move(v, x),
        !ex.contains(x),
    ensures
        perft_sum(v, d, w, ex) == perft_sum(v, d, w, ex.insert(x)) + if (x.0 as int) < w {
            perft_spec(make_view(v, x), (d - 1) as nat)
        } else {
            0
        },
    decreases w,
{
    if w > 0 {
        lemma_sum_remove(v, d, (w - 1) as nat, ex, x);
        let m = Move((w - 1) as u16);
        assert(m == x <==> x.0 == w - 1);
    }
}

/// Summing over a duplicate-free list of exactly the legal moves not in `ex`
/// gives the sum over all move words.
proof fn lemma_list_sum(v: BoardView, d: nat, l: Seq<Move>, ex: Set<Move>)
    requires
        d > 0,
        l.no_duplicates(),
        forall|m: Move| #[trigger] l.contains(m) <==> (legal_move(v, m) && !ex.contains(m)),
    ensures
        list_sum(v, d, l) == perft_sum(v, d, 65536, ex),
    decreases l.len(),
{
    if l.len() == 0 {
        assert forall|m: Move| !(legal_move(v, m) && !ex.contains(m)) by {
            assert(!l.contains(m));
        }
        lemma_sum_empty(v, d, 65536, ex);
    } else {
        let x = l.last();
        let l2 = l.drop_last();
        assert(l.contains(x)) by {
            assert(l[l.len() - 1] == x);
        }
        assert forall|m: Move| #[trigger] l2.contains(m) <==> (legal_move(v, m) && !ex.insert(x).contains(m)) by {
            if l2.contains(m) {
                let i = choose|i: int| 0 <= i < l2.len() && l2[i] == m;
                assert(l[i] == m);
                assert(l[l.len() - 1] == x);
                assert(i != l.len() - 1);
                assert(m != x);
                assert(l.contains(m));
            }
            if legal_move(v, m) && !ex.insert(x).contains(m) {
                assert(l.contains(m));
                let i = choose|i: int| 0 <= i < l.len() && l[i] == m;
                assert(i != l.len() - 1);
                assert(l2[i] == m);
            }
        }
        assert(l2.no_duplicates()) by {
            assert forall|i: int, j: int| 0 <= i < l2.len() && 0 <= j < l2.len() && i != j implies l2[i] != l2[j] by {
                assert(l[i] == l2[i] && l[j] == l2[j]);
            }
        }
        lemma_list_sum(v, d, l2, ex.insert(x));
        lemma_sum_remove(v, d, 65536, ex, x);
    }
}

proof fn lemma_sum_empty(v: BoardView, d: nat, w: nat, ex: Set<Move>)
    requires
        forall|m: Move| !(legal_move(v, m) && !ex.contains(m)),
    ensures
        perft_sum(v, d, w, ex) == 0,
    decreases w,
{
    if w > 0 {
        lemma_sum_empty(v, d, (w - 1) as nat, ex);
    }
}

proof fn lemma_list_sum_prefix(v: BoardView, d: nat, l: Seq<Move>, i: int)
    requires
        0 <= i <= l.len(),
    ensures
        list_sum(v, d, l.take(i)) <= list_sum(v, d, l),
    decreases l.len(),
{
    if i < l.len() {
        assert(l.drop_last().take(i) =~= l.take(i));
        lemma_list_sum_prefix(v, d, l.drop_last(), i);
    } else {
        assert(l.take(i) =~= l);
    }
}

/// A legal move never takes the king of a side that is not in check.
proof fn lemma_no_king_capture(v: BoardView, m: Move)
    requires
        view_ok(v),
        gen_ready(v),
        legal_move(v, m),
        has_king(v, v.side.other()),
        !attacked(v, king_square(v, v.side.other()), v.side),
    ensures
        has_king(make_view(v, m), v.side.other()),
{
    let them = v.side.other();
    lemma_king_square(v, them);
    let k = king_square(v, them);
    lemma_move_decompose(m);
    lemma_pseudo_move_ok(v, m);
    let from = m.from_sq();
    let to = m.to_sq();
    if to == k && owned_by(v.squares[from], v.side) && piece_move(v, from, to, m.flag_bits()) {
        assert(attacker_on(v, from, v.side, k));
    }
    let w = make_view(v, m);
    assert(is_king_of(w.squares[k], them));
}

/// Playing a legal move keeps every perft precondition.
pub proof fn lemma_child_ready(v: BoardView, m: Move)
    requires
        perft_ready(v),
        gen_ready(v),
        legal_move(v, m),
    ensures
        perft_ready(make_view(v, m)),
{
    let w = make_view(v, m);
    lemma_move_decompose(m);
    lemma_pseudo_move_ok(v, m);
    lemma_no_king_capture(v, m);
    crate::movegen::lemma_make_keeps_king(v, m);
    lemma_child_consistent(v, m);
}

proof fn lemma_child_consistent(v: BoardView, m: Move)
    requires
        gen_ready(v),
        pseudo_move(v, m),
    ensures
        ep_consistent(make_view(v, m)),
        castle_consistent(make_view(v, m)),
        view_ok(make_view(v, m)),
{
    lemma_move_decompose(m);
    lemma_pseudo_move_ok(v, m);
    let c = v.castling;
    lemma_mask_bits(m.from_sq());
    lemma_mask_bits(m.to_sq());
    let m1 = crate::position::castling_mask_spec(m.from_sq());
    let m2 = crate::position::castling_mask_spec(m.to_sq());
    crate::position::lemma_mask_keep(c, m1, m2);
}

proof fn lemma_mask_bits(s: int)
    ensures
        crate::position::castling_mask_spec(s) & 1 != 0 ==> s != 4 && s != 7,
        crate::position::castling_mask_spec(s) & 2 != 0 ==> s != 4 && s != 0,
        crate::position::castling_mask_spec(s) & 4 != 0 ==> s != 60 && s != 63,
        crate::position::castling_mask_spec(s) & 8 != 0 ==> s != 60 && s != 56,
{
    crate::position::lemma_mask_constants();
}

pub fn perft(pos: &mut Position, depth: u32) -> (nodes: u64)
    requires
        old(pos).wf(),
        perft_ready(old(pos)@),
        old(pos)@.halfmove + depth <= 65535,
        old(pos)@.fullmove + depth <= 65535,
        perft_spec(old(pos)@, depth as nat) <= u64::MAX,
    ensures
        final(pos).wf(),
        final(pos)@ == old(pos)@,
        nodes == perft_spec(old(pos)@, depth as nat),
    decreases depth,
{
    let ghost v = pos@;
    if depth == 0 {
        return 1;
    }
    let moves = generate_legal(pos);
    proof {
        lemma_list_sum(v, depth as nat, moves@, Set::empty());
    }
    if depth == 1 {
        proof {
            lemma_list_sum_ones(v, moves@);
        }
        return moves.len() as u64;
    }
    let mut nodes = 0u64;
    let mut i: usize = 0;
    while i < moves.len()
        invariant
            pos.wf(),
            pos@ == v,
            perft_ready(v),
            gen_ready(v),
            2 <= depth,
            v.halfmove + depth <= 65535,
            v.fullmove + depth <= 65535,
            i <= moves@.len(),
            forall|m: Move| #[trigger] moves@.contains(m) <==> legal_move(v, m),
            list_sum(v, depth as nat, moves@) == perft_spec(v, depth as nat),
            perft_spec(v, depth as nat) <= u64::MAX,
            nodes == list_sum(v, depth as nat, moves@.take(i as int)),
        decreases moves@.len() - i,
    {
        let mv = moves[i];
        proof {
            assert(moves@.contains(mv));
            lemma_pseudo_move_ok(v, mv);
            lemma_unmake_inverts_make(v, mv);
            lemma_child_ready(v, mv);
            lemma_list_sum_prefix(v, depth as nat, moves@, i + 1);
            assert(moves@.take(i + 1).drop_last() =~= moves@.take(i as int));
            assert(moves@.take(i + 1).last() == mv);
        }
        let undo = pos.make_move(mv);
        let n = perft(pos, depth - 1);
        pos.unmake_move(mv, undo);
        nodes = nodes + n;
        i = i + 1;
    }
    proof {
        assert(moves@.take(moves@.len() as int) =~= moves@);
    }
    nodes
}

/// Whether `pos` meets what `perft` (and the search) need of a position:
/// both kings are on the board, the side that just moved is not in check,
/// and the castling rights and en-passant target agree with the board.
pub fn perft_ready_check(pos: &Position) -> (r: bool)
    requires
        pos.wf(),
    ensures
        r == perft_ready(pos@),
{
    let us = pos.side;
    let them = us.opp();
    let ks = pos.king_sq(us);
    let kt = pos.king_sq(them);
    if ks >= 64 || kt >= 64 {
        return false;
    }
    if pos.is_attacked(kt, us) {
        return false;
    }
    rights_consistent(pos)
}

/// Walk the move tree to `depth`, checking at every node, and again after
/// each move is taken back, that the incrementally kept hash equals a full
/// recomputation. It never finds a mismatch.
pub fn hashcheck(pos: &mut Position, depth: u32) -> (ok: bool)
    requires
        old(pos).wf(),
        perft_ready(old(pos)@),
        old(pos)@.halfmove + depth <= 65535,
        old(pos)@.fullmove + depth <= 65535,
    ensures
        ok,
        final(pos).wf(),
        final(pos)@ == old(pos)@,
    decreases depth,
{
    let ghost v = pos@;
    if pos.hash != pos.compute_hash() {
        return false;
    }
    if depth == 0 {
        return true;
    }
    let moves = generate_legal(pos);
    let mut i: usize = 0;
    while i < moves.len()
        invariant
            pos.wf(),
            pos@ == v,
            perft_ready(v),
            gen_ready(v),
            1 <= depth,
            v.halfmove + depth <= 65535,
            v.fullmove + depth <= 65535,
            i <= moves@.len(),
            forall|m: Move| #[trigger] moves@.contains(m) <==> legal_move(v, m),
        decreases moves@.len() - i,
    {
        let mv = moves[i];
        proof {
            assert(moves@.contains(mv));
            lemma_pseudo_move_ok(v, mv);
            lemma_unmake_inverts_make(v, mv);
            lemma_child_ready(v, mv);
        }
        let undo = pos.make_move(mv);
        if !hashcheck(pos, depth - 1) {
            return false;
        }
        pos.unmake_move(mv, undo);
        if pos.hash != pos.compute_hash() {
            return false;
        }
        i = i + 1;
    }
    true
}

/// The depth `perft_divide` counts to: at least one ply.
pub open spec fn divide_depth(depth: nat) -> nat {
    if depth <= 1 {
        1
    } else {
        depth
    }
}

/// The sum of the counts of a breakdown.
pub open spec fn count_total(s: Seq<(Move, u64)>) -> nat
    decreases s.len(),
{
    if s.len() == 0 {
        0
    } else {
        count_total(s.drop_last()) + s.last().1 as nat
    }
}

/// The moves of a breakdown, in its order.
pub open spec fn divide_moves(s: Seq<(Move, u64)>) -> Seq<Move> {
    Seq::new(s.len(), |k: int| s[k].0)
}

/// Perft with a per-root-move breakdown (as Stockfish's `go perft` reports
/// it): each legal move with the leaf count of the tree of `depth - 1`
/// plies below it (one per move when `depth` is 0 or 1), and their total.
pub fn perft_divide(pos: &mut Position, depth: u32) -> (r: (Vec<(Move, u64)>, u64))
    requires
        old(pos).wf(),
        perft_ready(old(pos)@),
        old(pos)@.halfmove + divide_depth(depth as nat) <= 65535,
        old(pos)@.fullmove + divide_depth(depth as nat) <= 65535,
        perft_spec(old(pos)@, divide_depth(depth as nat)) <= u64::MAX,
    ensures
        final(pos).wf(),
        final(pos)@ == old(pos)@,
        forall|k: int| 0 <= k < r.0@.len() ==> (#[trigger] r.0@[k]).1 == perft_spec(make_view(old(pos)@, r.0@[k].0), (divide_depth(depth as nat) - 1) as nat),
        forall|m: Move| (exists|k: int| 0 <= k < r.0@.len() && (#[trigger] r.0@[k]).0 == m) <==> legal_move(old(pos)@, m),
        forall|a: int, b: int| 0 <= a < b < r.0@.len() ==> (#[trigger] r.0@[a]).0 != (#[trigger] r.0@[b]).0,
        r.1 == count_total(r.0@),
        r.1 == perft_spec(old(pos)@, divide_depth(depth as nat)),
        // In the order of move generation.
        forall|a: int, b: int| 0 <= a < b < r.0@.len() ==> move_stage(old(pos)@, (#[trigger] r.0@[a]).0) <= move_stage(old(pos)@, (#[trigger] r.0@[b]).0),
        stage_square_order(old(pos)@, divide_moves(r.0@)),
        promo_order(divide_moves(r.0@)),
{
    let ghost v = pos@;
    let ghost d = divide_depth(depth as nat);
    let moves = generate_legal(pos);
    proof {
        lemma_list_sum(v, d, moves@, Set::empty());
    }
    let mut counts: Vec<(Move, u64)> = Vec::new();
    let mut total = 0u64;
    let mut i: usize = 0;
    while i < moves.len()
        invariant
            pos.wf(),
            pos@ == v,
            perft_ready(v),
            gen_ready(v),
            d == divide_depth(depth as nat),
            v.halfmove + d <= 65535,
            v.fullmove + d <= 65535,
            i <= moves@.len(),
            counts@.len() == i,
            forall|k: int| 0 <= k < i ==> (#[trigger] counts@[k]).0 == moves@[k] && counts@[k].1 == perft_spec(make_view(v, moves@[k]), (d - 1) as nat),
            forall|m: Move| #[trigger] moves@.contains(m) <==> legal_move(v, m),
            list_sum(v, d, moves@) == perft_spec(v, d),
            perft_spec(v, d) <= u64::MAX,
            total == list_sum(v, d, moves@.take(i as int)),
            total == count_total(counts@),
        decreases moves@.len() - i,
    {
        let mv = moves[i];
        proof {
            assert(moves@.contains(mv));
            lemma_pseudo_move_ok(v, mv);
            lemma_unmake_inverts_make(v, mv);
            lemma_child_ready(v, mv);
            lemma_list_sum_prefix(v, d, moves@, i + 1);
            assert(moves@.take(i + 1).drop_last() =~= moves@.take(i as int));
            assert(moves@.take(i + 1).last() == mv);
        }
        let undo = pos.make_move(mv);
        let n = if depth <= 1 { 1 } else { perft(pos, depth - 1) };
        pos.unmake_move(mv, undo);
        let ghost before = counts@;
        counts.push((mv, n));
        proof {
            assert(counts@.drop_last() =~= before);
        }
        total = total + n;
        i = i + 1;
    }
    proof {
        assert(moves@.take(moves@.len() as int) =~= moves@);
        assert forall|m: Move| (exists|k: int| 0 <= k < counts@.len() && (#[trigger] counts@[k]).0 == m) <==> legal_move(v, m) by {
            if legal_move(v, m) {
                assert(moves@.contains(m));
                let k = choose|k: int| 0 <= k < moves@.len() && moves@[k] == m;
                assert(counts@[k].0 == m);
            }
            if exists|k: int| 0 <= k < counts@.len() && (#[trigger] counts@[k]).0 == m {
                let k = choose|k: int| 0 <= k < counts@.len() && (#[trigger] counts@[k]).0 == m;
                assert(moves@[k] == m);
                assert(moves@.contains(m));
            }
        }
        assert forall|a: int, b: int| 0 <= a < b < counts@.len() implies (#[trigger] counts@[a]).0 != (#[trigger] counts@[b]).0 by {
            assert(moves@[a] != moves@[b]);
        }
        assert forall|a: int, b: int| 0 <= a < b < counts@.len() implies move_stage(v, (#[trigger] counts@[a]).0) <= move_stage(v, (#[trigger] counts@[b]).0) by {
            assert(move_stage(v, moves@[a]) <= move_stage(v, moves@[b]));
        }
        assert(divide_moves(counts@) =~= moves@);
    }
    (counts, total)
}

proof fn lemma_list_sum_ones(v: BoardView, l: Seq<Move>)
    ensures
        list_sum(v, 1, l) == l.len(),
    decreases l.len(),
{
    if l.len() > 0 {
        lemma_list_sum_ones(v, l.drop_last());
    }
}

} // verus!
