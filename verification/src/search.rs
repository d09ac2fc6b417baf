//! Negamax alpha-beta search with iterative deepening, a transposition table,
//! quiescence search, and move ordering (TT move, MVV-LVA, killers, history).
use crate::eval::{eval_spec, evaluate, INF, MATE_VALUE};
use crate::movegen::{gen_ready, generate_legal, lemma_pseudo_move_ok, lemma_push, legal_move, MoveList};
use crate::perft::{lemma_child_ready, perft_ready, perft_ready_check};
use crate::position::{hash_spec, in_check_spec, lemma_unmake_inverts_make, make_undo, make_view, move_ok, unmake_ok, unmake_view, BoardView, Position};
use crate::text::{decimal, push_decimal, push_signed, push_text, signed_text};
use crate::types::{promo_of_flag, Move, PieceType};
use std::time::{Duration, Instant};
use vstd::arithmetic::power2::pow2;
use vstd::prelude::*;

verus! {

pub const MAX_PLY: usize = 128;

const BOUND_EXACT: u8 = 0;

const BOUND_LOWER: u8 = 1;  // fail-high: score is a lower bound

const BOUND_UPPER: u8 = 2;  // fail-low: score is an upper bound

#[verifier::external_type_specification]
#[verifier::external_body]
pub struct ExInstant(Instant);

/// `Instant::now`: the current time. Nothing is claimed about the value.
#[verifier::external_body]
fn now() -> Instant {
    Instant::now()
}

/// `Instant::elapsed`: the time passed since `t`. Nothing is claimed about the value.
#[verifier::external_body]
fn elapsed(t: &Instant) -> Duration {
    t.elapsed()
}

/// `Duration::as_millis`: the whole milliseconds of `d`. Nothing is claimed about the value.
#[verifier::external_body]
fn as_millis(d: &Duration) -> u128 {
    d.as_millis()
}

#[derive(Clone, Copy)]
struct TTEntry {
    key: u64,
    mv: Move,
    score: i32,
    depth: i16,
    bound: u8,
}

fn tt_empty() -> (e: TTEntry)
    ensures
        e.key == 0,
        e.mv.0 == 0,
        e.score == 0,
        e.depth == -1,
        e.bound == BOUND_EXACT,
{
    TTEntry { key: 0, mv: Move(0), score: 0, depth: -1, bound: BOUND_EXACT }
}

#[derive(Clone)]
pub struct SearchLimits {
    pub depth: Option<u32>,
    pub movetime_ms: Option<u64>,
    pub nodes: Option<u64>,
}

impl Default for SearchLimits {
    fn default() -> (l: Self)
        ensures
            l.depth == Some(64u32),
            l.movetime_ms is None,
            l.nodes is None,
    {
        SearchLimits { depth: Some(64), movetime_ms: None, nodes: None }
    }
}

pub struct SearchResult {
    pub best_move: Move,
    pub score: i32,
    pub depth: u32,
    pub pv: Vec<Move>,
    pub nodes: u64,
}

pub struct Search {
    tt: Vec<TTEntry>,
    tt_mask: usize,
    killers: [[Move; 2]; 128],
    history: [[i32; 64]; 64],
    nodes: u64,
    start: Instant,
    limits: SearchLimits,
    stop: bool,
    /// Hashes of positions along the path + game history (for repetition draws).
    rep: Vec<u64>,
    /// If non-empty, only these moves are considered at the root (UCI searchmoves).
    root_moves: Vec<Move>,
    // Triangular PV table.
    pv: Vec<[Move; 128]>,
    pv_len: [usize; 128],
    /// Whether to record UCI `info` lines during iterative deepening.
    pub verbose: bool,
    /// The `info` lines of the last search, one per completed iteration.
    info: Vec<String>,
}

/// The deepest iteration a search with depth limit `d` runs: `d` (64 when
/// unset), at most `MAX_PLY - 1`.
pub open spec fn depth_target(d: Option<u32>) -> u32 {
    match d {
        Some(d) => if d < 127 { d } else { 127 },
        None => 64,
    }
}

/// The bytes one table entry takes (at least one).
pub closed spec fn entry_bytes() -> nat {
    let b = vstd::layout::size_of::<TTEntry>();
    if b == 0 {
        1
    } else {
        b
    }
}

/// `n` entries is what a table of `mb` megabytes gets: the smallest power of
/// two at or above the number of entries that `mb` megabytes (at least one) hold.
pub open spec fn table_entries_for(mb: nat, n: nat) -> bool {
    let want = (if mb > 1 { mb } else { 1 }) * 0x10_0000 / entry_bytes();
    &&& is_pow2(n)
    &&& n >= want
    &&& (n < 2 * want || n == 1)
}

/// Mate scores are stored relative to the node: on store a mate score moves
/// `ply` further from zero, on probe `ply` closer.
pub open spec fn mate_to_tt(score: int, ply: int) -> int {
    if score >= MATE_VALUE - MAX_PLY {
        score + ply
    } else if score <= -(MATE_VALUE - MAX_PLY) {
        score - ply
    } else {
        score
    }
}

pub open spec fn mate_from_tt(score: int, ply: int) -> int {
    if score >= MATE_VALUE - MAX_PLY {
        score - ply
    } else if score <= -(MATE_VALUE - MAX_PLY) {
        score + ply
    } else {
        score
    }
}

/// The largest score magnitude a table entry holds: a score of the search
/// moved away from zero by at most one less than `MAX_PLY`.
pub open spec fn tt_score_bound() -> int {
    INF + MAX_PLY
}

/// Storing a score and probing it back at the same ply gives it back.
pub proof fn lemma_mate_roundtrip(score: int, ply: int)
    requires
        0 <= ply,
    ensures
        mate_from_tt(mate_to_tt(score, ply), ply) == score,
{
}

impl Search {
    /// Sizes and bounds the search relies on.
    pub closed spec fn inv(&self) -> bool {
        &&& self.tt@.len() == self.tt_mask + 1
        &&& self.pv@.len() == MAX_PLY
        &&& forall|i: int| 0 <= i < self.tt@.len() ==> -tt_score_bound() <= #[trigger] self.tt@[i].score <= tt_score_bound()
        &&& forall|i: int| 0 <= i < self.tt@.len() ==> -1 <= #[trigger] self.tt@[i].depth
        &&& forall|p: int| 0 <= p < MAX_PLY ==> #[trigger] self.pv_len[p] <= MAX_PLY - p
    }

    /// Whether iterations record their `info` line.
    pub closed spec fn verbose_flag(&self) -> bool {
        self.verbose
    }

    /// No search has run yet: no killer moves, zero history scores, no
    /// nodes counted, no stop, no path, root moves, variations or `info`
    /// lines, and the default limits.
    pub closed spec fn fresh(&self) -> bool {
        &&& forall|p: int, k: int| 0 <= p < MAX_PLY && 0 <= k < 2 ==> #[trigger] self.killers[p][k] == Move(0)
        &&& forall|a: int, b: int| 0 <= a < 64 && 0 <= b < 64 ==> #[trigger] self.history[a][b] == 0
        &&& self.nodes == 0
        &&& !self.stop
        &&& self.rep@.len() == 0
        &&& self.root_moves@.len() == 0
        &&& self.info@.len() == 0
        &&& forall|p: int| 0 <= p < MAX_PLY ==> #[trigger] self.pv_len[p] == 0
        &&& self.limits == (SearchLimits { depth: Some(64), movetime_ms: None, nodes: None })
    }

    /// `self` differs from `o` in the table contents at most.
    pub closed spec fn same_but_table(&self, o: &Search) -> bool {
        *self == (Search { tt: self.tt, ..*o })
    }

    /// The limits of the last search.
    pub closed spec fn search_limits(&self) -> SearchLimits {
        self.limits
    }

    /// The `info` lines recorded by the last search.
    pub closed spec fn info_lines(&self) -> Seq<String> {
        self.info@
    }

    /// Number of transposition table entries.
    pub closed spec fn tt_len(&self) -> nat {
        self.tt@.len()
    }

    /// Every transposition table entry is empty.
    pub closed spec fn tt_is_clear(&self) -> bool {
        forall|i: int| 0 <= i < self.tt@.len() ==> #[trigger] self.tt@[i] == tt_empty_spec()
    }

    /// The `info` lines of the last search.
    pub fn info_log(&self) -> (lines: &Vec<String>)
        ensures
            lines@ == self.info_lines(),
    {
        &self.info
    }

    /// Create a search with a transposition table of roughly `mb` megabytes.
    pub fn new(mb: usize) -> (s: Search)
        requires
            mb * 0x10_0000 <= usize::MAX / 2,
        ensures
            s.inv(),
            s.verbose_flag(),
            s.tt_is_clear(),
            s.info_lines().len() == 0,
            table_entries_for(mb as nat, s.tt_len()),
            s.fresh(),
    {
        let m = if mb > 1 { mb } else { 1 };
        let bytes = m * 1024 * 1024;
        let sz = std::mem::size_of::<TTEntry>();
        let per = if sz == 0 { 1 } else { sz };
        let n = next_power_of_two(bytes / per);
        let e = tt_empty();
        let tt = vec![e; n];
        let s = Search {
            tt,
            tt_mask: n - 1,
            killers: [[Move(0); 2]; 128],
            history: [[0; 64]; 64],
            nodes: 0,
            start: now(),
            limits: SearchLimits::default(),
            stop: false,
            rep: Vec::with_capacity(512),
            root_moves: Vec::new(),
            pv: vec![[Move(0); 128]; 128],
            pv_len: [0; 128],
            verbose: true,
            info: Vec::new(),
        };
        s
    }

    pub fn clear_tt(&mut self)
        requires
            old(self).inv(),
        ensures
            final(self).inv(),
            final(self).tt_len() == old(self).tt_len(),
            final(self).tt_is_clear(),
            final(self).verbose_flag() == old(self).verbose_flag(),
            final(self).same_but_table(&*old(self)),
    {
        let mut i: usize = 0;
        while i < self.tt.len()
            invariant
                self.inv(),
                self.tt@.len() == old(self).tt@.len(),
                self.verbose == old(self).verbose,
                self.same_but_table(&*old(self)),
                i <= self.tt@.len(),
                forall|j: int| 0 <= j < i ==> #[trigger] self.tt@[j] == tt_empty_spec(),
            decreases self.tt@.len() - i,
        {
            self.tt.set(i, tt_empty());
            i = i + 1;
        }
    }
}

/// The empty table entry.
spec fn tt_empty_spec() -> TTEntry {
    TTEntry { key: 0, mv: Move(0), score: 0, depth: -1i16, bound: BOUND_EXACT }
}

/// Some entry of `s` holds move `m`.
/// `x` comes before `y` in `l`.
pub open spec fn comes_before(l: Seq<Move>, x: Move, y: Move) -> bool {
    exists|p: int, q: int| 0 <= p < q < l.len() && #[trigger] l[p] == x && #[trigger] l[q] == y
}

pub open spec fn has_move(s: Seq<(i32, Move)>, m: Move) -> bool {
    exists|k: int| 0 <= k < s.len() && (#[trigger] s[k]).1 == m
}

/// Piece values used to order captures (most valuable victim, least valuable attacker).
pub open spec fn order_value(pt: PieceType) -> int {
    match pt {
        PieceType::Pawn => 100,
        PieceType::Knight => 320,
        PieceType::Bishop => 330,
        PieceType::Rook => 500,
        PieceType::Queen => 900,
        PieceType::King => 20000,
    }
}

fn order_value_exec(pt: PieceType) -> (r: i32)
    ensures
        r == order_value(pt),
{
    match pt {
        PieceType::Pawn => 100,
        PieceType::Knight => 320,
        PieceType::Bishop => 330,
        PieceType::Rook => 500,
        PieceType::Queen => 900,
        PieceType::King => 20000,
    }
}

/// Score of a capture or promotion: victim value times sixteen minus the
/// attacker's value, plus the value of a promotion piece.
pub open spec fn capture_order(v: BoardView, mv: Move) -> int {
    let victim = if mv.flag_bits() == 5 {
        PieceType::Pawn
    } else {
        match v.squares[mv.to_sq()] {
            Some((_, pt)) => pt,
            None => PieceType::Pawn,
        }
    };
    let attacker = match v.squares[mv.from_sq()] {
        Some((_, pt)) => pt,
        None => PieceType::Pawn,
    };
    let bonus = match promo_of_flag(mv.flag_bits()) {
        Some(p) => order_value(p),
        None => 0,
    };
    1_000_000 + order_value(victim) * 16 - order_value(attacker) + bonus
}

impl Search {
    /// The ordering score of `mv`: the table move first, then captures and
    /// promotions, then the two killer moves of the ply, then the history score.
    pub closed spec fn order_score(&self, v: BoardView, mv: Move, tt_move: Move, ply: int) -> int {
        if mv == tt_move {
            2_000_000
        } else if mv.captures() || mv.promotes() {
            capture_order(v, mv)
        } else if mv == self.killers[ply][0] {
            900_000
        } else if mv == self.killers[ply][1] {
            800_000
        } else {
            self.history[mv.from_sq()][mv.to_sq()] as int
        }
    }

    fn score_move(&self, pos: &Position, mv: Move, tt_move: Move, ply: usize) -> (r: i32)
        requires
            ply < MAX_PLY,
        ensures
            r == self.order_score(pos@, mv, tt_move, ply as int),
    {
        if mv == tt_move {
            2_000_000
        } else if mv.is_capture() || mv.is_promotion() {
            let victim = if mv.is_ep() {
                PieceType::Pawn
            } else {
                match pos.mailbox[mv.to() as usize] {
                    Some((_, pt)) => pt,
                    None => PieceType::Pawn,
                }
            };
            let attacker = match pos.mailbox[mv.from() as usize] {
                Some((_, pt)) => pt,
                None => PieceType::Pawn,
            };
            let bonus = match mv.promo_piece() {
                Some(p) => order_value_exec(p),
                None => 0,
            };
            1_000_000 + order_value_exec(victim) * 16 - order_value_exec(attacker) + bonus
        } else if mv == self.killers[ply][0] {
            900_000
        } else if mv == self.killers[ply][1] {
            800_000
        } else {
            self.history[mv.from() as usize][mv.to() as usize]
        }
    }

    // ---- move ordering ----
    /// Reorder `moves` by descending ordering score, keeping the order of equal scores.
    fn order_moves(&self, pos: &Position, moves: &mut MoveList, tt_move: Move, ply: usize)
        requires
            ply < MAX_PLY,
            old(moves)@.no_duplicates(),
        ensures
            final(moves)@.len() == old(moves)@.len(),
            final(moves)@.no_duplicates(),
            forall|m: Move| #[trigger] final(moves)@.contains(m) <==> old(moves)@.contains(m),
            forall|i: int, j: int| 0 <= i < j < final(moves)@.len() ==> self.order_score(pos@, final(moves)@[i], tt_move, ply as int)
                >= self.order_score(pos@, final(moves)@[j], tt_move, ply as int),
            // Moves of equal score keep their order.
            forall|i: int, j: int| 0 <= i < j < final(moves)@.len() && self.order_score(pos@, #[trigger] final(moves)@[i], tt_move, ply as int)
                == self.order_score(pos@, #[trigger] final(moves)@[j], tt_move, ply as int) ==> comes_before(old(moves)@, final(moves)@[i], final(moves)@[j]),
    {
        let ghost v = pos@;
        let mut sorted: Vec<(i32, Move)> = Vec::new();
        let ghost mut idx: Seq<int> = Seq::empty();
        let mut i: usize = 0;
        while i < moves.len()
            invariant
                i <= moves@.len(),
                moves@.no_duplicates(),
                sorted@.len() == i,
                ply < MAX_PLY,
                v == pos@,
                forall|k: int| 0 <= k < sorted@.len() ==> (#[trigger] sorted@[k]).0 == self.order_score(v, sorted@[k].1, tt_move, ply as int),
                forall|a: int, b: int| 0 <= a < b < sorted@.len() ==> (#[trigger] sorted@[a]).0 >= (#[trigger] sorted@[b]).0,
                forall|m: Move| #[trigger] has_move(sorted@, m) <==> moves@.take(i as int).contains(m),
                forall|a: int, b: int| 0 <= a < b < sorted@.len() ==> (#[trigger] sorted@[a]).1 != (#[trigger] sorted@[b]).1,
                idx.len() == sorted@.len(),
                forall|k: int| 0 <= k < idx.len() ==> 0 <= #[trigger] idx[k] < i && moves@[idx[k]] == sorted@[k].1,
                forall|a: int, b: int| 0 <= a < b < sorted@.len() && (#[trigger] sorted@[a]).0 == (#[trigger] sorted@[b]).0 ==> idx[a] < idx[b],
            decreases moves@.len() - i,
        {
            let mv = moves[i];
            let sc = self.score_move(pos, mv, tt_move, ply);
            // Insert after every entry with a score at least as high (stable).
            let mut at: usize = 0;
            while at < sorted.len() && sorted[at].0 >= sc
                invariant
                    at <= sorted@.len(),
                    forall|k: int| 0 <= k < at ==> (#[trigger] sorted@[k]).0 >= sc,
                decreases sorted@.len() - at,
            {
                at = at + 1;
            }
            proof {
                assert forall|k: int| at <= k < sorted@.len() implies (#[trigger] sorted@[k]).0 < sc by {
                    assert(sorted@[at as int].0 >= sorted@[k].0 || k == at);
                }
            }
            proof {
                assert(!moves@.take(i as int).contains(mv)) by {
                    if moves@.take(i as int).contains(mv) {
                        let j = choose|j: int| 0 <= j < i && moves@.take(i as int)[j] == mv;
                        assert(moves@[j] == moves@[i as int]);
                    }
                }
                assert(moves@.take(i + 1) =~= moves@.take(i as int).push(mv));
            }
            let ghost old_sorted = sorted@;
            let ghost old_idx = idx;
            sorted.insert(at, (sc, mv));
            proof {
                idx = idx.insert(at as int, i as int);
                assert forall|k: int| 0 <= k < idx.len() implies 0 <= #[trigger] idx[k] < i + 1 && moves@[idx[k]] == sorted@[k].1 by {
                    if k < at {
                        assert(idx[k] == old_idx[k] && sorted@[k] == old_sorted[k]);
                    } else if k > at {
                        assert(idx[k] == old_idx[k - 1] && sorted@[k] == old_sorted[k - 1]);
                    }
                }
                assert forall|a: int, b: int| 0 <= a < b < sorted@.len() && (#[trigger] sorted@[a]).0 == (#[trigger] sorted@[b]).0 implies idx[a]
                    < idx[b] by {
                    if b < at {
                        assert(sorted@[a] == old_sorted[a] && sorted@[b] == old_sorted[b]);
                    } else if a > at {
                        assert(sorted@[a] == old_sorted[a - 1] && sorted@[b] == old_sorted[b - 1]);
                    } else if a < at && b > at {
                        assert(sorted@[a] == old_sorted[a] && sorted@[b] == old_sorted[b - 1]);
                    } else if a == at {
                        assert(sorted@[b] == old_sorted[b - 1]);
                        assert(old_sorted[b - 1].0 < sc);
                    } else {
                        assert(sorted@[a] == old_sorted[a]);
                        assert(idx[b] == i);
                    }
                }
                assert(!has_move(old_sorted, mv));
                assert forall|a: int, b: int| 0 <= a < b < sorted@.len() implies (#[trigger] sorted@[a]).1 != (#[trigger] sorted@[b]).1 by {
                    if a == at {
                        assert(sorted@[b] == old_sorted[b - 1]);
                    } else if b == at {
                        assert(sorted@[a] == old_sorted[a]);
                    } else {
                        let oa = if a < at { a } else { a - 1 };
                        let ob = if b < at { b } else { b - 1 };
                        assert(sorted@[a] == old_sorted[oa]);
                        assert(sorted@[b] == old_sorted[ob]);
                    }
                }
                assert forall|k: int| 0 <= k < sorted@.len() implies (#[trigger] sorted@[k]) == (if k < at { old_sorted[k] } else if k
                    == at { (sc, mv) } else { old_sorted[k - 1] }) by {}
                let t1 = moves@.take(i + 1);
                assert forall|m: Move| #[trigger] has_move(sorted@, m) <==> t1.contains(m) by {
                    let t0 = moves@.take(i as int);
                    if has_move(sorted@, m) {
                        let k = choose|k: int| 0 <= k < sorted@.len() && (#[trigger] sorted@[k]).1 == m;
                        if k < at {
                            assert(old_sorted[k].1 == m);
                            assert(has_move(old_sorted, m));
                            assert(t0.contains(m));
                            let j = choose|j: int| 0 <= j < t0.len() && t0[j] == m;
                            assert(t1[j] == m);
                        } else if k == at {
                            assert(t1[i as int] == m);
                        } else {
                            assert(old_sorted[k - 1].1 == m);
                            assert(has_move(old_sorted, m));
                            assert(t0.contains(m));
                            let j = choose|j: int| 0 <= j < t0.len() && t0[j] == m;
                            assert(t1[j] == m);
                        }
                    }
                    if t1.contains(m) {
                        let j = choose|j: int| 0 <= j < t1.len() && t1[j] == m;
                        if j < i {
                            assert(t0[j] == m);
                            assert(t0.contains(m));
                            assert(has_move(old_sorted, m));
                            let k = choose|k: int| 0 <= k < old_sorted.len() && (#[trigger] old_sorted[k]).1 == m;
                            if k < at {
                                assert(sorted@[k].1 == m);
                            } else {
                                assert(sorted@[k + 1].1 == m);
                            }
                        } else {
                            assert(sorted@[at as int].1 == m);
                        }
                    }
                }
            }
            i = i + 1;
        }
        proof {
            assert(moves@.take(moves@.len() as int) =~= moves@);
        }
        let ghost orig = moves@;
        assert forall|m: Move| #[trigger] has_move(sorted@, m) <==> orig.contains(m) by {
            assert(moves@.take(moves@.len() as int) =~= moves@);
        }
        assert forall|a: int, b: int| 0 <= a < b < sorted@.len() && (#[trigger] sorted@[a]).0 == (#[trigger] sorted@[b]).0 implies comes_before(
            orig,
            sorted@[a].1,
            sorted@[b].1,
        ) by {
            assert(orig[idx[a]] == sorted@[a].1 && orig[idx[b]] == sorted@[b].1);
        }
        let mut k: usize = 0;
        while k < sorted.len()
            invariant
                k <= sorted@.len(),
                moves@.len() == sorted@.len(),
                forall|j: int| 0 <= j < k ==> #[trigger] moves@[j] == sorted@[j].1,
                forall|m: Move| #[trigger] has_move(sorted@, m) <==> orig.contains(m),
            decreases sorted@.len() - k,
        {
            moves.set(k, sorted[k].1);
            k = k + 1;
        }
        proof {
            assert forall|i: int, j: int| 0 <= i < j < moves@.len() && self.order_score(v, #[trigger] moves@[i], tt_move, ply as int)
                == self.order_score(v, #[trigger] moves@[j], tt_move, ply as int) implies comes_before(orig, moves@[i], moves@[j]) by {
                assert(moves@[i] == sorted@[i].1 && moves@[j] == sorted@[j].1);
            }
            assert forall|m: Move| #[trigger] moves@.contains(m) <==> orig.contains(m) by {
                if moves@.contains(m) {
                    let j = choose|j: int| 0 <= j < moves@.len() && moves@[j] == m;
                    assert(sorted@[j].1 == m);
                    assert(has_move(sorted@, m));
                }
                if orig.contains(m) {
                    assert(has_move(sorted@, m));
                    let j = choose|j: int| 0 <= j < sorted@.len() && (#[trigger] sorted@[j]).1 == m;
                    assert(moves@[j] == m);
                }
            }
        }
    }

    /// Remember the quiet move `mv` that caused a cutoff at `ply`: as a
    /// killer move, and in the history score of its squares.
    fn record_cutoff(&mut self, ply: usize, mv: Move, bonus: i32)
        requires
            old(self).inv(),
            ply < MAX_PLY,
        ensures
            final(self).keeps(&*old(self), MAX_PLY as int),
            *final(self) == (Search { killers: final(self).killers, history: final(self).history, ..*old(self) }),
            final(self).killers[ply as int] == (if old(self).killers[ply as int][0] != mv {
                [mv, old(self).killers[ply as int][0]]
            } else {
                old(self).killers[ply as int]
            }),
            forall|p: int| 0 <= p < MAX_PLY && p != ply ==> #[trigger] final(self).killers[p] == old(self).killers[p],
            final(self).history[mv.from_sq()][mv.to_sq()] == old(self).history[mv.from_sq()][mv.to_sq()].wrapping_add(bonus),
            forall|a: int, b: int|
                0 <= a < 64 && 0 <= b < 64 && (a != mv.from_sq() || b != mv.to_sq()) ==> #[trigger] final(self).history[a][b]
                    == old(self).history[a][b],
    {
        self.store_killer(ply, mv);
        self.add_history(mv, bonus);
    }

    /// Raise the history score of `mv`'s squares by `bonus` (wrapping).
    fn add_history(&mut self, mv: Move, bonus: i32)
        ensures
            *final(self) == (Search { history: final(self).history, ..*old(self) }),
            final(self).history[mv.from_sq()][mv.to_sq()] == old(self).history[mv.from_sq()][mv.to_sq()].wrapping_add(bonus),
            forall|a: int, b: int|
                0 <= a < 64 && 0 <= b < 64 && (a != mv.from_sq() || b != mv.to_sq()) ==> #[trigger] final(self).history[a][b]
                    == old(self).history[a][b],
    {
        let f = mv.from() as usize;
        let t = mv.to() as usize;
        let mut row = self.history[f];
        row[t] = row[t].wrapping_add(bonus);
        self.history[f] = row;
    }

    fn store_killer(&mut self, ply: usize, mv: Move)
        requires
            ply < MAX_PLY,
        ensures
            final(self).killers[ply as int] == (if old(self).killers[ply as int][0] != mv {
                [mv, old(self).killers[ply as int][0]]
            } else {
                old(self).killers[ply as int]
            }),
            forall|p: int| 0 <= p < MAX_PLY && p != ply ==> #[trigger] final(self).killers[p] == old(self).killers[p],
            *final(self) == (Search { killers: final(self).killers, ..*old(self) }),
    {
        if self.killers[ply][0] != mv {
            self.killers[ply][1] = self.killers[ply][0];
            self.killers[ply][0] = mv;
            proof {
                assert(self.killers[ply as int]@ =~= [mv, old(self).killers[ply as int][0]]@);
            }
        }
    }
}

/// `line` is a sequence of moves, each legal in the position the moves
/// before it lead to from `v`.
pub open spec fn legal_line(v: BoardView, line: Seq<Move>) -> bool
    decreases line.len(),
{
    line.len() > 0 ==> (legal_move(v, line[0]) && legal_line(make_view(v, line[0]), line.drop_first()))
}

/// What the search needs of a position reached at `ply`: move generation
/// can run at every level below it, and the move counters have room for
/// the line the search can play. (The halfmove clock only grows by one
/// ply: below the root a clock of 100 or more ends the line as a draw,
/// and the quiescence search only plays captures and promotions, which
/// reset it.)
pub open spec fn search_ready(v: BoardView, ply: int) -> bool {
    &&& perft_ready(v)
    &&& v.halfmove < (if ply <= 0 { 65534int } else { 65535int })
    &&& v.fullmove + (MAX_PLY - ply) <= 65535
}

/// Whether a search may start from `pos`.
pub fn search_ready_check(pos: &Position) -> (r: bool)
    requires
        pos.wf(),
    ensures
        r == search_ready(pos@, 0),
{
    perft_ready_check(pos) && pos.halfmove < 65534 && pos.fullmove <= 65535 - 128
}

/// Playing a legal move from a position the search may enter at `ply`
/// gives one it may enter at `ply + 1`, and the move can be played and taken back.
pub proof fn lemma_search_child(v: BoardView, ply: int, m: Move)
    requires
        search_ready(v, ply),
        0 <= ply < MAX_PLY,
        legal_move(v, m),
        v.halfmove < 65534 || m.captures() || m.promotes(),
    ensures
        gen_ready(v),
        move_ok(v, m),
        search_ready(make_view(v, m), ply + 1),
        unmake_ok(make_view(v, m), m, make_undo(v, m)),
        unmake_view(make_view(v, m), m, make_undo(v, m)) == v,
{
    lemma_pseudo_move_ok(v, m);
    lemma_child_ready(v, m);
    lemma_unmake_inverts_make(v, m);
    crate::types::lemma_move_decompose(m);
}

/// The depth a node searches to: one more when the side to move is in check.
pub open spec fn node_depth(v: BoardView, depth: int) -> int {
    if in_check_spec(v, v.side) {
        depth + 1
    } else {
        depth
    }
}

/// `v` has a legal move.
pub open spec fn has_legal(v: BoardView) -> bool {
    exists|m: Move| #[trigger] legal_move(v, m)
}

impl Search {
    /// Below the root, a halfmove clock of 100 or more or a position seen
    /// before on the path or in the game is a draw.
    spec fn draw_at(&self, v: BoardView, ply: int) -> bool {
        ply > 0 && (v.halfmove >= 100 || self.rep@.contains(hash_spec(v)))
    }

    /// The table entry `v`'s hash selects.
    spec fn tt_entry_for(&self, v: BoardView) -> TTEntry {
        self.tt@[((hash_spec(v) as usize) & self.tt_mask) as int]
    }

    /// The score the table gives a node of `v` searched to `depth` at `ply`
    /// with window (`alpha`, `beta`), when it settles the node: outside
    /// principal-variation nodes, an entry for this hash searched at least as
    /// deep, whose score (read back at `ply`) lies inside the score range and
    /// is exact, a lower bound at or above `beta`, or an upper bound at or
    /// below `alpha`.
    spec fn tt_cut(&self, v: BoardView, depth: int, ply: int, alpha: int, beta: int) -> Option<int> {
        let e = self.tt_entry_for(v);
        if e.key == hash_spec(v) && beta - alpha <= 1 && e.depth >= depth {
            let s = mate_from_tt(e.score as int, ply);
            if -INF < s < INF && (e.bound == BOUND_EXACT || (e.bound == BOUND_LOWER && s >= beta) || (e.bound == BOUND_UPPER
                && s <= alpha)) {
                Some(s)
            } else {
                None
            }
        } else {
            None
        }
    }

    /// What a node of `v` searched to `depth` at `ply` with window
    /// (`alpha`, `beta`) leaves in the table when it scores `r`: the entry
    /// `v`'s hash selects holds that hash, a legal move of `v`, `r` as
    /// stored from `ply`, the depth, and whether `r` is a lower bound (at
    /// or above `beta`), exact (inside the window) or an upper bound.
    spec fn stored(&self, v: BoardView, depth: int, ply: int, alpha: int, beta: int, r: int) -> bool {
        let e = self.tt_entry_for(v);
        &&& e.key == hash_spec(v)
        &&& legal_move(v, e.mv)
        &&& e.score == mate_to_tt(r, ply)
        &&& e.depth == depth
        &&& e.bound == (if r >= beta {
            BOUND_LOWER
        } else if r > alpha {
            BOUND_EXACT
        } else {
            BOUND_UPPER
        })
    }
}

/// A move a node of `v` at `ply` searches: a legal move, and at the root,
/// when `roots` is not empty, one of `roots`.
pub open spec fn candidate(v: BoardView, ply: int, roots: Seq<Move>, m: Move) -> bool {
    legal_move(v, m) && ((ply == 0 && roots.len() > 0) ==> roots.contains(m))
}

/// One searched move of a node: the move, its score, the node's alpha when
/// it was searched, the search state the reply's search started from, the
/// depth of that search and its window.
pub type Reply = (Move, int, int, Search, int, int, int);

/// The moves of a node of `v` at `ply`, searched `d` plies deep with window
/// (`alpha`, `beta`), as the list `t` of replies: distinct candidate moves;
/// each searched `d - 1` plies deep or up to two plies less, the first with
/// the window (-`beta`, -alpha) and the others with that window or the null
/// window just below -alpha, where alpha is the larger of `alpha` and the
/// scores before it; only the last may score `beta` or more, and when it does
/// not, every candidate move is in the list; `r` is the best score, scored by `bm`.
spec fn replies_ok(v: BoardView, d: int, ply: int, alpha: int, beta: int, r: int, bm: Move, roots: Seq<Move>, t: Seq<Reply>) -> bool {
    &&& t.len() > 0
    &&& t[0].5 == -beta
    &&& forall|k: int| 0 <= k < t.len() ==> candidate(v, ply, roots, (#[trigger] t[k]).0)
    &&& forall|k: int, l: int| 0 <= k < l < t.len() ==> (#[trigger] t[k]).0 != (#[trigger] t[l]).0
    &&& forall|k: int| 0 <= k < t.len() ==> {
        &&& d - 3 <= (#[trigger] t[k]).4 <= d - 1
        &&& t[k].6 == -t[k].2
        &&& (t[k].5 == -beta || t[k].5 == -t[k].2 - 1)
        &&& alpha <= t[k].2
        &&& (t[k].2 == alpha || exists|j: int| 0 <= j < k && t[k].2 == #[trigger] t[j].1)
        &&& t[k].1 <= r
        &&& (k < t.len() - 1 ==> t[k].1 < beta)
    }
    &&& forall|j: int, k: int| 0 <= j < k < t.len() ==> (#[trigger] t[j]).1 <= (#[trigger] t[k]).2
    &&& t.last().1 < beta ==> forall|m: Move| #[trigger] candidate(v, ply, roots, m) ==> exists|k: int| 0 <= k < t.len() && (#[trigger] t[k]).0 == m
    &&& exists|k: int| 0 <= k < t.len() && (#[trigger] t[k]).1 == r && t[k].0 == bm
}

/// The replies `t` of a node fit `replies_ok`, and each score is minus a value
/// the search gives the position after the move.
spec fn searched_ok(v: BoardView, d: int, ply: int, alpha: int, beta: int, r: int, bm: Move, roots: Seq<Move>, t: Seq<Reply>) -> bool {
    &&& replies_ok(v, d, ply, alpha, beta, r, bm, roots, t)
    &&& forall|k: int| 0 <= k < t.len() ==> (#[trigger] t[k]).3.node_value(make_view(v, t[k].0), t[k].4, ply + 1, t[k].5, t[k].6, -t[k].1)
}

/// `score` is minus a value the search gives the reply position `cv` at `ply`,
/// from the state `w.0`, `w.1` plies deep with window (`w.2`, `w.3`): `depth - 1`
/// plies or up to two less, with the window (-`beta`, -`alpha`) or the null
/// window just below -`alpha`.
spec fn reply_ok(cv: BoardView, ply: int, depth: int, alpha: int, beta: int, score: int, w: (Search, int, int, int)) -> bool {
    &&& depth - 3 <= w.1 <= depth - 1
    &&& w.3 == -alpha
    &&& (w.2 == -beta || w.2 == -alpha - 1)
    &&& w.0.node_value(cv, w.1, ply, w.2, w.3, -score)
}

/// What the loop over the moves of a searched node knows of the replies `t`
/// to its first `i` moves `ms`, with best score `best` scored by `bm` (the
/// `bi`-th), and whether a reply has scored `beta` or more (`done`).
#[verifier::opaque]
spec fn trace_inv(
    v: BoardView,
    d: int,
    ply: int,
    alpha: int,
    beta: int,
    best: int,
    bm: Move,
    bi: int,
    done: bool,
    i: int,
    ms: Seq<Move>,
    t: Seq<Reply>,
) -> bool {
    &&& t.len() == i
    &&& i <= ms.len()
    &&& forall|k: int| 0 <= k < i ==> (#[trigger] t[k]).0 == ms[k]
    &&& forall|k: int| 0 <= k < i ==> (#[trigger] t[k]).3.node_value(make_view(v, t[k].0), t[k].4, ply + 1, t[k].5, t[k].6, -t[k].1)
    &&& i > 0 ==> t[0].5 == -beta
    &&& forall|k: int| 0 <= k < i ==> {
        &&& d - 3 <= (#[trigger] t[k]).4 <= d - 1
        &&& t[k].6 == -t[k].2
        &&& (t[k].5 == -beta || t[k].5 == -t[k].2 - 1)
        &&& alpha <= t[k].2
        &&& (t[k].2 == alpha || exists|j: int| 0 <= j < k && t[k].2 == #[trigger] t[j].1)
        &&& t[k].1 <= best
        &&& (t[k].1 >= beta ==> done && k == i - 1)
    }
    &&& forall|j: int, k: int| 0 <= j < k < i ==> (#[trigger] t[j]).1 <= (#[trigger] t[k]).2
    &&& done ==> i > 0 && t[i - 1].1 >= beta
    &&& i > 0 ==> (0 <= bi < i && t[bi].1 == best && t[bi].0 == bm)
}

/// Nothing is searched yet.
proof fn lemma_trace_start(v: BoardView, d: int, ply: int, alpha: int, beta: int, best: int, bm: Move, ms: Seq<Move>)
    ensures
        trace_inv(v, d, ply, alpha, beta, best, bm, 0, false, 0, ms, Seq::empty()),
{
    reveal(trace_inv);
}

/// The `i`-th move `mv` was searched with the node's alpha `a` (the larger of
/// `alpha` and `best` once a move was searched) and scored `score`, the reply
/// satisfying `reply_ok` with `w`.
proof fn lemma_trace_step(
    v: BoardView,
    d: int,
    ply: int,
    alpha: int,
    beta: int,
    best: int,
    bm: Move,
    bi: int,
    i: int,
    ms: Seq<Move>,
    t: Seq<Reply>,
    a: int,
    mv: Move,
    score: int,
    w: (Search, int, int, int),
)
    requires
        trace_inv(v, d, ply, alpha, beta, best, bm, bi, false, i, ms, t),
        0 <= i < ms.len(),
        mv == ms[i],
        a == (if i > 0 && best > alpha { best } else { alpha }),
        a < beta,
        reply_ok(make_view(v, mv), ply + 1, d, a, beta, score, w),
        i == 0 ==> w.2 == -beta,
    ensures
        ({
            let t2 = t.push((mv, score, a, w.0, w.1, w.2, w.3));
            let better = i == 0 || score > best;
            trace_inv(
                v,
                d,
                ply,
                alpha,
                beta,
                if better { score } else { best },
                if better { mv } else { bm },
                if better { i } else { bi },
                score >= beta,
                i + 1,
                ms,
                t2,
            )
        }),
{
    reveal(trace_inv);
    let t2 = t.push((mv, score, a, w.0, w.1, w.2, w.3));
    let better = i == 0 || score > best;
    let nb = if better { score } else { best };
    assert forall|k: int| 0 <= k < i implies #[trigger] t2[k] == t[k] by {}
    assert(t2[i] == (mv, score, a, w.0, w.1, w.2, w.3));
    assert forall|k: int| 0 <= k < i + 1 implies {
        &&& d - 3 <= (#[trigger] t2[k]).4 <= d - 1
        &&& t2[k].6 == -t2[k].2
        &&& (t2[k].5 == -beta || t2[k].5 == -t2[k].2 - 1)
        &&& alpha <= t2[k].2
        &&& (t2[k].2 == alpha || exists|j: int| 0 <= j < k && t2[k].2 == #[trigger] t2[j].1)
        &&& t2[k].1 <= nb
        &&& (t2[k].1 >= beta ==> score >= beta && k == i)
    } by {
        if k < i {
            assert(t2[k] == t[k]);
            if t[k].2 != alpha {
                let j = choose|j: int| 0 <= j < k && t[k].2 == #[trigger] t[j].1;
                assert(t2[j] == t[j]);
            }
        } else {
            if a != alpha {
                assert(t2[bi] == t[bi]);
            }
        }
    }
    assert forall|j: int, k: int| 0 <= j < k < i + 1 implies (#[trigger] t2[j]).1 <= (#[trigger] t2[k]).2 by {
        assert(t2[j] == t[j]);
        if k < i {
            assert(t2[k] == t[k]);
        }
    }
    assert forall|k: int| 0 <= k < i + 1 implies (#[trigger] t2[k]).3.node_value(make_view(v, t2[k].0), t2[k].4, ply + 1, t2[k].5, t2[k].6, -t2[k].1) by {
        if k < i {
            assert(t2[k] == t[k]);
        }
    }
    assert forall|k: int| 0 <= k < i + 1 implies (#[trigger] t2[k]).0 == ms[k] by {
        if k < i {
            assert(t2[k] == t[k]);
        }
    }
    if !better {
        assert(t2[bi] == t[bi]);
    }
}

/// When the loop ends (all moves searched, or a reply scored `beta` or more),
/// the replies fit `searched_ok`.
#[verifier::rlimit(50)]
proof fn lemma_trace_done(
    v: BoardView,
    d: int,
    ply: int,
    alpha: int,
    beta: int,
    best: int,
    bm: Move,
    bi: int,
    done: bool,
    i: int,
    ms: Seq<Move>,
    t: Seq<Reply>,
    roots: Seq<Move>,
)
    requires
        trace_inv(v, d, ply, alpha, beta, best, bm, bi, done, i, ms, t),
        i > 0,
        done || i == ms.len(),
        ms.no_duplicates(),
        forall|m: Move| #[trigger] ms.contains(m) <==> candidate(v, ply, roots, m),
        0 <= ply < MAX_PLY - 1,
    ensures
        searched_ok(v, d, ply, alpha, beta, best, bm, roots, t),
{
    reveal(trace_inv);
    assert forall|k: int, l: int| 0 <= k < l < t.len() implies (#[trigger] t[k]).0 != (#[trigger] t[l]).0 by {
        assert(ms[k] != ms[l]);
    }
    assert forall|k: int| 0 <= k < t.len() implies candidate(v, ply, roots, (#[trigger] t[k]).0) by {
        assert(ms.contains(ms[k]));
    }
    if t.last().1 < beta {
        assert forall|m: Move| #[trigger] candidate(v, ply, roots, m) implies exists|k: int| 0 <= k < t.len() && (#[trigger] t[k]).0 == m by {
            assert(ms.contains(m));
            let k = choose|k: int| 0 <= k < ms.len() && ms[k] == m;
            assert(t[k].0 == m);
        }
    }
    assert(t[bi].1 == best && t[bi].0 == bm);
    assert(replies_ok(v, d, ply, alpha, beta, best, bm, roots, t));
}

impl Search {
    /// `r` is a value the search gives a node of `v` at `ply`, `depth` plies
    /// deep (one more in check), with window (`alpha`, `beta`), starting from
    /// this state: the quiescence value at depth zero and at the last ply
    /// (within the window); zero for a fifty-move or repetition draw below the
    /// root; the table's score where it settles the node; the mate or
    /// stalemate score without legal moves; -`INF` at a root whose listed
    /// moves are all illegal; and otherwise the best of the replies' scores,
    /// each minus a value the search gives the position after the move.
    pub closed spec fn node_value(&self, v: BoardView, depth: int, ply: int, alpha: int, beta: int, r: int) -> bool
        decreases MAX_PLY - ply,
    {
        let d = node_depth(v, depth);
        if d <= 0 {
            window_ok(r, alpha, beta, q_value(v, ply))
        } else if self.draw_at(v, ply) {
            r == 0
        } else if ply >= MAX_PLY - 1 {
            window_ok(r, alpha, beta, q_value(v, ply))
        } else if self.tt_cut(v, d, ply, alpha, beta) is Some {
            r == self.tt_cut(v, d, ply, alpha, beta)->0
        } else if !has_legal(v) {
            r == (if in_check_spec(v, v.side) { -MATE_VALUE + ply } else { 0 })
        } else if ply == 0 && self.root_moves@.len() > 0 && !root_listed(v, self.root_moves@) {
            r == -INF
        } else {
            exists|t: Seq<Reply>, bm: Move| #[trigger] replies_ok(v, d, ply, alpha, beta, r, bm, self.root_moves@, t) && forall|k: int|
                0 <= k < t.len() ==> (#[trigger] t[k]).3.node_value(make_view(v, t[k].0), t[k].4, ply + 1, t[k].5, t[k].6, -t[k].1)
        }
    }

    /// The value of a node settled without searching its moves.
    proof fn lemma_value_settled(&self, v: BoardView, depth: int, ply: int, alpha: int, beta: int, r: int)
        requires
            ({
                let d = node_depth(v, depth);
                ||| d <= 0 && window_ok(r, alpha, beta, q_value(v, ply))
                ||| d > 0 && self.draw_at(v, ply) && r == 0
                ||| d > 0 && !self.draw_at(v, ply) && ply >= MAX_PLY - 1 && window_ok(r, alpha, beta, q_value(v, ply))
                ||| d > 0 && !self.draw_at(v, ply) && ply < MAX_PLY - 1 && self.tt_cut(v, d, ply, alpha, beta) is Some && r
                    == self.tt_cut(v, d, ply, alpha, beta)->0
                ||| d > 0 && !self.draw_at(v, ply) && ply < MAX_PLY - 1 && self.tt_cut(v, d, ply, alpha, beta) is None && !has_legal(v)
                    && r == (if in_check_spec(v, v.side) { -MATE_VALUE + ply } else { 0 })
                ||| d > 0 && !self.draw_at(v, ply) && ply < MAX_PLY - 1 && self.tt_cut(v, d, ply, alpha, beta) is None && has_legal(v)
                    && ply == 0 && self.root_moves@.len() > 0 && !root_listed(v, self.root_moves@) && r == -INF
            }),
        ensures
            self.node_value(v, depth, ply, alpha, beta, r),
    {
    }

    /// The value of a node whose moves were searched.
    proof fn lemma_value_searched(&self, v: BoardView, depth: int, ply: int, alpha: int, beta: int, r: int, bm: Move, t: Seq<Reply>)
        requires
            node_depth(v, depth) > 0,
            !self.draw_at(v, ply),
            ply < MAX_PLY - 1,
            self.tt_cut(v, node_depth(v, depth), ply, alpha, beta) is None,
            has_legal(v),
            ply > 0 || self.root_moves@.len() == 0 || root_listed(v, self.root_moves@),
            searched_ok(v, node_depth(v, depth), ply, alpha, beta, r, bm, self.root_moves@, t),
        ensures
            self.node_value(v, depth, ply, alpha, beta, r),
    {
        assert(replies_ok(v, node_depth(v, depth), ply, alpha, beta, r, bm, self.root_moves@, t));
    }

    /// A root search of `v`, `depth` plies deep with the full window from this
    /// state, went through its moves, scored `score`, and `bm` scored it.
    pub closed spec fn root_searched(&self, v: BoardView, depth: int, score: int, bm: Move) -> bool {
        exists|t: Seq<Reply>| #[trigger] searched_ok(v, node_depth(v, depth), 0, -INF as int, INF as int, score, bm, self.root_moves@, t)
    }

    /// A root search of `v`, `depth` plies deep with the full window, from this
    /// state whose repetition set is `history` and whose root list is `roots`,
    /// gives `score`; and when the root has a move to search, `bm` is a move
    /// that scored it.
    pub closed spec fn root_result(&self, v: BoardView, history: Seq<u64>, roots: Seq<Move>, depth: int, score: int, bm: Move) -> bool {
        &&& self.rep@ == history
        &&& self.root_moves@ == roots
        &&& self.node_value(v, depth, 0, -INF as int, INF as int, score)
        &&& (has_legal(v) && (roots.len() == 0 || root_listed(v, roots))) ==> self.root_searched(v, depth, score, bm)
    }

    /// A root result names the state's root list.
    pub proof fn lemma_root_result_list(&self, v: BoardView, history: Seq<u64>, roots: Seq<Move>, depth: int, score: int, bm: Move)
        requires
            self.root_result(v, history, roots, depth, score, bm),
        ensures
            self.root_list() == roots,
    {
    }

    /// The fifty-move and repetition rules: below the root, a node with depth
    /// left whose halfmove clock is 100 or more, or whose position occurred
    /// before, scores exactly 0; one whose clock is below
    /// 100 and that repeats no earlier position is no draw: at the last ply it
    /// takes the quiescence value within the window.
    pub proof fn lemma_fifty_move_rule(&self, v: BoardView, depth: int, ply: int, alpha: int, beta: int, r: int)
        requires
            0 < ply,
            node_depth(v, depth) > 0,
        ensures
            v.halfmove >= 100 ==> (self.node_value(v, depth, ply, alpha, beta, r) <==> r == 0),
            self.rep_hashes().contains(hash_spec(v)) ==> (self.node_value(v, depth, ply, alpha, beta, r) <==> r == 0),
            (v.halfmove < 100 && !self.rep_hashes().contains(hash_spec(v)) && ply == MAX_PLY - 1) ==> (self.node_value(
                v,
                depth,
                ply,
                alpha,
                beta,
                r,
            ) <==> window_ok(r, alpha, beta, q_value(v, ply))),
    {
    }

    /// The score the table gives a node of `v` searched `d` plies deep at
    /// `ply` with window (`alpha`, `beta`), where it settles the node.
    pub closed spec fn table_cut(&self, v: BoardView, d: int, ply: int, alpha: int, beta: int) -> Option<int> {
        self.tt_cut(v, d, ply, alpha, beta)
    }

    /// The moves of a node of `v` at `ply`, `d` plies deep with window
    /// (`alpha`, `beta`), were searched and their best reply scored `r`.
    pub closed spec fn moves_searched(&self, v: BoardView, d: int, ply: int, alpha: int, beta: int, r: int) -> bool {
        exists|t: Seq<Reply>, bm: Move| #[trigger] searched_ok(v, d, ply, alpha, beta, r, bm, self.root_moves@, t)
    }

    /// Below 100 halfmoves there is no fifty-move draw: a node at any ply
    /// below the root and before the last, with depth left, whose position
    /// repeats no earlier one and is not settled by the table, is scored as
    /// mate or stalemate without legal moves and by searching its moves
    /// otherwise.
    pub proof fn lemma_no_draw_below_fifty(&self, v: BoardView, depth: int, ply: int, alpha: int, beta: int, r: int)
        requires
            0 < ply < MAX_PLY - 1,
            node_depth(v, depth) > 0,
            v.halfmove < 100,
            !self.rep_hashes().contains(hash_spec(v)),
            self.table_cut(v, node_depth(v, depth), ply, alpha, beta) is None,
        ensures
            !has_legal(v) ==> (self.node_value(v, depth, ply, alpha, beta, r) <==> r == (if in_check_spec(v, v.side) {
                -MATE_VALUE + ply
            } else {
                0
            })),
            has_legal(v) ==> (self.node_value(v, depth, ply, alpha, beta, r) <==> self.moves_searched(
                v,
                node_depth(v, depth),
                ply,
                alpha,
                beta,
                r,
            )),
    {
        if has_legal(v) {
            let d = node_depth(v, depth);
            if self.node_value(v, depth, ply, alpha, beta, r) {
                let (t, bm) = choose|t: Seq<Reply>, bm: Move| #[trigger] replies_ok(v, d, ply, alpha, beta, r, bm, self.root_moves@, t)
                    && forall|k: int| 0 <= k < t.len() ==> (#[trigger] t[k]).3.node_value(make_view(v, t[k].0), t[k].4, ply + 1, t[k].5, t[k].6, -t[k].1);
                assert(searched_ok(v, d, ply, alpha, beta, r, bm, self.root_moves@, t));
            }
            if self.moves_searched(v, d, ply, alpha, beta, r) {
                let (t, bm) = choose|t: Seq<Reply>, bm: Move| #[trigger] searched_ok(v, d, ply, alpha, beta, r, bm, self.root_moves@, t);
                assert(replies_ok(v, d, ply, alpha, beta, r, bm, self.root_moves@, t));
            }
        }
    }

    /// The root is never scored as a draw, whatever its halfmove clock and
    /// however often it occurred: with depth left and no table cutoff it is
    /// scored as mate or stalemate without legal moves and by searching its
    /// (listed) moves otherwise.
    pub proof fn lemma_root_no_draw(&self, v: BoardView, depth: int, alpha: int, beta: int, r: int)
        requires
            node_depth(v, depth) > 0,
            self.table_cut(v, node_depth(v, depth), 0, alpha, beta) is None,
            self.root_list().len() == 0 || root_listed(v, self.root_list()),
        ensures
            !has_legal(v) ==> (self.node_value(v, depth, 0, alpha, beta, r) <==> r == (if in_check_spec(v, v.side) {
                -MATE_VALUE
            } else {
                0
            })),
            has_legal(v) ==> (self.node_value(v, depth, 0, alpha, beta, r) <==> self.moves_searched(
                v,
                node_depth(v, depth),
                0,
                alpha,
                beta,
                r,
            )),
    {
        if has_legal(v) {
            let d = node_depth(v, depth);
            if self.node_value(v, depth, 0, alpha, beta, r) {
                let (t, bm) = choose|t: Seq<Reply>, bm: Move| #[trigger] replies_ok(v, d, 0, alpha, beta, r, bm, self.root_moves@, t)
                    && forall|k: int| 0 <= k < t.len() ==> (#[trigger] t[k]).3.node_value(make_view(v, t[k].0), t[k].4, 1int, t[k].5, t[k].6, -t[k].1);
                assert(searched_ok(v, d, 0, alpha, beta, r, bm, self.root_moves@, t));
            }
            if self.moves_searched(v, d, 0, alpha, beta, r) {
                let (t, bm) = choose|t: Seq<Reply>, bm: Move| #[trigger] searched_ok(v, d, 0, alpha, beta, r, bm, self.root_moves@, t);
                assert(replies_ok(v, d, 0, alpha, beta, r, bm, self.root_moves@, t));
            }
        }
    }

    /// The hashes the repetition test looks for.
    pub closed spec fn rep_hashes(&self) -> Seq<u64> {
        self.rep@
    }

    /// The moves the root search is restricted to.
    pub closed spec fn root_list(&self) -> Seq<Move> {
        self.root_moves@
    }
}

impl Search {
    /// The principal variation recorded for `ply`.
    spec fn pv_line(&self, ply: int) -> Seq<Move> {
        self.pv@[ply]@.take(self.pv_len[ply] as int)
    }

    /// `self` has the invariant, and agrees with `o` on everything the
    /// search must leave alone, including the variations of plies below `ply`.
    spec fn keeps(&self, o: &Search, ply: int) -> bool {
        &&& self.inv()
        &&& self.tt@.len() == o.tt@.len()
        &&& self.rep@ == o.rep@
        &&& self.root_moves@ == o.root_moves@
        &&& self.limits == o.limits
        &&& self.start == o.start
        &&& self.verbose == o.verbose
        &&& self.info == o.info
        &&& (!o.stop && o.unlimited()) ==> !self.stop
        &&& o.stop ==> self.stop
        &&& forall|p: int| 0 <= p < ply ==> #[trigger] self.pv@[p] == o.pv@[p] && self.pv_len[p] == o.pv_len[p]
    }

    /// Neither a move time nor a node limit is set.
    spec fn unlimited(&self) -> bool {
        self.limits.movetime_ms is None && self.limits.nodes is None
    }

    /// What two calls in a row leave alone.
    proof fn lemma_keeps_trans(a: &Search, b: &Search, c: &Search, p: int, q: int)
        requires
            b.keeps(a, p),
            c.keeps(b, q),
            p <= q,
        ensures
            c.keeps(a, p),
    {
    }

    /// Make `mv` followed by the variation of `ply + 1` the variation of `ply`.
    fn update_pv(&mut self, ply: usize, mv: Move)
        requires
            old(self).inv(),
            ply + 1 < MAX_PLY,
        ensures
            final(self).keeps(&*old(self), ply as int),
            final(self).pv_line(ply as int) == seq![mv] + old(self).pv_line(ply + 1),
            final(self).tt == old(self).tt,
            final(self).stop == old(self).stop,
    {
        let mut row = self.pv[ply];
        let child = self.pv[ply + 1];
        let child_len = self.pv_len[ply + 1];
        row[0] = mv;
        let mut i: usize = 0;
        while i < child_len
            invariant
                i <= child_len,
                child_len <= MAX_PLY - ply - 1,
                ply + 1 < MAX_PLY,
                row[0] == mv,
                forall|k: int| 0 <= k < i ==> #[trigger] row[k + 1] == child[k],
            decreases child_len - i,
        {
            row[i + 1] = child[i];
            i = i + 1;
        }
        self.pv.set(ply, row);
        self.pv_len[ply] = child_len + 1;
        proof {
            assert(self.pv@[ply as int] == row);
            assert(old(self).pv@[ply + 1] == child);
            let a = self.pv_line(ply as int);
            let b = seq![mv] + old(self).pv_line(ply + 1);
            assert(a.len() == b.len());
            assert forall|k: int| 0 <= k < a.len() implies a[k] == b[k] by {
                if k > 0 {
                    assert(row[(k - 1) + 1] == child[k - 1]);
                }
            }
            assert(a =~= b);
            assert forall|p: int| 0 <= p < MAX_PLY implies #[trigger] self.pv_len[p] <= MAX_PLY - p by {
                if p != ply {
                    assert(self.pv_len[p] == old(self).pv_len[p]);
                }
            }
        }
    }

    /// The principal variation found at the root.
    fn collect_pv(&self) -> (line: Vec<Move>)
        requires
            self.inv(),
        ensures
            line@ == self.pv_line(0),
    {
        let row = self.pv[0];
        let n = self.pv_len[0];
        let mut line: Vec<Move> = Vec::new();
        let mut i: usize = 0;
        while i < n
            invariant
                i <= n,
                n <= MAX_PLY,
                line@ == row@.take(i as int),
            decreases n - i,
        {
            line.push(row[i]);
            proof {
                assert(row@.take(i + 1) =~= row@.take(i as int).push(row[i as int]));
            }
            i = i + 1;
        }
        line
    }

    /// The node limit is set and has been reached.
    spec fn node_limit_hit(&self) -> bool {
        match self.limits.nodes {
            Some(n) => self.nodes >= n,
            None => false,
        }
    }

    /// `hash` occurred earlier on the path or in the game.
    fn is_repetition(&self, hash: u64) -> (r: bool)
        ensures
            r == self.rep@.contains(hash),
    {
        let mut i: usize = self.rep.len();
        while i > 0
            invariant
                i <= self.rep@.len(),
                forall|k: int| i <= k < self.rep@.len() ==> #[trigger] self.rep@[k] != hash,
            decreases i,
        {
            i = i - 1;
            if self.rep[i] == hash {
                return true;
            }
        }
        false
    }

    /// The node or time limit has been reached. The clock is read through
    /// the standard library, so when a move time is set the answer may be
    /// either way; without one it is exactly the node limit.
    fn should_stop(&self) -> (r: bool)
        ensures
            self.node_limit_hit() ==> r,
            r ==> (self.node_limit_hit() || self.limits.movetime_ms is Some),
    {
        if let Some(mt) = self.limits.movetime_ms {
            let ms = as_millis(&elapsed(&self.start));
            if ms >= mt as u128 {
                return true;
            }
        }
        if let Some(n) = self.limits.nodes {
            if self.nodes >= n {
                return true;
            }
        }
        false
    }

    /// Every 2048 nodes, raise the stop flag if a limit has been reached.
    fn check_time(&mut self)
        ensures
            *final(self) == (Search { stop: final(self).stop, ..*old(self) }),
            old(self).stop ==> final(self).stop,
            (old(self).nodes & 2047 == 0 && old(self).node_limit_hit()) ==> final(self).stop,
            final(self).stop ==> (old(self).stop || (old(self).nodes & 2047 == 0 && (old(self).node_limit_hit()
                || old(self).limits.movetime_ms is Some))),
    {
        if self.nodes & 2047 == 0 && self.should_stop() {
            self.stop = true;
        }
    }
}

/// Integer division rounding toward zero, as Rust's `/` does.
pub open spec fn div_toward_zero(a: int, b: int) -> int {
    if a >= 0 {
        a / b
    } else {
        -((-a) / b)
    }
}

/// A score as UCI reports it: `mate N` (negative when being mated) for a
/// forced mate, else `cp N` in centipawns.
pub open spec fn score_text(score: int) -> Seq<char> {
    let a = if score < 0 { -score } else { score };
    if a >= MATE_VALUE - MAX_PLY {
        let m = div_toward_zero(MATE_VALUE - a + 1, 2);
        "mate "@ + signed_text(if score > 0 { m } else { -m })
    } else {
        "cp "@ + signed_text(score)
    }
}

/// The moves of `pv` in UCI notation, separated by single spaces.
pub open spec fn pv_text(pv: Seq<Move>) -> Seq<char>
    decreases pv.len(),
{
    if pv.len() == 0 {
        Seq::empty()
    } else if pv.len() == 1 {
        pv[0].uci()
    } else {
        pv_text(pv.drop_last()) + " "@ + pv.last().uci()
    }
}

/// The UCI `info` line reported after an iteration.
pub open spec fn info_text(depth: nat, score: int, nodes: nat, nps: nat, ms: nat, pv: Seq<Move>) -> Seq<char> {
    "info depth "@ + decimal(depth) + " score "@ + score_text(score) + " nodes "@ + decimal(nodes) + " nps "@
        + decimal(nps) + " time "@ + decimal(ms) + " pv "@ + pv_text(pv)
}

/// Nodes per second for `nodes` nodes in `ms` milliseconds (the product
/// wraps at 64 bits).
pub open spec fn nps_spec(nodes: u64, ms: u64) -> nat {
    (nodes.wrapping_mul(1000u64) / ms) as nat
}

/// Build the `info` line for one finished iteration.
pub fn info_line(depth: u32, score: i32, nodes: u64, nps: u64, ms: u64, pv: &Vec<Move>) -> (line: String)
    requires
        -INF <= score <= INF,
    ensures
        line@ == info_text(depth as nat, score as int, nodes as nat, nps as nat, ms as nat, pv@),
{
    let mut line = String::new();
    push_text(&mut line, "info depth ");
    push_decimal(&mut line, depth as u64);
    push_text(&mut line, " score ");
    let a: i32 = if score < 0 { -score } else { score };
    if a >= MATE_VALUE - 128 {
        let m: i32 = (MATE_VALUE - a + 1) / 2;
        push_text(&mut line, "mate ");
        let shown: i32 = if score > 0 { m } else { -m };
        push_signed(&mut line, shown as i64);
        proof {
            assert(m == div_toward_zero(MATE_VALUE - a + 1, 2));
        }
    } else {
        push_text(&mut line, "cp ");
        push_signed(&mut line, score as i64);
    }
    push_text(&mut line, " nodes ");
    push_decimal(&mut line, nodes);
    push_text(&mut line, " nps ");
    push_decimal(&mut line, nps);
    push_text(&mut line, " time ");
    push_decimal(&mut line, ms);
    push_text(&mut line, " pv ");
    let mut i: usize = 0;
    let ghost head = line@;
    while i < pv.len()
        invariant
            i <= pv@.len(),
            line@ == head + pv_text(pv@.take(i as int)),
        decreases pv@.len() - i,
    {
        let ghost before = line@;
        if i > 0 {
            push_text(&mut line, " ");
        }
        let u = pv[i].to_uci();
        push_text(&mut line, u.as_str());
        proof {
            let t = pv@.take(i + 1);
            assert(t.drop_last() =~= pv@.take(i as int));
            assert(t.last() == pv@[i as int]);
            if i == 0 {
                assert(line@ =~= head + pv_text(t));
            } else {
                assert(line@ =~= head + pv_text(t));
            }
        }
        i = i + 1;
    }
    proof {
        assert(pv@.take(pv@.len() as int) =~= pv@);
        assert(line@ =~= info_text(depth as nat, score as int, nodes as nat, nps as nat, ms as nat, pv@));
    }
    line
}

/// Some legal move of `v` is among `roots`.
pub open spec fn root_listed(v: BoardView, roots: Seq<Move>) -> bool {
    exists|m: Move| legal_move(v, m) && #[trigger] roots.contains(m)
}

/// `m` occurs in `list`.
fn listed(list: &Vec<Move>, m: Move) -> (r: bool)
    ensures
        r == list@.contains(m),
{
    let mut i: usize = 0;
    while i < list.len()
        invariant
            i <= list@.len(),
            forall|k: int| 0 <= k < i ==> #[trigger] list@[k] != m,
        decreases list@.len() - i,
    {
        if list[i] == m {
            return true;
        }
        i = i + 1;
    }
    false
}

/// A capture or promotion that is legal in `v`: the moves the quiescence
/// search plays.
pub open spec fn tactical(v: BoardView, m: Move) -> bool {
    legal_move(v, m) && (m.captures() || m.promotes())
}

/// The quiescence value of `v` at `ply`: the static evaluation as a floor
/// for the side to move, raised by the negated value of every legal capture
/// or promotion; at the last ply, the static evaluation alone.
pub open spec fn q_value(v: BoardView, ply: int) -> int
    decreases MAX_PLY - ply, 65537int,
{
    if ply < 0 || ply >= MAX_PLY - 1 {
        eval_spec(v)
    } else {
        q_best(v, ply, 65536)
    }
}

/// The best of the static evaluation and the negated quiescence values of
/// the tactical moves whose word is below `w`.
pub open spec fn q_best(v: BoardView, ply: int, w: int) -> int
    decreases MAX_PLY - ply, w,
{
    if w <= 0 || w > 65536 || ply < 0 || ply >= MAX_PLY - 1 {
        eval_spec(v)
    } else {
        let m = Move((w - 1) as u16);
        let rest = q_best(v, ply, w - 1);
        if tactical(v, m) {
            let c = -q_value(make_view(v, m), ply + 1);
            if c > rest {
                c
            } else {
                rest
            }
        } else {
            rest
        }
    }
}

/// The value a tactical move `m` gives the side to move in `v`.
pub open spec fn q_reply(v: BoardView, ply: int, m: Move) -> int {
    -q_value(make_view(v, m), ply + 1)
}

/// `r` is what a fail-hard alpha-beta search with window (`a`, `b`) owes for
/// a position of value `x`: at least `b` when `x` is, at most `a` when `x`
/// is, and `x` itself in between.
pub open spec fn window_ok(r: int, a: int, b: int, x: int) -> bool {
    &&& (x >= b ==> r >= b)
    &&& (x <= a ==> r <= a)
    &&& (a < x < b ==> r == x)
}

/// The best of the static evaluation and the values of the moves of `l`.
pub open spec fn list_best(v: BoardView, ply: int, l: Seq<Move>) -> int
    decreases l.len(),
{
    if l.len() == 0 {
        eval_spec(v)
    } else {
        let rest = list_best(v, ply, l.drop_last());
        let c = q_reply(v, ply, l.last());
        if c > rest {
            c
        } else {
            rest
        }
    }
}

proof fn lemma_q_best_bounds(v: BoardView, ply: int, w: int)
    requires
        0 <= ply < MAX_PLY - 1,
        0 <= w <= 65536,
    ensures
        q_best(v, ply, w) >= eval_spec(v),
        forall|m: Move| #[trigger] tactical(v, m) && m.0 < w ==> q_best(v, ply, w) >= q_reply(v, ply, m),
        q_best(v, ply, w) == eval_spec(v) || exists|m: Move| #[trigger] tactical(v, m) && m.0 < w && q_best(v, ply, w) == q_reply(v, ply, m),
    decreases w,
{
    if w > 0 {
        lemma_q_best_bounds(v, ply, w - 1);
        let m1 = Move((w - 1) as u16);
        assert(m1.0 == w - 1);
        assert forall|m: Move| #[trigger] tactical(v, m) && m.0 < w implies q_best(v, ply, w) >= q_reply(v, ply, m) by {
            if m.0 == w - 1 {
                assert(m == m1);
            }
        }
        if q_best(v, ply, w) != eval_spec(v) {
            if tactical(v, m1) && q_reply(v, ply, m1) > q_best(v, ply, w - 1) {
                assert(q_best(v, ply, w) == q_reply(v, ply, m1));
            } else {
                let m = choose|m: Move| #[trigger] tactical(v, m) && m.0 < w - 1 && q_best(v, ply, w - 1) == q_reply(v, ply, m);
                assert(tactical(v, m) && m.0 < w && q_best(v, ply, w) == q_reply(v, ply, m));
            }
        }
    }
}

proof fn lemma_list_best_bounds(v: BoardView, ply: int, l: Seq<Move>)
    ensures
        list_best(v, ply, l) >= eval_spec(v),
        forall|k: int| 0 <= k < l.len() ==> list_best(v, ply, l) >= q_reply(v, ply, #[trigger] l[k]),
        list_best(v, ply, l) == eval_spec(v) || exists|k: int| 0 <= k < l.len() && list_best(v, ply, l) == q_reply(v, ply, #[trigger] l[k]),
    decreases l.len(),
{
    if l.len() > 0 {
        let d = l.drop_last();
        lemma_list_best_bounds(v, ply, d);
        assert forall|k: int| 0 <= k < l.len() implies list_best(v, ply, l) >= q_reply(v, ply, #[trigger] l[k]) by {
            if k < d.len() {
                assert(d[k] == l[k]);
            }
        }
        if list_best(v, ply, l) != eval_spec(v) {
            if q_reply(v, ply, l.last()) > list_best(v, ply, d) {
                assert(list_best(v, ply, l) == q_reply(v, ply, l[l.len() - 1]));
            } else {
                let k = choose|k: int| 0 <= k < d.len() && list_best(v, ply, d) == q_reply(v, ply, #[trigger] d[k]);
                assert(d[k] == l[k]);
                assert(list_best(v, ply, l) == q_reply(v, ply, l[k]));
            }
        }
    }
}

/// Any list holding exactly the tactical moves gives the quiescence value.
proof fn lemma_list_best_is_q(v: BoardView, ply: int, l: Seq<Move>)
    requires
        0 <= ply < MAX_PLY - 1,
        forall|m: Move| #[trigger] l.contains(m) <==> tactical(v, m),
    ensures
        list_best(v, ply, l) == q_value(v, ply),
{
    lemma_q_best_bounds(v, ply, 65536);
    lemma_list_best_bounds(v, ply, l);
    let a = list_best(v, ply, l);
    let b = q_best(v, ply, 65536);
    if a != eval_spec(v) {
        let k = choose|k: int| 0 <= k < l.len() && a == q_reply(v, ply, #[trigger] l[k]);
        assert(l.contains(l[k]));
        assert(tactical(v, l[k]) && l[k].0 < 65536);
    }
    if b != eval_spec(v) {
        let m = choose|m: Move| #[trigger] tactical(v, m) && m.0 < 65536 && b == q_reply(v, ply, m);
        assert(l.contains(m));
        let k = choose|k: int| 0 <= k < l.len() && l[k] == m;
        assert(a >= q_reply(v, ply, l[k]));
    }
}

/// What a sequence with one more element at the end contains.
proof fn lemma_push_contains(s: Seq<Move>, x: Move)
    ensures
        forall|m: Move| #[trigger] s.push(x).contains(m) <==> (s.contains(m) || m == x),
{
    let t = s.push(x);
    assert forall|m: Move| #[trigger] t.contains(m) <==> (s.contains(m) || m == x) by {
        if s.contains(m) {
            let i = choose|i: int| 0 <= i < s.len() && s[i] == m;
            assert(t[i] == m);
        }
        if m == x {
            assert(t[s.len() as int] == x);
        }
        if t.contains(m) {
            let i = choose|i: int| 0 <= i < t.len() && t[i] == m;
            if i < s.len() {
                assert(s[i] == m);
            }
        }
    }
}

/// The captures and promotions of `all`, in their order.
fn tactical_moves(all: &MoveList) -> (r: MoveList)
    requires
        all@.no_duplicates(),
    ensures
        r@.no_duplicates(),
        forall|m: Move| #[trigger] r@.contains(m) <==> (all@.contains(m) && (m.captures() || m.promotes())),
{
    let mut r: MoveList = Vec::new();
    let mut k: usize = 0;
    while k < all.len()
        invariant
            k <= all@.len(),
            all@.no_duplicates(),
            r@.no_duplicates(),
            forall|m: Move| #[trigger] r@.contains(m) <==> (all@.take(k as int).contains(m) && (m.captures() || m.promotes())),
        decreases all@.len() - k,
    {
        let m = all[k];
        proof {
            assert(all@.take(k + 1) =~= all@.take(k as int).push(m));
            lemma_push_contains(all@.take(k as int), m);
            assert(!all@.take(k as int).contains(m)) by {
                if all@.take(k as int).contains(m) {
                    let j = choose|j: int| 0 <= j < k && all@.take(k as int)[j] == m;
                    assert(all@[j] == all@[k as int]);
                }
            }
        }
        if m.is_capture() || m.is_promotion() {
            proof {
                lemma_push(r@, m);
            }
            r.push(m);
        }
        k = k + 1;
    }
    proof {
        assert(all@.take(all@.len() as int) =~= all@);
    }
    r
}

/// The moves of `all` that `roots` lists, in their order.
fn listed_moves(all: &MoveList, roots: &Vec<Move>) -> (r: MoveList)
    requires
        all@.no_duplicates(),
    ensures
        r@.no_duplicates(),
        forall|m: Move| #[trigger] r@.contains(m) <==> (all@.contains(m) && roots@.contains(m)),
{
    let mut r: MoveList = Vec::new();
    let mut k: usize = 0;
    while k < all.len()
        invariant
            k <= all@.len(),
            all@.no_duplicates(),
            r@.no_duplicates(),
            forall|m: Move| #[trigger] r@.contains(m) <==> (all@.take(k as int).contains(m) && roots@.contains(m)),
        decreases all@.len() - k,
    {
        let m = all[k];
        proof {
            assert(all@.take(k + 1) =~= all@.take(k as int).push(m));
            lemma_push_contains(all@.take(k as int), m);
            assert(!all@.take(k as int).contains(m)) by {
                if all@.take(k as int).contains(m) {
                    let j = choose|j: int| 0 <= j < k && all@.take(k as int)[j] == m;
                    assert(all@[j] == all@[k as int]);
                }
            }
        }
        if listed(roots, m) {
            proof {
                lemma_push(r@, m);
            }
            r.push(m);
        }
        k = k + 1;
    }
    proof {
        assert(all@.take(all@.len() as int) =~= all@);
    }
    r
}

impl Search {
    /// Alpha-beta search of captures and promotions only, with the static
    /// evaluation as a lower bound for the side to move.
    fn quiescence(&mut self, pos: &mut Position, ply: usize, alpha: i32, beta: i32) -> (r: i32)
        requires
            old(self).inv(),
            old(pos).wf(),
            search_ready(old(pos)@, ply as int),
            ply < MAX_PLY,
            -INF <= alpha < beta <= INF,
        ensures
            final(self).keeps(&*old(self), MAX_PLY as int),
            final(pos).wf(),
            final(pos)@ == old(pos)@,
            -INF < r < INF,
            !final(self).stop ==> window_ok(r as int, alpha as int, beta as int, q_value(old(pos)@, ply as int)),
            !final(self).stop ==> r <= beta,
            (!final(self).stop && ply < MAX_PLY - 1) ==> alpha <= r,
        decreases MAX_PLY - ply, 1int,
    {
        let ghost v = pos@;
        let ghost s0 = *self;
        self.check_time();
        if self.stop {
            return 0;
        }
        self.nodes = self.nodes.wrapping_add(1);

        let stand_pat = evaluate(pos);
        if stand_pat >= beta {
            proof {
                if ply < MAX_PLY - 1 {
                    lemma_q_best_bounds(v, ply as int, 65536);
                }
            }
            return beta;
        }
        let mut cur = alpha;
        if stand_pat > cur {
            cur = stand_pat;
        }
        if ply >= MAX_PLY - 1 {
            return stand_pat;
        }

        // Only search captures and promotions.
        proof {
            lemma_search_child_gen(v, ply as int);
        }
        let all = generate_legal(pos);
        let mut moves = tactical_moves(&all);
        self.order_moves(pos, &mut moves, Move::none(), ply);

        let mut i: usize = 0;
        while i < moves.len()
            invariant
                s0 == *old(self),
                v == old(pos)@,
                self.keeps(&s0, MAX_PLY as int),
                pos.wf(),
                pos@ == v,
                search_ready(v, ply as int),
                ply < MAX_PLY - 1,
                -INF <= cur < beta <= INF,
                i <= moves@.len(),
                forall|m: Move| #[trigger] moves@.contains(m) <==> tactical(v, m),
                -INF <= alpha <= cur,
                stand_pat == eval_spec(v),
                -57600 <= stand_pat,
                cur == (if alpha > list_best(v, ply as int, moves@.take(i as int)) { alpha as int } else { list_best(
                    v,
                    ply as int,
                    moves@.take(i as int),
                ) }),
                !self.stop,
            decreases moves@.len() - i,
        {
            let mv = moves[i];
            proof {
                assert(moves@.contains(mv));
                assert(moves@.take(i + 1).drop_last() =~= moves@.take(i as int));
                assert(moves@.take(i + 1).last() == mv);
            }
            let ghost s1 = *self;
            let score = self.quiescence_child(pos, mv, ply, cur, beta);
            proof {
                Search::lemma_keeps_trans(&s0, &s1, self, MAX_PLY as int, MAX_PLY as int);
            }
            if self.stop {
                return 0;
            }
            if score >= beta {
                proof {
                    lemma_q_best_bounds(v, ply as int, 65536);
                    assert(tactical(v, mv) && mv.0 < 65536);
                }
                return beta;
            }
            if score > cur {
                cur = score;
            }
            i = i + 1;
        }
        proof {
            assert(moves@.take(moves@.len() as int) =~= moves@);
            lemma_list_best_is_q(v, ply as int, moves@);
            lemma_list_best_bounds(v, ply as int, moves@);
        }
        cur
    }

    /// Negamax alpha-beta search of `depth` plies (extended when in check)
    /// from `pos`, `ply` plies below the root. With depth left, a fifty-move
    /// or repetition draw below the root scores 0, at the last ply too; the
    /// score is a `node_value` of the position. On return the variation of
    /// `ply` is a line of legal moves from `pos`.
    #[verifier::rlimit(100)]
    #[verifier::spinoff_prover]
    fn negamax(&mut self, pos: &mut Position, depth: i32, ply: usize, alpha: i32, beta: i32) -> (r: i32)
        requires
            old(self).inv(),
            old(pos).wf(),
            search_ready(old(pos)@, ply as int),
            ply < MAX_PLY,
            0 <= depth < MAX_PLY,
            -INF <= alpha < beta <= INF,
        ensures
            final(self).keeps(&*old(self), ply as int),
            final(pos).wf(),
            final(pos)@ == old(pos)@,
            -INF <= r < INF,
            (ply > 0 || old(self).root_moves@.len() == 0 || root_listed(old(pos)@, old(self).root_moves@)) ==> -INF < r,
            legal_line(old(pos)@, final(self).pv_line(ply as int)),
            (ply == 0 && old(self).root_moves@.len() > 0 && final(self).pv_len[0] > 0)
                ==> old(self).root_moves@.contains(final(self).pv@[0][0]),
            // The value of the node.
            !final(self).stop ==> old(self).node_value(old(pos)@, depth as int, ply as int, alpha as int, beta as int, r as int),
            // Quiescence at depth zero and at the last ply.
            (!final(self).stop && (node_depth(old(pos)@, depth as int) <= 0 || (ply >= MAX_PLY - 1 && !old(self).draw_at(old(pos)@, ply as int)))) ==> window_ok(
                r as int,
                alpha as int,
                beta as int,
                q_value(old(pos)@, ply as int),
            ),
            // The fifty-move and repetition draws below the root.
            (!final(self).stop && node_depth(old(pos)@, depth as int) > 0 && old(self).draw_at(old(pos)@, ply as int))
                ==> (r == 0 && final(self).tt == old(self).tt && final(self).nodes == old(self).nodes.wrapping_add(1)),
            // A table cutoff.
            (!final(self).stop && node_depth(old(pos)@, depth as int) > 0 && ply < MAX_PLY - 1 && !old(self).draw_at(old(pos)@, ply as int)
                && old(self).tt_cut(old(pos)@, node_depth(old(pos)@, depth as int), ply as int, alpha as int, beta as int) is Some)
                ==> r == old(self).tt_cut(old(pos)@, node_depth(old(pos)@, depth as int), ply as int, alpha as int, beta as int)->0,
            // Checkmate and stalemate.
            (!final(self).stop && node_depth(old(pos)@, depth as int) > 0 && ply < MAX_PLY - 1 && !old(self).draw_at(old(pos)@, ply as int)
                && old(self).tt_cut(old(pos)@, node_depth(old(pos)@, depth as int), ply as int, alpha as int, beta as int) is None
                && !has_legal(old(pos)@)) ==> (r == (if in_check_spec(old(pos)@, old(pos)@.side) { -MATE_VALUE + ply } else { 0 })
                && final(self).nodes == old(self).nodes.wrapping_add(1)),
            // A node whose moves were searched stores its result in the table;
            // a score inside the window heads the variation with the stored move,
            // and a quiet move that scores at or above `beta` becomes the first killer.
            (!final(self).stop && node_depth(old(pos)@, depth as int) > 0 && ply < MAX_PLY - 1 && !old(self).draw_at(old(pos)@, ply as int)
                && old(self).tt_cut(old(pos)@, node_depth(old(pos)@, depth as int), ply as int, alpha as int, beta as int) is None
                && has_legal(old(pos)@) && (ply > 0 || old(self).root_moves@.len() == 0 || root_listed(old(pos)@, old(self).root_moves@)))
                ==> (exists|t: Seq<Reply>| #[trigger] searched_ok(
                old(pos)@,
                node_depth(old(pos)@, depth as int),
                ply as int,
                alpha as int,
                beta as int,
                r as int,
                final(self).tt_entry_for(old(pos)@).mv,
                old(self).root_moves@,
                t,
            )) && final(self).stored(
                old(pos)@,
                node_depth(old(pos)@, depth as int),
                ply as int,
                alpha as int,
                beta as int,
                r as int,
            ) && (r > alpha ==> final(self).pv_len[ply as int] > 0 && final(self).pv@[ply as int][0] == final(self).tt_entry_for(
                old(pos)@,
            ).mv) && ((r >= beta && !final(self).tt_entry_for(old(pos)@).mv.captures() && !final(self).tt_entry_for(
                old(pos)@,
            ).mv.promotes()) ==> final(self).killers[ply as int][0] == final(self).tt_entry_for(old(pos)@).mv),
            // A full-window search of the root with a legal move reports a line.
            (ply == 0 && alpha == -INF && beta == INF && !final(self).stop && node_depth(old(pos)@, depth as int) > 0 && has_legal(
                old(pos)@,
            ) && (old(self).root_moves@.len() == 0 || root_listed(old(pos)@, old(self).root_moves@))) ==> final(self).pv_len[0] > 0,
        decreases MAX_PLY - ply, 4int,
    {
        let ghost v = pos@;
        let ghost s0 = *self;
        self.pv_len[ply] = 0;
        proof {
            assert(self.pv_line(ply as int) =~= Seq::<Move>::empty());
        }
        self.check_time();
        if self.stop {
            return 0;
        }

        let in_check = pos.in_check(pos.side);
        // Check-extension: don't drop into qsearch while in check.
        let ghost depth0 = depth;
        let depth = if in_check { depth + 1 } else { depth };

        if depth <= 0 {
            let ghost sm = *self;
            assert(sm.keeps(&s0, ply as int));
            let q = self.quiescence(pos, ply, alpha, beta);
            proof {
                Search::lemma_keeps_trans(&s0, &sm, self, ply as int, MAX_PLY as int);
                if !self.stop {
                    s0.lemma_value_settled(v, depth0 as int, ply as int, alpha as int, beta as int, q as int);
                }
            }
            return q;
        }

        self.nodes = self.nodes.wrapping_add(1);

        // Draw detection (not at root).
        if ply > 0 {
            if pos.halfmove >= 100 || self.is_repetition(pos.hash) {
                proof {
                    s0.lemma_value_settled(v, depth0 as int, ply as int, alpha as int, beta as int, 0);
                }
                return 0;
            }
        }

        // No room for another ply: settle the node by the quiescence search.
        if ply >= MAX_PLY - 1 {
            let ghost sm = *self;
            assert(sm.keeps(&s0, ply as int));
            let q = self.quiescence(pos, ply, alpha, beta);
            proof {
                Search::lemma_keeps_trans(&s0, &sm, self, ply as int, MAX_PLY as int);
                if !self.stop {
                    s0.lemma_value_settled(v, depth0 as int, ply as int, alpha as int, beta as int, q as int);
                }
            }
            return q;
        }

        let is_pv = beta - alpha > 1;
        let orig_alpha = alpha;

        // Transposition table probe.
        let tt_idx = (pos.hash as usize) & self.tt_mask;
        proof {
            lemma_mask_index(pos.hash as usize, self.tt_mask);
        }
        let entry = self.tt[tt_idx];
        let mut tt_move = Move::none();
        if entry.key == pos.hash {
            tt_move = entry.mv;
            if !is_pv && entry.depth as i32 >= depth {
                let s = adjust_mate_from_tt(entry.score, ply);
                // A table score is only taken inside the score range.
                if -INF < s && s < INF {
                    if entry.bound == BOUND_EXACT {
                        proof {
                            s0.lemma_value_settled(v, depth0 as int, ply as int, alpha as int, beta as int, s as int);
                        }
                        return s;
                    }
                    if entry.bound == BOUND_LOWER && s >= beta {
                        proof {
                            s0.lemma_value_settled(v, depth0 as int, ply as int, alpha as int, beta as int, s as int);
                        }
                        return s;
                    }
                    if entry.bound == BOUND_UPPER && s <= alpha {
                        proof {
                            s0.lemma_value_settled(v, depth0 as int, ply as int, alpha as int, beta as int, s as int);
                        }
                        return s;
                    }
                }
            }
        }

        proof {
            lemma_search_child_gen(v, ply as int);
        }
        let mut moves = generate_legal(pos);
        proof {
            if moves@.len() > 0 {
                assert(moves@.contains(moves@[0]));
                assert(legal_move(v, moves@[0]));
            }
        }
        if moves.len() == 0 {
            proof {
                if has_legal(v) {
                    let m = choose|m: Move| #[trigger] legal_move(v, m);
                    assert(moves@.contains(m));
                }
            }
            // Checkmate or stalemate.
            let r = if in_check { -MATE_VALUE + ply as i32 } else { 0 };
            proof {
                s0.lemma_value_settled(v, depth0 as int, ply as int, alpha as int, beta as int, r as int);
            }
            return r;
        }

        // Restrict the root to the requested moves (UCI searchmoves), if any.
        if ply == 0 && self.root_moves.len() > 0 {
            let filtered = listed_moves(&moves, &self.root_moves);
            if filtered.len() == 0 {
                // None of the listed moves is legal: there is nothing to search.
                proof {
                    if root_listed(v, s0.root_moves@) {
                        let m = choose|m: Move| legal_move(v, m) && #[trigger] s0.root_moves@.contains(m);
                        assert(filtered@.contains(m));
                    }
                }
                proof {
                    s0.lemma_value_settled(v, depth0 as int, ply as int, alpha as int, beta as int, -INF as int);
                }
                return -INF;
            }
            moves = filtered;
        }

        proof {
            assert forall|m: Move| #[trigger] moves@.contains(m) <==> candidate(v, ply as int, s0.root_moves@, m) by {}
        }
        self.order_moves(pos, &mut moves, tt_move, ply);

        let ghost mut t: Seq<Reply> = Seq::empty();
        let ghost mut bi: int = 0;
        let mut alpha = alpha;
        let mut best_score = -INF;
        let mut best_move = Move::none();
        let mut done = false;
        let mut i: usize = 0;
        proof {
            lemma_trace_start(v, depth as int, ply as int, orig_alpha as int, beta as int, best_score as int, best_move, moves@);
        }
        while i < moves.len() && !done
            invariant
                s0 == *old(self),
                v == old(pos)@,
                self.keeps(&s0, ply as int),
                pos.wf(),
                pos@ == v,
                search_ready(v, ply as int),
                v.halfmove < 65534,
                ply < MAX_PLY - 1,
                1 <= depth <= MAX_PLY,
                -INF <= orig_alpha <= alpha,
                !done ==> alpha < beta,
                beta <= INF,
                -INF <= best_score < INF,
                i > 0 ==> -INF < best_score,
                done ==> i > 0,
                moves@.len() > 0,
                (orig_alpha == -INF && i > 0 && !self.stop) ==> self.pv_len[ply as int] > 0,
                i == 0 ==> (alpha == orig_alpha && best_score == -INF),
                i > 0 ==> alpha == (if best_score > orig_alpha { best_score } else { orig_alpha }),
                i > 0 ==> legal_move(v, best_move),
                best_score > orig_alpha ==> (self.pv_len[ply as int] > 0 && self.pv@[ply as int][0] == best_move),
                orig_alpha < beta,
                !done ==> best_score < beta,
                (done && !best_move.captures() && !best_move.promotes()) ==> self.killers[ply as int][0] == best_move,
                i <= moves@.len(),
                moves@.no_duplicates(),
                forall|m: Move| #[trigger] moves@.contains(m) <==> candidate(v, ply as int, s0.root_moves@, m),
                legal_line(v, self.pv_line(ply as int)),
                (ply == 0 && s0.root_moves@.len() > 0 && self.pv_len[0] > 0) ==> s0.root_moves@.contains(self.pv@[0][0]),
                depth == node_depth(v, depth0 as int),
                trace_inv(v, depth as int, ply as int, orig_alpha as int, beta as int, best_score as int, best_move, bi, done, i as int, moves@, t),
            decreases moves@.len() - i,
        {
            let mv = moves[i];
            proof {
                assert(moves@.contains(mv));
            }
            let ghost s1 = *self;
            let score = self.negamax_child(pos, mv, i, depth, ply, alpha, beta, in_check);
            proof {
                Search::lemma_keeps_trans(&s0, &s1, self, ply as int, ply + 1);
                assert(self.pv@[ply as int] == s1.pv@[ply as int]);
                assert(self.pv_len[ply as int] == s1.pv_len[ply as int]);
            }
            let ghost s2 = *self;

            if self.stop {
                return 0;
            }
            let ghost t0 = t;
            let ghost bi0 = bi;
            let ghost best0 = best_score;
            let ghost alpha0 = alpha;
            proof {
                let w = choose|w: (Search, int, int, int)| #[trigger] reply_ok(make_view(v, mv), ply + 1, depth as int, alpha as int, beta as int, score as int, w) && (i == 0 ==> w.2 == -beta);
                t = t.push((mv, score as int, alpha as int, w.0, w.1, w.2, w.3));
                if score > best_score {
                    bi = i as int;
                }
                lemma_trace_step(v, depth as int, ply as int, orig_alpha as int, beta as int, best0 as int, best_move, bi0, i as int, moves@, t0, alpha0 as int, mv, score as int, w);
            }

            if score > best_score {
                best_score = score;
                best_move = mv;
                if score > alpha {
                    alpha = score;
                    self.update_pv(ply, mv);
                    proof {
                        lemma_line_cons(v, mv, s2.pv_line(ply + 1));
                        Search::lemma_keeps_trans(&s0, &s2, self, ply as int, ply as int);
                        assert(self.pv_line(ply as int).len() >= 1);
                        assert(self.pv_len[ply as int] > 0);
                    }
                }
            }
            assert((alpha >= beta) == (score >= beta));
            if alpha >= beta {
                assert(best_move == mv);
                // Beta cutoff: record killer/history for quiet moves.
                if !mv.is_capture() && !mv.is_promotion() {
                    assert(depth * depth <= 16384) by (nonlinear_arith)
                        requires
                            1 <= depth <= 128,
                    ;
                    let ghost s3 = *self;
                    self.record_cutoff(ply, mv, depth * depth);
                    proof {
                        Search::lemma_keeps_trans(&s0, &s3, self, ply as int, MAX_PLY as int);
                        assert(self.pv@[ply as int] == s3.pv@[ply as int]);
                        assert(self.pv_len[ply as int] == s3.pv_len[ply as int]);
                    }
                }
                done = true;
            }
            i = i + 1;
        }

        proof {
            lemma_trace_done(v, depth as int, ply as int, orig_alpha as int, beta as int, best_score as int, best_move, bi, done, i as int, moves@, t, s0.root_moves@);
            if !self.stop {
                s0.lemma_value_searched(v, depth0 as int, ply as int, orig_alpha as int, beta as int, best_score as int, best_move, t);
            }
        }
        // Store in TT.
        let bound = if best_score >= beta {
            BOUND_LOWER
        } else if best_score > orig_alpha {
            BOUND_EXACT
        } else {
            BOUND_UPPER
        };
        let stored = adjust_mate_to_tt(best_score, ply);
        let e = TTEntry { key: pos.hash, mv: best_move, score: stored, depth: depth as i16, bound };
        self.tt.set(tt_idx, e);
        proof {
            assert(self.tt_entry_for(v) == e);
            assert(self.tt_entry_for(v).mv == best_move);
            assert(searched_ok(v, depth as int, ply as int, orig_alpha as int, beta as int, best_score as int, self.tt_entry_for(v).mv, s0.root_moves@, t));
        }
        best_score
    }
}

impl Search {
    /// Play `mv`, search the reply with the quiescence search, and take `mv` back.
    fn quiescence_child(&mut self, pos: &mut Position, mv: Move, ply: usize, alpha: i32, beta: i32) -> (score: i32)
        requires
            old(self).inv(),
            old(pos).wf(),
            search_ready(old(pos)@, ply as int),
            ply < MAX_PLY - 1,
            legal_move(old(pos)@, mv),
            mv.captures() || mv.promotes(),
            -INF <= alpha < beta <= INF,
        ensures
            final(self).keeps(&*old(self), MAX_PLY as int),
            final(pos).wf(),
            final(pos)@ == old(pos)@,
            -INF < score < INF,
            !final(self).stop ==> window_ok(score as int, alpha as int, beta as int, q_reply(old(pos)@, ply as int, mv)),
        decreases MAX_PLY - ply, 0int,
    {
        let ghost v = pos@;
        proof {
            lemma_search_child(v, ply as int, mv);
        }
        let undo = pos.make_move(mv);
        let c = self.quiescence(pos, ply + 1, -beta, -alpha);
        pos.unmake_move(mv, undo);
        -c
    }

    /// Play the `i`-th move `mv`, search the reply `depth - 1` plies deep
    /// (reduced for late quiet moves, with re-searches when the reduced or
    /// null-window search beats `alpha`), and take `mv` back. On return the
    /// variation of `ply + 1` is a line of legal moves after `mv`.
    fn negamax_child(
        &mut self,
        pos: &mut Position,
        mv: Move,
        i: usize,
        depth: i32,
        ply: usize,
        alpha: i32,
        beta: i32,
        in_check: bool,
    ) -> (score: i32)
        requires
            old(self).inv(),
            old(pos).wf(),
            search_ready(old(pos)@, ply as int),
            ply < MAX_PLY - 1,
            legal_move(old(pos)@, mv),
            old(pos)@.halfmove < 65534,
            1 <= depth <= MAX_PLY,
            -INF <= alpha < beta <= INF,
        ensures
            final(self).keeps(&*old(self), ply + 1),
            final(pos).wf(),
            final(pos)@ == old(pos)@,
            -INF < score < INF,
            legal_line(make_view(old(pos)@, mv), final(self).pv_line(ply + 1)),
            !final(self).stop ==> exists|w: (Search, int, int, int)| #[trigger] reply_ok(
                make_view(old(pos)@, mv),
                ply + 1,
                depth as int,
                alpha as int,
                beta as int,
                score as int,
                w,
            ) && (i == 0 ==> w.2 == -beta),
        decreases MAX_PLY - ply, 3int,
    {
        let ghost v = pos@;
        let ghost s0 = *self;
        proof {
            lemma_search_child(v, ply as int, mv);
        }
        let undo = pos.make_move(mv);
        self.rep.push(undo.hash);
        let ghost s1 = *self;
        let quiet = !mv.is_capture() && !mv.is_promotion();
        let score = self.search_reply(pos, quiet, i, depth, ply + 1, alpha, beta, in_check);
        assert(self.keeps(&s1, ply + 1));
        self.rep.pop();
        proof {
            assert(self.rep@ =~= s0.rep@);
            assert(s1.pv == s0.pv && s1.pv_len == s0.pv_len);
            assert(self.inv());
        }
        pos.unmake_move(mv, undo);
        score
    }
}

impl Search {
    /// Search the position reached by the `i`-th move of the parent, which
    /// searches `depth` plies: a full window for the first move; otherwise a
    /// null window around `alpha`, `depth - 1` plies deep reduced by one or
    /// two for late quiet moves, searched again unreduced and then with the
    /// full window while it beats `alpha`. The score is from the parent's side.
    fn search_reply(
        &mut self,
        pos: &mut Position,
        quiet: bool,
        i: usize,
        depth: i32,
        ply: usize,
        alpha: i32,
        beta: i32,
        in_check: bool,
    ) -> (score: i32)
        requires
            old(self).inv(),
            old(pos).wf(),
            search_ready(old(pos)@, ply as int),
            1 <= ply < MAX_PLY,
            1 <= depth <= MAX_PLY,
            -INF <= alpha < beta <= INF,
        ensures
            final(self).keeps(&*old(self), ply as int),
            final(pos).wf(),
            final(pos)@ == old(pos)@,
            -INF < score < INF,
            legal_line(old(pos)@, final(self).pv_line(ply as int)),
            !final(self).stop ==> exists|w: (Search, int, int, int)| #[trigger] reply_ok(
                old(pos)@,
                ply as int,
                depth as int,
                alpha as int,
                beta as int,
                score as int,
                w,
            ) && (i == 0 ==> w.2 == -beta),
        decreases MAX_PLY - ply + 1, 2int,
    {
        let ghost s1 = *self;
        let ghost cv = pos@;
        let mut score: i32;
        let ghost mut w: (Search, int, int, int);
        if i == 0 {
            let c = self.negamax(pos, depth - 1, ply, -beta, -alpha);
            score = -c;
            proof {
                w = (s1, depth - 1, -beta as int, -alpha as int);
                assert(!self.stop ==> reply_ok(cv, ply as int, depth as int, alpha as int, beta as int, score as int, w));
            }
        } else {
            // Late move reductions for quiet, non-check moves.
            let mut reduction: i32 = 0;
            if depth >= 3 && i >= 4 && quiet && !in_check {
                reduction = if i >= 8 { 2 } else { 1 };
            }
            let c = self.negamax(pos, depth - 1 - reduction, ply, -alpha - 1, -alpha);
            score = -c;
            proof {
                w = (s1, depth - 1 - reduction, -alpha - 1, -alpha as int);
                assert(!self.stop ==> reply_ok(cv, ply as int, depth as int, alpha as int, beta as int, score as int, w));
            }
            if score > alpha && reduction > 0 {
                let ghost s2 = *self;
                let c2 = self.negamax(pos, depth - 1, ply, -alpha - 1, -alpha);
                proof {
                    Search::lemma_keeps_trans(&s1, &s2, self, ply as int, ply as int);
                }
                score = -c2;
                proof {
                    w = (s2, depth - 1, -alpha - 1, -alpha as int);
                    assert(!self.stop ==> reply_ok(cv, ply as int, depth as int, alpha as int, beta as int, score as int, w));
                }
            }
            if score > alpha && score < beta {
                let ghost s3 = *self;
                let c3 = self.negamax(pos, depth - 1, ply, -beta, -alpha);
                proof {
                    Search::lemma_keeps_trans(&s1, &s3, self, ply as int, ply as int);
                }
                score = -c3;
                proof {
                    w = (s3, depth - 1, -beta as int, -alpha as int);
                    assert(!self.stop ==> reply_ok(cv, ply as int, depth as int, alpha as int, beta as int, score as int, w));
                }
            }
        }
        proof {
            if !self.stop {
                assert(reply_ok(cv, ply as int, depth as int, alpha as int, beta as int, score as int, w));
            }
        }
        score
    }
}

impl Search {
    /// Append the `info` line of a finished iteration, timed by the clock.
    fn record_info(&mut self, depth: u32, score: i32, pv: &Vec<Move>)
        requires
            -INF <= score <= INF,
        ensures
            *final(self) == (Search { info: final(self).info, ..*old(self) }),
            final(self).info@.len() == old(self).info@.len() + 1,
            final(self).info@.drop_last() == old(self).info@,
            exists|ms: u64|
                ms >= 1 && final(self).info@.last()@ == info_text(
                    depth as nat,
                    score as int,
                    old(self).nodes as nat,
                    #[trigger] nps_spec(old(self).nodes, ms),
                    ms as nat,
                    pv@,
                ),
    {
        let raw = as_millis(&elapsed(&self.start));
        let ms: u64 = if raw == 0 {
            1
        } else if raw > u64::MAX as u128 {
            u64::MAX
        } else {
            raw as u64
        };
        let nps = self.nodes.wrapping_mul(1000) / ms;
        let line = info_line(depth, score, self.nodes, nps, ms, pv);
        self.info.push(line);
        proof {
            assert(self.info@.drop_last() =~= old(self).info@);
            assert(self.info@.last() == line);
            assert(nps == nps_spec(old(self).nodes, ms));
        }
    }

    /// Run an iterative-deepening search. `history` is the list of position
    /// hashes that occurred earlier in the game (for repetition detection).
    pub fn go(&mut self, pos: &mut Position, limits: SearchLimits, history: &[u64]) -> (r: SearchResult)
        requires
            old(self).inv(),
            old(pos).wf(),
            search_ready(old(pos)@, 0),
        ensures
            final(self).inv(),
            final(self).tt_len() == old(self).tt_len(),
            final(self).verbose_flag() == old(self).verbose_flag(),
            final(self).verbose_flag() ==> final(self).info_lines().len() == r.depth,
            !final(self).verbose_flag() ==> final(self).info_lines().len() == 0,
            final(pos).wf(),
            final(pos)@ == old(pos)@,
            legal_line(old(pos)@, r.pv@),
            r.best_move == (if r.pv@.len() > 0 { r.pv@[0] } else { Move(0) }),
            -INF <= r.score <= INF,
            r.depth <= MAX_PLY - 1,
            r.depth <= (match limits.depth { Some(d) => d, None => 64 }),
            (limits.movetime_ms is None && limits.nodes is None) ==> (r.depth == depth_target(limits.depth) || r.score >= MATE_VALUE
                - MAX_PLY || r.score <= -(MATE_VALUE - MAX_PLY)),
            depth_target(limits.depth) >= 1 ==> r.depth >= 1,
            final(self).search_limits() == limits,
            (limits.movetime_ms is None && limits.nodes is None && depth_target(limits.depth) >= 1 && has_legal(old(pos)@))
                ==> r.pv@.len() > 0,
            final(self).rep_hashes() == history@,
            (limits.movetime_ms is None && limits.nodes is None && r.depth >= 1) ==> exists|st: Search| #[trigger] st.root_result(
                old(pos)@,
                history@,
                Seq::<Move>::empty(),
                r.depth as int,
                r.score as int,
                r.best_move,
            ),
            (limits.movetime_ms is None && limits.nodes is None && depth_target(limits.depth) >= 1 && !has_legal(old(pos)@)) ==> (
            r.pv@.len() == 0 && r.score == (if in_check_spec(old(pos)@, old(pos)@.side) { -MATE_VALUE } else { 0 }) && r.nodes
                == r.depth && (in_check_spec(old(pos)@, old(pos)@.side) ==> r.depth == 1)),
    {
        let roots: Vec<Move> = Vec::new();
        self.go_with_roots(pos, limits, history, roots.as_slice())
    }

    /// Like `go`, but if `root_moves` is non-empty the search only considers
    /// those moves at the root (used to find the best move among a subset, e.g.
    /// the second-best move when the top move is excluded).
    pub fn go_with_roots(
        &mut self,
        pos: &mut Position,
        limits: SearchLimits,
        history: &[u64],
        root_moves: &[Move],
    ) -> (r: SearchResult)
        requires
            old(self).inv(),
            old(pos).wf(),
            search_ready(old(pos)@, 0),
        ensures
            final(self).inv(),
            final(self).tt_len() == old(self).tt_len(),
            final(self).verbose_flag() == old(self).verbose_flag(),
            final(self).verbose_flag() ==> final(self).info_lines().len() == r.depth,
            !final(self).verbose_flag() ==> final(self).info_lines().len() == 0,
            final(pos).wf(),
            final(pos)@ == old(pos)@,
            legal_line(old(pos)@, r.pv@),
            r.best_move == (if r.pv@.len() > 0 { r.pv@[0] } else { Move(0) }),
            (root_moves@.len() > 0 && r.pv@.len() > 0) ==> root_moves@.contains(r.best_move),
            -INF <= r.score <= INF,
            r.depth <= MAX_PLY - 1,
            r.depth <= (match limits.depth { Some(d) => d, None => 64 }),
            (limits.movetime_ms is None && limits.nodes is None) ==> (r.depth == depth_target(limits.depth) || r.score >= MATE_VALUE
                - MAX_PLY || r.score <= -(MATE_VALUE - MAX_PLY)),
            depth_target(limits.depth) >= 1 ==> r.depth >= 1,
            final(self).search_limits() == limits,
            (limits.movetime_ms is None && limits.nodes is None && depth_target(limits.depth) >= 1 && has_legal(old(pos)@) && (
            root_moves@.len() == 0 || root_listed(old(pos)@, root_moves@))) ==> r.pv@.len() > 0,
            final(self).rep_hashes() == history@,
            (limits.movetime_ms is None && limits.nodes is None && r.depth >= 1) ==> exists|st: Search| #[trigger] st.root_result(
                old(pos)@,
                history@,
                root_moves@,
                r.depth as int,
                r.score as int,
                r.best_move,
            ),
            (limits.movetime_ms is None && limits.nodes is None && depth_target(limits.depth) >= 1 && !has_legal(old(pos)@)) ==> (
            r.pv@.len() == 0 && r.score == (if in_check_spec(old(pos)@, old(pos)@.side) { -MATE_VALUE } else { 0 }) && r.nodes
                == r.depth && (in_check_spec(old(pos)@, old(pos)@.side) ==> r.depth == 1)),
    {
        let ghost v = pos@;
        let ghost s0 = *self;
        let max_depth: u32 = match limits.depth {
            Some(d) => if d < 127 { d } else { 127 },
            None => 64,
        };
        let ghost lim = limits;
        self.limits = limits;
        self.nodes = 0;
        self.stop = false;
        self.start = now();
        self.killers = [[Move(0); 2]; 128];
        self.info = Vec::new();
        self.rep.clear();
        let mut k: usize = 0;
        while k < history.len()
            invariant
                k <= history@.len(),
                self.rep@ == history@.take(k as int),
                self.limits == limits,
                self.nodes == 0,
                !self.stop,
                self.inv(),
                self.tt@.len() == s0.tt@.len(),
                self.verbose == s0.verbose,
                self.info@.len() == 0,
            decreases history@.len() - k,
        {
            self.rep.push(history[k]);
            proof {
                assert(history@.take(k + 1) =~= history@.take(k as int).push(history@[k as int]));
            }
            k = k + 1;
        }
        let mut roots: Vec<Move> = Vec::new();
        let mut k: usize = 0;
        while k < root_moves.len()
            invariant
                k <= root_moves@.len(),
                roots@ == root_moves@.take(k as int),
            decreases root_moves@.len() - k,
        {
            roots.push(root_moves[k]);
            proof {
                assert(root_moves@.take(k + 1) =~= root_moves@.take(k as int).push(root_moves@[k as int]));
            }
            k = k + 1;
        }
        proof {
            assert(root_moves@.take(root_moves@.len() as int) =~= root_moves@);
        }
        self.root_moves = roots;

        let mut best = SearchResult { best_move: Move::none(), score: 0, depth: 0, pv: Vec::new(), nodes: 0 };
        let mut depth: u32 = 1;
        let mut go_on = true;
        while go_on && depth <= max_depth
            invariant
                self.inv(),
                self.tt@.len() == s0.tt@.len(),
                self.verbose == s0.verbose,
                self.root_moves@ == root_moves@,
                pos.wf(),
                pos@ == v,
                v == old(pos)@,
                search_ready(v, 0),
                1 <= depth <= max_depth + 1,
                max_depth <= 127,
                max_depth <= (match limits.depth { Some(d) => d, None => 64 }),
                go_on ==> best.depth == depth - 1,
                best.depth < depth,
                self.verbose ==> self.info@.len() == best.depth,
                !self.verbose ==> self.info@.len() == 0,
                legal_line(v, best.pv@),
                best.best_move == (if best.pv@.len() > 0 { best.pv@[0] } else { Move(0) }),
                (root_moves@.len() > 0 && best.pv@.len() > 0) ==> root_moves@.contains(best.best_move),
                -INF <= best.score <= INF,
                self.limits == limits,
                max_depth == depth_target(limits.depth),
                self.unlimited() ==> !self.stop,
                (!go_on && self.unlimited()) ==> (best.score >= MATE_VALUE - MAX_PLY || best.score <= -(MATE_VALUE - MAX_PLY)),
                go_on ==> best.depth == depth - 1,
                depth >= 2 ==> best.depth >= 1,
                depth == 1 ==> go_on,
                (self.unlimited() && best.depth >= 1 && has_legal(v) && (root_moves@.len() == 0 || root_listed(v, root_moves@)))
                    ==> best.pv@.len() > 0,
                self.rep@ == history@,
                (self.unlimited() && best.depth >= 1) ==> exists|st: Search| #[trigger] st.root_result(
                    v,
                    history@,
                    root_moves@,
                    best.depth as int,
                    best.score as int,
                    best.best_move,
                ),
                (self.unlimited() && best.depth >= 1 && !has_legal(v)) ==> (best.pv@.len() == 0 && best.score == (if in_check_spec(
                    v,
                    v.side,
                ) { -MATE_VALUE } else { 0 })),
                (self.unlimited() && best.depth >= 1 && !has_legal(v) && in_check_spec(v, v.side)) ==> (!go_on && best.depth == 1),
                (self.unlimited() && !has_legal(v)) ==> (self.nodes == best.depth && best.nodes == best.depth),
            decreases max_depth + 1 - depth,
        {
            let ghost sn = *self;
            let score = self.negamax(pos, depth as i32, 0, -INF, INF);
            if self.stop && depth > 1 {
                // Discard the partial, unreliable iteration.
                go_on = false;
            } else {
                let pv = self.collect_pv();
                proof {
                    if !has_legal(v) && pv@.len() > 0 {
                        assert(legal_move(v, pv@[0]));
                    }
                }
                let first = if pv.len() > 0 { pv[0] } else { Move::none() };
                proof {
                    if pv@.len() > 0 {
                        assert(pv@[0] == self.pv@[0][0]);
                    }
                }
                best = SearchResult { best_move: first, score, depth, pv, nodes: self.nodes };
                proof {
                    if self.unlimited() {
                        assert(sn.root_result(v, history@, root_moves@, depth as int, score as int, first));
                    }
                }
                if self.verbose {
                    self.record_info(depth, score, &best.pv);
                }
                // Stop early on a forced mate or if out of time/nodes.
                let a: i32 = if score < 0 { -score } else { score };
                if a >= MATE_VALUE - 128 {
                    go_on = false;
                } else if self.should_stop() {
                    go_on = false;
                }
                proof {
                    if self.unlimited() {
                        assert(sn.root_result(v, history@, root_moves@, best.depth as int, best.score as int, best.best_move));
                    }
                }
            }
            depth = depth + 1;
        }
        best
    }
}

/// A legal move followed by a legal line from where it leads is a legal line.
proof fn lemma_line_cons(v: BoardView, m: Move, l: Seq<Move>)
    requires
        legal_move(v, m),
        legal_line(make_view(v, m), l),
    ensures
        legal_line(v, seq![m] + l),
{
    let t = seq![m] + l;
    assert(t[0] == m);
    assert(t.drop_first() =~= l);
}

/// Anything the search may enter can have its moves generated.
proof fn lemma_search_child_gen(v: BoardView, ply: int)
    requires
        search_ready(v, ply),
        ply < MAX_PLY,
    ensures
        gen_ready(v),
{
}

/// Masking an index keeps it at or below the mask.
proof fn lemma_mask_index(x: usize, mask: usize)
    ensures
        x & mask <= mask,
{
    assert(x & mask <= mask) by (bit_vector);
}

/// Mate scores move `ply` further from zero when stored in the table.
fn adjust_mate_to_tt(score: i32, ply: usize) -> (r: i32)
    requires
        -INF <= score <= INF,
        ply < MAX_PLY,
    ensures
        r == mate_to_tt(score as int, ply as int),
{
    let p = ply as i32;
    if score >= MATE_VALUE - 128 {
        score + p
    } else if score <= -(MATE_VALUE - 128) {
        score - p
    } else {
        score
    }
}

/// Mate scores move `ply` closer to zero when read back from the table.
fn adjust_mate_from_tt(score: i32, ply: usize) -> (r: i32)
    requires
        -tt_score_bound() <= score <= tt_score_bound(),
        ply < MAX_PLY,
    ensures
        r == mate_from_tt(score as int, ply as int),
{
    let p = ply as i32;
    if score >= MATE_VALUE - 128 {
        score - p
    } else if score <= -(MATE_VALUE - 128) {
        score + p
    } else {
        score
    }
}

/// `n` is a power of two.
pub open spec fn is_pow2(n: nat) -> bool {
    exists|k: nat| n == pow2(k)
}

/// The smallest power of two at or above `x` (1 for 0).
fn next_power_of_two(x: usize) -> (n: usize)
    requires
        x <= usize::MAX / 2,
    ensures
        is_pow2(n as nat),
        n >= 1,
        n >= x,
        n < 2 * x || n == 1,
{
    let mut n: usize = 1;
    let ghost mut k: nat = 0;
    proof {
        vstd::arithmetic::power::lemma_pow0(2);
    }
    while n < x
        invariant
            1 <= n,
            n == pow2(k),
            x <= usize::MAX / 2,
            n < 2 * x || n == 1,
        decreases 2 * x - n,
    {
        n = n * 2;
        proof {
            vstd::arithmetic::power2::lemma_pow2_unfold(k + 1);
            k = k + 1;
        }
    }
    n
}

} // verus!
