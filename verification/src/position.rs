//! Board representation: bitboards + mailbox, make/unmake move, and attack
//! queries used for legality and search.
use crate::bitboard::{has_sq, lemma_and, lemma_empty, lemma_intersects, lemma_nonzero, lemma_not, lemma_or, lemma_single};
use crate::tables::{
    bb_fn, bishop_attack, bishop_attacks, king_attacks, king_step, knight_attacks, knight_step,
    lemma_leaper_symmetric, lemma_slider_congruent, lemma_slider_symmetric, pawn_attacks, pawn_step,
    queen_attack, rook_attack, rook_attacks,
};
use crate::types::{file_of, file_spec, promo_of_flag, Bitboard, Color, Move, PieceType, Square, FLAG_DOUBLE_PAWN, FLAG_KING_CASTLE, FLAG_QUEEN_CASTLE};
use crate::zobrist::{castling_key, castling_key_spec, ep_key, ep_key_spec, piece_key, piece_key_spec, side_key, side_key_spec};
use vstd::prelude::*;
use vstd::std_specs::bits::u64_trailing_zeros;

verus! {

// Castling-right bit flags.
pub const CR_WK: u8 = 1;

pub const CR_WQ: u8 = 2;

pub const CR_BK: u8 = 4;

pub const CR_BQ: u8 = 8;

/// State needed to undo a move.
#[derive(Clone, Copy, PartialEq, Eq, Structural)]
pub struct Undo {
    pub captured: Option<PieceType>,
    pub castling: u8,
    pub ep: Option<Square>,
    pub halfmove: u16,
    pub hash: u64,
}

/// What a position is, apart from its redundant bitboards and hash:
/// the piece on each square, the side to move, castling rights, the
/// en-passant target and the two move counters.
pub struct BoardView {
    pub squares: Seq<Option<(Color, PieceType)>>,
    pub side: Color,
    pub castling: u8,
    pub ep: Option<u8>,
    pub halfmove: u16,
    pub fullmove: u16,
}

#[derive(Clone)]
pub struct Position {
    /// Piece bitboards indexed [color][piece_type].
    pub bb: [[Bitboard; 6]; 2],
    /// Per-color occupancy.
    pub occ: [Bitboard; 2],
    /// All occupied squares.
    pub all: Bitboard,
    /// Quick square -> (color, piece) lookup.
    pub mailbox: [Option<(Color, PieceType)>; 64],
    pub side: Color,
    pub castling: u8,
    pub ep: Option<Square>,
    pub halfmove: u16,
    pub fullmove: u16,
    /// Incrementally-maintained Zobrist hash of the position.
    pub hash: u64,
}

impl View for Position {
    type V = BoardView;

    open spec fn view(&self) -> BoardView {
        BoardView {
            squares: self.mailbox@,
            side: self.side,
            castling: self.castling,
            ep: self.ep,
            halfmove: self.halfmove,
            fullmove: self.fullmove,
        }
    }
}

/// The piece on a square belongs to `c`.
pub open spec fn owned_by(p: Option<(Color, PieceType)>, c: Color) -> bool {
    p matches Some((c2, _)) && c2 == c
}

/// The key a square contributes to the hash.
pub open spec fn square_key(p: Option<(Color, PieceType)>, s: int) -> u64 {
    match p {
        Some((c, pt)) => piece_key_spec(c, pt, s),
        None => 0,
    }
}

/// Xor of the keys of the first `n` squares.
pub open spec fn board_xor(sq: Seq<Option<(Color, PieceType)>>, n: nat) -> u64
    decreases n,
{
    if n == 0 {
        0
    } else {
        board_xor(sq, (n - 1) as nat) ^ square_key(sq[n - 1], n - 1)
    }
}

pub open spec fn ep_part(ep: Option<u8>) -> u64 {
    match ep {
        Some(s) => ep_key_spec(file_spec(s as int)),
        None => 0,
    }
}

pub open spec fn side_part(side: Color) -> u64 {
    if side == Color::Black {
        side_key_spec()
    } else {
        0
    }
}

/// The Zobrist hash of a position: the keys of its pieces, its castling
/// rights, its en-passant file and, when Black is to move, the side key.
pub open spec fn hash_spec(v: BoardView) -> u64 {
    board_xor(v.squares, 64) ^ castling_key_spec(v.castling as int) ^ ep_part(v.ep) ^ side_part(v.side)
}

/// The view describes a board: 64 squares, castling rights in four bits, an en-passant target on the board.
pub open spec fn view_ok(v: BoardView) -> bool {
    &&& v.squares.len() == 64
    &&& v.castling < 16
    &&& (v.ep matches Some(e) ==> e < 64)
}

/// Square `s` holds a piece.
pub open spec fn occupied(v: BoardView) -> spec_fn(int) -> bool {
    |s: int| 0 <= s < 64 && v.squares[s] is Some
}

/// A piece `pt` of color `c` on `from` attacks `to`.
pub open spec fn piece_attacks(c: Color, pt: PieceType, from: int, to: int, occ: spec_fn(int) -> bool) -> bool {
    match pt {
        PieceType::Pawn => pawn_step(c, from, to),
        PieceType::Knight => knight_step(from, to),
        PieceType::Bishop => bishop_attack(from, occ, to),
        PieceType::Rook => rook_attack(from, occ, to),
        PieceType::Queen => queen_attack(from, occ, to),
        PieceType::King => king_step(from, to),
    }
}

/// The piece on `s` belongs to `by` and attacks `sq`.
pub open spec fn attacker_on(v: BoardView, s: int, by: Color, sq: int) -> bool {
    v.squares[s] matches Some((c, pt)) && c == by && piece_attacks(by, pt, s, sq, occupied(v))
}

/// `sq` is attacked by some piece of color `by`.
pub open spec fn attacked(v: BoardView, sq: int, by: Color) -> bool {
    exists|s: int| 0 <= s < 64 && #[trigger] attacker_on(v, s, by, sq)
}

pub open spec fn is_king_of(p: Option<(Color, PieceType)>, c: Color) -> bool {
    p == Some((c, PieceType::King))
}

pub open spec fn has_king(v: BoardView, c: Color) -> bool {
    exists|s: int| 0 <= s < 64 && #[trigger] is_king_of(v.squares[s], c)
}

/// `s` holds the king of `c` and no lower square does.
pub open spec fn lowest_king(v: BoardView, c: Color, s: int) -> bool {
    &&& 0 <= s < 64
    &&& is_king_of(v.squares[s], c)
    &&& forall|j: int| 0 <= j < s ==> !#[trigger] is_king_of(v.squares[j], c)
}

/// The square of the king of `c` (the lowest one, should there be several), or 64 without one.
pub open spec fn king_square(v: BoardView, c: Color) -> int {
    if has_king(v, c) {
        choose|s: int| lowest_king(v, c, s)
    } else {
        64
    }
}

/// The side `c` is in check.
pub open spec fn in_check_spec(v: BoardView, c: Color) -> bool {
    attacked(v, king_square(v, c), c.other())
}


/// The square of the pawn taken en passant, and the target square a double push leaves behind.
pub open spec fn cap_square(us: Color, to: int) -> int {
    if us == Color::White {
        to - 8
    } else {
        to + 8
    }
}

/// Where the rook starts for a castling move of flag `flag` (2 king side, 3 queen side).
pub open spec fn rook_from(us: Color, flag: int) -> int {
    if flag == 2 {
        if us == Color::White { 7 } else { 63 }
    } else {
        if us == Color::White { 0 } else { 56 }
    }
}

/// Where the rook lands for a castling move of flag `flag`.
pub open spec fn rook_to(us: Color, flag: int) -> int {
    if flag == 2 {
        if us == Color::White { 5 } else { 61 }
    } else {
        if us == Color::White { 3 } else { 59 }
    }
}

/// Castling rights kept when a move touches `sq`: the rook corners drop one
/// right, the king squares drop both rights of their side.
pub open spec fn castling_mask_spec(sq: int) -> u8 {
    if sq == 0 {
        253u8
    } else if sq == 4 {
        252u8
    } else if sq == 7 {
        254u8
    } else if sq == 56 {
        247u8
    } else if sq == 60 {
        243u8
    } else if sq == 63 {
        251u8
    } else {
        255u8
    }
}

pub open spec fn is_castling_flag(flag: int) -> bool {
    flag == 2 || flag == 3
}

/// The piece type on a square known to be occupied.
pub open spec fn kind_on(v: BoardView, s: int) -> PieceType {
    (v.squares[s]->0).1
}

/// A move that `make_move` can play on `v`: a piece of the side to move
/// leaves `from`; what it captures is an enemy piece (the pawn behind `to`
/// for en passant); quiet moves go to an empty square; promotions are made by
/// pawns; castling finds its rook and an empty landing square; the squares
/// it computes stay on the board and the move counters have room.
pub open spec fn move_ok(v: BoardView, mv: Move) -> bool {
    let us = v.side;
    let them = us.other();
    let from = mv.from_sq();
    let to = mv.to_sq();
    let flag = mv.flag_bits();
    &&& owned_by(v.squares[from], us)
    &&& from != to
    &&& if flag == 5 {
        &&& 0 <= cap_square(us, to) < 64
        &&& v.squares[cap_square(us, to)] == Some((them, PieceType::Pawn))
        &&& v.squares[to] is None
    } else if mv.captures() {
        owned_by(v.squares[to], them)
    } else {
        v.squares[to] is None
    }
    &&& (promo_of_flag(flag) is Some ==> v.squares[from] == Some((us, PieceType::Pawn)))
    &&& (is_castling_flag(flag) ==> {
        let rf = rook_from(us, flag);
        let rt = rook_to(us, flag);
        &&& v.squares[rf] == Some((us, PieceType::Rook))
        &&& v.squares[rt] is None
        &&& rf != from && rf != to && rt != from && rt != to
    })
    &&& (flag == 1 ==> 0 <= cap_square(us, to) < 64)
    &&& v.halfmove < 65535
    &&& (us == Color::Black ==> v.fullmove < 65535)
}

/// The squares after playing `mv`.
pub open spec fn make_squares(v: BoardView, mv: Move) -> Seq<Option<(Color, PieceType)>> {
    let us = v.side;
    let from = mv.from_sq();
    let to = mv.to_sq();
    let flag = mv.flag_bits();
    let s1 = if flag == 5 {
        v.squares.update(cap_square(us, to), None)
    } else if mv.captures() {
        v.squares.update(to, None)
    } else {
        v.squares
    };
    let placed = match promo_of_flag(flag) {
        Some(p) => p,
        None => kind_on(v, from),
    };
    let s2 = s1.update(from, None).update(to, Some((us, placed)));
    if is_castling_flag(flag) {
        s2.update(rook_from(us, flag), None).update(rook_to(us, flag), Some((us, PieceType::Rook)))
    } else {
        s2
    }
}

/// The position after playing `mv` on `v`.
pub open spec fn make_view(v: BoardView, mv: Move) -> BoardView {
    let us = v.side;
    let from = mv.from_sq();
    let to = mv.to_sq();
    let flag = mv.flag_bits();
    BoardView {
        squares: make_squares(v, mv),
        side: us.other(),
        castling: v.castling & castling_mask_spec(from) & castling_mask_spec(to),
        ep: if flag == 1 { Some(cap_square(us, to) as u8) } else { None },
        halfmove: if kind_on(v, from) == PieceType::Pawn || mv.captures() { 0 } else { (v.halfmove + 1) as u16 },
        fullmove: if us == Color::Black { (v.fullmove + 1) as u16 } else { v.fullmove },
    }
}

/// The piece type `mv` takes on `v`, if any.
pub open spec fn captured_by(v: BoardView, mv: Move) -> Option<PieceType> {
    if mv.flag_bits() == 5 {
        Some(PieceType::Pawn)
    } else if mv.captures() {
        Some(kind_on(v, mv.to_sq()))
    } else {
        None
    }
}

/// What `make_move` records to take `mv` back.
pub open spec fn make_undo(v: BoardView, mv: Move) -> Undo {
    Undo {
        captured: captured_by(v, mv),
        castling: v.castling,
        ep: v.ep,
        halfmove: v.halfmove,
        hash: hash_spec(v),
    }
}

/// The squares after taking `mv` back with `u`.
pub open spec fn unmake_squares(v: BoardView, mv: Move, u: Undo) -> Seq<Option<(Color, PieceType)>> {
    let them = v.side;
    let us = them.other();
    let from = mv.from_sq();
    let to = mv.to_sq();
    let flag = mv.flag_bits();
    let s1 = match promo_of_flag(flag) {
        Some(_) => v.squares.update(to, None).update(from, Some((us, PieceType::Pawn))),
        None => v.squares.update(to, None).update(from, v.squares[to]),
    };
    let s2 = if is_castling_flag(flag) {
        s1.update(rook_to(us, flag), None).update(rook_from(us, flag), Some((us, PieceType::Rook)))
    } else {
        s1
    };
    if flag == 5 {
        s2.update(cap_square(us, to), Some((them, PieceType::Pawn)))
    } else {
        match u.captured {
            Some(c) => s2.update(to, Some((them, c))),
            None => s2,
        }
    }
}

/// The position after taking `mv` back with `u`.
pub open spec fn unmake_view(v: BoardView, mv: Move, u: Undo) -> BoardView {
    let us = v.side.other();
    BoardView {
        squares: unmake_squares(v, mv, u),
        side: us,
        castling: u.castling,
        ep: u.ep,
        halfmove: u.halfmove,
        fullmove: if us == Color::Black { (v.fullmove - 1) as u16 } else { v.fullmove },
    }
}

/// A move `unmake_move` can take back from `v` with `u`: the moved piece
/// (the promoted piece for a promotion) of the side that just moved stands on
/// `to`, `from` is empty, a castling rook stands on its landing square, the
/// pawn taken en passant has an empty square to return to, the recorded state
/// is in range, and the recorded hash is the hash of the restored position.
pub open spec fn unmake_ok(v: BoardView, mv: Move, u: Undo) -> bool {
    let them = v.side;
    let us = them.other();
    let from = mv.from_sq();
    let to = mv.to_sq();
    let flag = mv.flag_bits();
    &&& from != to
    &&& match promo_of_flag(flag) {
        Some(p) => v.squares[to] == Some((us, p)),
        None => owned_by(v.squares[to], us),
    }
    &&& v.squares[from] is None
    &&& (is_castling_flag(flag) ==> {
        let rf = rook_from(us, flag);
        let rt = rook_to(us, flag);
        &&& v.squares[rt] == Some((us, PieceType::Rook))
        &&& v.squares[rf] is None
        &&& rf != from && rf != to && rt != from && rt != to
    })
    &&& (flag == 5 ==> {
        &&& 0 <= cap_square(us, to) < 64
        &&& cap_square(us, to) != from
        &&& v.squares[cap_square(us, to)] is None
    })
    &&& u.castling < 16
    &&& (u.ep matches Some(e) ==> e < 64)
    &&& (us == Color::Black ==> v.fullmove >= 1)
    &&& u.hash == hash_spec(unmake_view(v, mv, u))
}


/// Taking a move back restores the position it was played on: after
/// `make_move`, `unmake_move` with the recorded undo can be applied and gives
/// back the pieces, side, rights, en-passant target and counters it had before.
pub proof fn lemma_unmake_inverts_make(v: BoardView, mv: Move)
    requires
        view_ok(v),
        move_ok(v, mv),
    ensures
        unmake_ok(make_view(v, mv), mv, make_undo(v, mv)),
        unmake_view(make_view(v, mv), mv, make_undo(v, mv)) == v,
{
    let w = make_view(v, mv);
    let u = make_undo(v, mv);
    let back = unmake_view(w, mv, u);
    let us = v.side;
    let from = mv.from_sq();
    let to = mv.to_sq();
    let flag = mv.flag_bits();
    assert(0 <= from < 64 && 0 <= to < 64 && 0 <= flag < 16) by {
        assert(mv.0 < 65536);
    }
    assert(w.side.other() == us);
    assert(back.squares =~= v.squares);
    assert(back.fullmove == v.fullmove);
    assert(back == v);
}


proof fn lemma_xor_rest(bx: u64, ck: u64, ep: u64, sp: u64)
    by (bit_vector)
    ensures
        (((bx ^ ck) ^ ep) ^ sp) ^ bx == (ck ^ ep) ^ sp,
{
}

proof fn lemma_xor_add(h: u64, r: u64, b: u64, x: u64)
    by (bit_vector)
    ensures
        ((h ^ b) == r) ==> ((h ^ x) ^ b == r ^ x),
        ((h ^ b) == r && x == 0) ==> (h ^ b == r ^ x),
{
}


proof fn lemma_side_flip(sp0: u64, sk: u64)
    by (bit_vector)
    ensures
        sp0 == 0 ==> sp0 ^ sk == sk,
        sp0 == sk ==> sp0 ^ sk == 0,
{
}



proof fn lemma_xor_chain(h: u64, bx: u64, ck0: u64, ep0: u64, sp0: u64, ep1: u64, ck1: u64, sk: u64, sp1: u64)
    requires
        h ^ bx == (((((ck0 ^ ep0) ^ sp0) ^ ep0) ^ ep1) ^ (ck0 ^ ck1)) ^ sk,
        sp0 == 0 ==> sp1 == sk,
        sp0 == sk ==> sp1 == 0,
        sp0 == 0 || sp0 == sk,
    ensures
        h == ((bx ^ ck1) ^ ep1) ^ sp1,
{
    assert(h ^ bx == (((((ck0 ^ ep0) ^ sp0) ^ ep0) ^ ep1) ^ (ck0 ^ ck1)) ^ sk && (sp0 == 0 ==> sp1 == sk) && (sp0 == sk
        ==> sp1 == 0) && (sp0 == 0 || sp0 == sk) ==> h == ((bx ^ ck1) ^ ep1) ^ sp1) by (bit_vector);
}


proof fn lemma_lowest_from(v: BoardView, c: Color, i: int)
    requires
        0 <= i <= 64,
        forall|j: int| 0 <= j < i ==> !#[trigger] is_king_of(v.squares[j], c),
        exists|s: int| i <= s < 64 && #[trigger] is_king_of(v.squares[s], c),
    ensures
        exists|s: int| lowest_king(v, c, s),
    decreases 64 - i,
{
    if is_king_of(v.squares[i], c) {
        assert(lowest_king(v, c, i));
    } else {
        lemma_lowest_from(v, c, i + 1);
    }
}

/// With a king on the board, the king square is its lowest king.
pub proof fn lemma_king_square(v: BoardView, c: Color)
    requires
        has_king(v, c),
    ensures
        lowest_king(v, c, king_square(v, c)),
        0 <= king_square(v, c) < 64,
{
    lemma_lowest_from(v, c, 0);
}

pub open spec fn with_square(v: BoardView, s: int, p: Option<(Color, PieceType)>) -> BoardView {
    BoardView { squares: v.squares.update(s, p), ..v }
}

proof fn lemma_xor_toggle(h: u64, b: u64, x: u64, y: u64)
    by (bit_vector)
    ensures
        (h ^ y) ^ ((b ^ x) ^ y) == h ^ (b ^ x),
        (h ^ x) ^ ((b ^ x) ^ 0u64) == h ^ b,
        (h ^ x) ^ ((b ^ 0u64) ^ x) == h ^ b,
{
}

proof fn lemma_xor_swap(a: u64, ko: u64, kn: u64, kk: u64)
    by (bit_vector)
    ensures
        (a ^ ko) ^ ko ^ kn == a ^ kn,
        (a ^ ko ^ kn) ^ kk == (a ^ kk) ^ ko ^ kn,
{
}

/// Changing one square changes the board hash by that square's old and new keys.
pub proof fn lemma_board_xor_update(sq: Seq<Option<(Color, PieceType)>>, i: int, p: Option<(Color, PieceType)>, n: nat)
    requires
        0 <= i < sq.len(),
        n <= sq.len(),
    ensures
        board_xor(sq.update(i, p), n) == if n <= i {
            board_xor(sq, n)
        } else {
            board_xor(sq, n) ^ square_key(sq[i], i) ^ square_key(p, i)
        },
    decreases n,
{
    if n > 0 {
        lemma_board_xor_update(sq, i, p, (n - 1) as nat);
        let a = board_xor(sq, (n - 1) as nat);
        let ko = square_key(sq[i], i);
        let kn = square_key(p, i);
        let kk = square_key(sq[n - 1], n - 1);
        lemma_xor_swap(a, ko, kn, kk);
    }
}

/// Xor with zero from the left.
pub(crate) proof fn lemma_xor_zero_left(a: u64)
    by (bit_vector)
    ensures
        0u64 ^ a == a,
{
}

/// An empty board contributes nothing to the hash.
proof fn lemma_board_xor_none(n: nat)
    requires
        n <= 64,
    ensures
        board_xor(Seq::new(64, |i: int| None::<(Color, PieceType)>), n) == 0,
    decreases n,
{
    if n > 0 {
        lemma_board_xor_none((n - 1) as nat);
        crate::bitboard::lemma_xor_basics(0, 0);
    }
}

impl Position {
    /// The bitboards agree with the mailbox, and the rights and en-passant fields are in range.
    pub open spec fn boards_ok(&self) -> bool {
        &&& forall|c: Color, p: PieceType, s: int|
            0 <= s < 64 ==> #[trigger] has_sq(self.bb[c.idx()][p.idx()], s) == (self.mailbox@[s] == Some((c, p)))
        &&& forall|c: Color, s: int|
            0 <= s < 64 ==> #[trigger] has_sq(self.occ[c.idx()], s) == owned_by(self.mailbox@[s], c)
        &&& forall|s: int| 0 <= s < 64 ==> #[trigger] has_sq(self.all, s) == (self.mailbox@[s] is Some)
        &&& view_ok(self@)
    }

    /// The position is consistent and its hash is the Zobrist hash of what it holds.
    pub open spec fn wf(&self) -> bool {
        &&& self.boards_ok()
        &&& self.hash == hash_spec(self@)
    }

    /// What the hash holds beyond the pieces.
    pub open spec fn hash_rest(&self) -> u64 {
        self.hash ^ board_xor(self@.squares, 64)
    }

    pub fn empty() -> (p: Position)
        ensures
            p.boards_ok(),
            p@.squares == Seq::new(64, |i: int| None::<(Color, PieceType)>),
            p@.side == Color::White,
            p@.castling == 0,
            p@.ep is None,
            p@.halfmove == 0,
            p@.fullmove == 1,
            p.wf(),
    {
        let h = castling_key(0);
        let p = Position {
            bb: [[0;6];2],
            occ: [0;2],
            all: 0,
            mailbox: [None;64],
            side: Color::White,
            castling: 0,
            ep: None,
            halfmove: 0,
            fullmove: 1,
            hash: h,
        };
        proof {
            assert forall|s: int| 0 <= s < 64 implies !has_sq(0u64, s) by {
                lemma_empty(s as u64);
            }
            assert(p@.squares =~= Seq::new(64, |i: int| None::<(Color, PieceType)>));
            lemma_board_xor_none(64);
            crate::bitboard::lemma_xor_basics(h, 0);
            lemma_xor_zero_left(h);
        }
        p
    }


    /// The lowest square holding the king of `c`, or 64 when `c` has no king.
    #[inline]
    pub fn king_sq(&self, c: Color) -> (r: Square)
        requires
            self.boards_ok(),
        ensures
            r == king_square(self@, c),
            has_king(self@, c) <==> r < 64,
            r < 64 ==> lowest_king(self@, c, r as int),
    {
        let kb = self.bb[c.index()][PieceType::King.index()];
        let t = kb.trailing_zeros();
        proof {
            lemma_nonzero(kb);
            let v = self@;
            assert forall|s: int| 0 <= s < 64 implies has_sq(kb, s) == #[trigger] is_king_of(v.squares[s], c) by {
                assert(has_sq(self.bb[c.idx()][PieceType::King.idx()], s) == (self.mailbox@[s] == Some((c, PieceType::King))));
            }
            if kb != 0 {
                assert(is_king_of(v.squares[t as int], c));
                assert(lowest_king(v, c, t as int));
                let k = choose|s: int| lowest_king(v, c, s);
                assert(lowest_king(v, c, k));
                if k < t {
                    assert(!is_king_of(v.squares[k], c));
                } else if k > t {
                    assert(!is_king_of(v.squares[t as int], c));
                }
            } else {
                assert forall|s: int| 0 <= s < 64 implies !#[trigger] is_king_of(v.squares[s], c) by {
                    assert(!has_sq(kb, s));
                }
            }
        }
        t as Square
    }

    /// Is `sq` attacked by any piece of color `by`?
    pub fn is_attacked(&self, sq: Square, by: Color) -> (r: bool)
        requires
            self.boards_ok(),
            sq < 64,
        ensures
            r == attacked(self@, sq as int, by),
    {
        let b = by.index();
        let ghost v = self@;
        proof {
            assert forall|t: int| 0 <= t < 64 implies #[trigger] bb_fn(self.all)(t) == occupied(v)(t) by {
                assert(has_sq(self.all, t) == (self.mailbox@[t] is Some));
            }
            assert forall|s: int, p: PieceType| 0 <= s < 64 implies #[trigger] has_sq(self.bb[b as int][p.idx()], s) == (
            v.squares[s] == Some((by, p))) by {
                assert(has_sq(self.bb[by.idx()][p.idx()], s) == (self.mailbox@[s] == Some((by, p))));
            }
        }
        // Pawns: squares from which a `by` pawn attacks sq == pawn_attacks of opp color from sq.
        let pa = pawn_attacks(by.opp(), sq);
        let pawns = self.bb[b][PieceType::Pawn.index()];
        let t1 = pa & pawns != 0;
        let na = knight_attacks(sq);
        let knights = self.bb[b][PieceType::Knight.index()];
        let t2 = na & knights != 0;
        let ka = king_attacks(sq);
        let kings = self.bb[b][PieceType::King.index()];
        let t3 = ka & kings != 0;
        let bishops_queens = self.bb[b][PieceType::Bishop.index()] | self.bb[b][PieceType::Queen.index()];
        let ba = bishop_attacks(sq, self.all);
        let t4 = ba & bishops_queens != 0;
        let rooks_queens = self.bb[b][PieceType::Rook.index()] | self.bb[b][PieceType::Queen.index()];
        let ra = rook_attacks(sq, self.all);
        let t5 = ra & rooks_queens != 0;
        proof {
            lemma_intersects(pa, pawns);
            lemma_intersects(na, knights);
            lemma_intersects(ka, kings);
            lemma_intersects(ba, bishops_queens);
            lemma_intersects(ra, rooks_queens);
            let occ = occupied(v);
            assert forall|s: int| 0 <= s < 64 implies #[trigger] attacker_on(v, s, by, sq as int) == (
                (has_sq(pa, s) && has_sq(pawns, s)) || (has_sq(na, s) && has_sq(knights, s)) || (has_sq(ka, s)
                    && has_sq(kings, s)) || (has_sq(ba, s) && has_sq(bishops_queens, s)) || (has_sq(ra, s) && has_sq(
                    rooks_queens,
                    s,
                ))) by {
                lemma_leaper_symmetric(s, sq as int, by);
                lemma_slider_symmetric(s, sq as int, occ);
                lemma_slider_congruent(sq as int, s, bb_fn(self.all), occ);
                lemma_or(self.bb[b as int][PieceType::Bishop.idx()], self.bb[b as int][PieceType::Queen.idx()], s as u64);
                lemma_or(self.bb[b as int][PieceType::Rook.idx()], self.bb[b as int][PieceType::Queen.idx()], s as u64);
                assert(has_sq(pawns, s) == (v.squares[s] == Some((by, PieceType::Pawn))));
                assert(has_sq(knights, s) == (v.squares[s] == Some((by, PieceType::Knight))));
                assert(has_sq(kings, s) == (v.squares[s] == Some((by, PieceType::King))));
                assert(has_sq(self.bb[b as int][PieceType::Bishop.idx()], s) == (v.squares[s] == Some((by, PieceType::Bishop))));
                assert(has_sq(self.bb[b as int][PieceType::Rook.idx()], s) == (v.squares[s] == Some((by, PieceType::Rook))));
                assert(has_sq(self.bb[b as int][PieceType::Queen.idx()], s) == (v.squares[s] == Some((by, PieceType::Queen))));
            }
            if t1 {
                let w = choose|s: int| 0 <= s < 64 && has_sq(pa, s) && #[trigger] has_sq(pawns, s);
                assert(attacker_on(v, w, by, sq as int));
            }
            if t2 {
                let w = choose|s: int| 0 <= s < 64 && has_sq(na, s) && #[trigger] has_sq(knights, s);
                assert(attacker_on(v, w, by, sq as int));
            }
            if t3 {
                let w = choose|s: int| 0 <= s < 64 && has_sq(ka, s) && #[trigger] has_sq(kings, s);
                assert(attacker_on(v, w, by, sq as int));
            }
            if t4 {
                let w = choose|s: int| 0 <= s < 64 && has_sq(ba, s) && #[trigger] has_sq(bishops_queens, s);
                assert(attacker_on(v, w, by, sq as int));
            }
            if t5 {
                let w = choose|s: int| 0 <= s < 64 && has_sq(ra, s) && #[trigger] has_sq(rooks_queens, s);
                assert(attacker_on(v, w, by, sq as int));
            }
        }
        if t1 {
            return true;
        }
        if t2 {
            return true;
        }
        if t3 {
            return true;
        }
        if t4 {
            return true;
        }
        if t5 {
            return true;
        }
        false
    }

    #[inline]
    pub fn in_check(&self, c: Color) -> (r: bool)
        requires
            self.boards_ok(),
            has_king(self@, c),
        ensures
            r == in_check_spec(self@, c),
    {
        let k = self.king_sq(c);
        self.is_attacked(k, c.opp())
    }

    /// Recompute the Zobrist hash from scratch (used to validate incremental updates).
    pub fn compute_hash(&self) -> (h: u64)
        requires
            self.castling < 16,
        ensures
            h == hash_spec(self@),
    {
        let mut h = 0u64;
        let mut sq: u8 = 0;
        while sq < 64
            invariant
                sq <= 64,
                h == board_xor(self.mailbox@, sq as nat),
            decreases 64 - sq,
        {
            if let Some((c, pt)) = self.mailbox[sq as usize] {
                h = h ^ piece_key(c, pt, sq);
            } else {
                proof {
                    crate::bitboard::lemma_xor_basics(h, h);
                }
            }
            sq = sq + 1;
        }
        h = h ^ castling_key(self.castling);
        if let Some(ep) = self.ep {
            h = h ^ ep_key(file_of(ep));
        } else {
            proof {
                crate::bitboard::lemma_xor_basics(h, h);
            }
        }
        if self.side == Color::Black {
            h = h ^ side_key();
        } else {
            proof {
                crate::bitboard::lemma_xor_basics(h, h);
            }
        }
        h
    }


    // ---- make / unmake ----
    /// Play `mv`, returning what is needed to take it back.
    pub fn make_move(&mut self, mv: Move) -> (undo: Undo)
        requires
            old(self).wf(),
            move_ok(old(self)@, mv),
        ensures
            final(self).wf(),
            final(self)@ == make_view(old(self)@, mv),
            undo == make_undo(old(self)@, mv),
    {
        let ghost v0 = self@;
        let ghost bx0 = board_xor(self@.squares, 64);
        let ghost ck0 = castling_key_spec(self.castling as int);
        let ghost ep0 = ep_part(self.ep);
        let ghost sp0 = side_part(self.side);
        proof {
            lemma_xor_rest(bx0, ck0, ep0, sp0);
        }
        let from = mv.from();
        let moving_pt = match self.mailbox[from as usize] {
            Some((_, pt)) => pt,
            None => {
                proof {
                    assert(false);
                }
                PieceType::Pawn
            },
        };
        let undo = Undo {
            captured: None,
            castling: self.castling,
            ep: self.ep,
            halfmove: self.halfmove,
            hash: self.hash,
        };

        // Reset ep target; set later if this is a double push.
        self.clear_ep();

        self.halfmove = self.halfmove + 1;
        if moving_pt == PieceType::Pawn {
            self.halfmove = 0;
        }
        let captured = self.move_pieces(mv, moving_pt, Ghost(v0));
        if captured.is_some() {
            self.halfmove = 0;
        }
        self.finish_move(mv);
        proof {
            let ep1 = ep_part(self.ep);
            let ck1 = castling_key_spec(self.castling as int);
            let sk = side_key_spec();
            let sp1 = side_part(self.side);
            lemma_side_flip(sp0, sk);
            lemma_xor_chain(self.hash, board_xor(self@.squares, 64), ck0, ep0, sp0, ep1, ck1, sk, sp1);
            assert(self@ == make_view(v0, mv));
        }
        let mut u = undo;
        u.captured = captured;
        u
    }

    /// Drop the en-passant target, and its key from the hash.
    fn clear_ep(&mut self)
        requires
            old(self).boards_ok(),
        ensures
            final(self).boards_ok(),
            final(self)@ == (BoardView { ep: None, ..old(self)@ }),
            final(self).hash_rest() == old(self).hash_rest() ^ ep_part(old(self).ep),
    {
        let prev_ep = self.ep;
        if let Some(old_ep) = prev_ep {
            self.hash = self.hash ^ ep_key(file_of(old_ep));
        }
        self.ep = None;
        proof {
            let o = old(self);
            lemma_xor_add(o.hash, o.hash_rest(), board_xor(o@.squares, 64), ep_part(o.ep));
        }
    }

    /// Everything after the pieces have moved: a new en-passant target after a
    /// double push, the castling rights, the move number and the side to move,
    /// with their keys in the hash.
    fn finish_move(&mut self, mv: Move)
        requires
            old(self).boards_ok(),
            old(self).ep is None,
            mv.flag_bits() == 1 ==> 0 <= cap_square(old(self).side, mv.to_sq()) < 64,
            old(self).side == Color::Black ==> old(self).fullmove < 65535,
        ensures
            final(self).boards_ok(),
            final(self)@ == (BoardView {
                side: old(self).side.other(),
                castling: old(self).castling & castling_mask_spec(mv.from_sq()) & castling_mask_spec(mv.to_sq()),
                ep: if mv.flag_bits() == 1 { Some(cap_square(old(self).side, mv.to_sq()) as u8) } else { None },
                fullmove: if old(self).side == Color::Black { (old(self).fullmove + 1) as u16 } else { old(self).fullmove },
                ..old(self)@
            }),
            final(self).hash_rest() == ((old(self).hash_rest() ^ ep_part(final(self).ep)) ^ (castling_key_spec(
                old(self).castling as int,
            ) ^ castling_key_spec(final(self).castling as int))) ^ side_key_spec(),
    {
        let us = self.side;
        let from = mv.from();
        let to = mv.to();
        let flag = mv.flag();
        let ghost r0 = self.hash_rest();
        let ghost bx = board_xor(self@.squares, 64);
        // Set en passant target on a double pawn push.
        if flag == FLAG_DOUBLE_PAWN {
            let ep_sq = if us == Color::White { to - 8 } else { to + 8 };
            self.ep = Some(ep_sq);
            self.hash = self.hash ^ ep_key(file_of(ep_sq));
        }
        let ghost h1 = self.hash;
        let ghost ep1 = ep_part(self.ep);

        // Update castling rights based on from/to squares touched.
        let old_castling = self.castling;
        self.castling = self.castling & castling_mask(from);
        self.castling = self.castling & castling_mask(to);
        proof {
            let c = old_castling;
            let m1 = castling_mask_spec(from as int);
            let m2 = castling_mask_spec(to as int);
            lemma_mask_keep(c, m1, m2);
        }
        if old_castling != self.castling {
            self.hash = self.hash ^ (castling_key(old_castling) ^ castling_key(self.castling));
        }
        let ghost h2 = self.hash;
        let ghost ck0 = castling_key_spec(old_castling as int);
        let ghost ck1 = castling_key_spec(self.castling as int);

        if us == Color::Black {
            self.fullmove = self.fullmove + 1;
        }
        self.side = us.opp();
        self.hash = self.hash ^ side_key();
        proof {
            let o = old(self);
            lemma_xor_add(o.hash, r0, bx, ep1);
            crate::bitboard::lemma_xor_basics(ck0, ck0);
            lemma_xor_add(h1, r0 ^ ep1, bx, ck0 ^ ck1);
            lemma_xor_add(h2, (r0 ^ ep1) ^ (ck0 ^ ck1), bx, side_key_spec());
        }
    }

    /// The piece moves of `mv`: the capture, the moving (or promoted) piece and a castling rook.
    fn move_pieces(&mut self, mv: Move, moving_pt: PieceType, Ghost(v0): Ghost<BoardView>) -> (captured: Option<PieceType>)
        requires
            old(self).boards_ok(),
            view_ok(v0),
            move_ok(v0, mv),
            old(self)@.squares == v0.squares,
            old(self).side == v0.side,
            moving_pt == kind_on(v0, mv.from_sq()),
        ensures
            final(self).boards_ok(),
            final(self)@ == (BoardView { squares: make_squares(v0, mv), ..old(self)@ }),
            final(self).hash_rest() == old(self).hash_rest(),
            captured == captured_by(v0, mv),
            captured is Some <==> mv.captures(),
    {
        let us = self.side;
        let them = us.opp();
        let from = mv.from();
        let to = mv.to();
        let flag = mv.flag();
        let mut captured: Option<PieceType> = None;
        // Handle captures (including en passant).
        if mv.is_ep() {
            // Captured pawn sits behind the destination square.
            let cap_sq = if us == Color::White { to - 8 } else { to + 8 };
            self.remove(them, PieceType::Pawn, cap_sq);
            captured = Some(PieceType::Pawn);
        } else if mv.is_capture() {
            let cpt = match self.mailbox[to as usize] {
                Some((_, p)) => p,
                None => {
                    proof {
                        assert(false);
                    }
                    PieceType::Pawn
                },
            };
            self.remove(them, cpt, to);
            captured = Some(cpt);
        }
        // Move the piece (handle promotion by swapping piece type at destination).
        if let Some(promo) = mv.promo_piece() {
            self.remove(us, PieceType::Pawn, from);
            self.put(us, promo, to);
        } else {
            self.move_piece(us, moving_pt, from, to);
        }

        // Castling: move the rook too.
        if flag == FLAG_KING_CASTLE {
            let (rf, rt): (u8, u8) = if us == Color::White { (7, 5) } else { (63, 61) };
            self.move_piece(us, PieceType::Rook, rf, rt);
        } else if flag == FLAG_QUEEN_CASTLE {
            let (rf, rt): (u8, u8) = if us == Color::White { (0, 3) } else { (56, 59) };
            self.move_piece(us, PieceType::Rook, rf, rt);
        }
        proof {
            assert(self@.squares =~= make_squares(v0, mv));
        }
        captured
    }

    /// Take back `mv`, restoring the state recorded in `undo`.
    pub fn unmake_move(&mut self, mv: Move, undo: Undo)
        requires
            old(self).boards_ok(),
            unmake_ok(old(self)@, mv, undo),
        ensures
            final(self).wf(),
            final(self)@ == unmake_view(old(self)@, mv, undo),
    {
        let ghost v0 = self@;
        let them = self.side;  // side that didn't move
        let us = them.opp();  // side that moved
        let from = mv.from();
        let to = mv.to();
        let flag = mv.flag();

        self.side = us;
        self.castling = undo.castling;
        self.ep = undo.ep;
        self.halfmove = undo.halfmove;
        if us == Color::Black {
            self.fullmove = self.fullmove - 1;
        }

        // Undo the piece move / promotion.
        if let Some(promo) = mv.promo_piece() {
            self.remove(us, promo, to);
            self.put(us, PieceType::Pawn, from);
        } else {
            let pt = match self.mailbox[to as usize] {
                Some((_, p)) => p,
                None => {
                    proof {
                        assert(false);
                    }
                    PieceType::Pawn
                },
            };
            self.move_piece(us, pt, to, from);
        }

        // Undo castling rook move.
        if flag == FLAG_KING_CASTLE {
            let (rf, rt): (u8, u8) = if us == Color::White { (7, 5) } else { (63, 61) };
            self.move_piece(us, PieceType::Rook, rt, rf);
        } else if flag == FLAG_QUEEN_CASTLE {
            let (rf, rt): (u8, u8) = if us == Color::White { (0, 3) } else { (56, 59) };
            self.move_piece(us, PieceType::Rook, rt, rf);
        }

        // Restore captured piece.
        if mv.is_ep() {
            let cap_sq = if us == Color::White { to - 8 } else { to + 8 };
            self.put(them, PieceType::Pawn, cap_sq);
        } else if let Some(cpt) = undo.captured {
            self.put(them, cpt, to);
        }

        // The put/remove calls above scrambled the hash; restore it wholesale.
        self.hash = undo.hash;
        proof {
            assert(self@.squares =~= unmake_squares(v0, mv, undo));
            assert(self@ == unmake_view(v0, mv, undo));
        }
    }

    #[inline]
    pub(crate) fn put(&mut self, c: Color, pt: PieceType, sq: Square)
        requires
            old(self).boards_ok(),
            sq < 64,
            old(self).mailbox@[sq as int] is None,
        ensures
            final(self).boards_ok(),
            final(self)@ == with_square(old(self)@, sq as int, Some((c, pt))),
            final(self).hash == old(self).hash ^ piece_key_spec(c, pt, sq as int),
            final(self).hash_rest() == old(self).hash_rest(),
    {
        let b = 1u64 << sq;
        let ci = c.index();
        let pi = pt.index();
        self.bb[ci][pi] = self.bb[ci][pi] | b;
        self.occ[ci] = self.occ[ci] | b;
        self.all = self.all | b;
        self.mailbox[sq as usize] = Some((c, pt));
        self.hash = self.hash ^ piece_key(c, pt, sq);
        proof {
            let o = old(self);
            assert forall|c2: Color, p2: PieceType, s: int| 0 <= s < 64 implies #[trigger] has_sq(
                self.bb[c2.idx()][p2.idx()],
                s,
            ) == (self.mailbox@[s] == Some((c2, p2))) by {
                lemma_or(o.bb[c2.idx()][p2.idx()], b, s as u64);
                lemma_single(sq as u64, s as u64);
                assert(has_sq(o.bb[c2.idx()][p2.idx()], s) == (o.mailbox@[s] == Some((c2, p2))));
            }
            assert forall|c2: Color, s: int| 0 <= s < 64 implies #[trigger] has_sq(self.occ[c2.idx()], s) == owned_by(
                self.mailbox@[s],
                c2,
            ) by {
                lemma_or(o.occ[c2.idx()], b, s as u64);
                lemma_single(sq as u64, s as u64);
                assert(has_sq(o.occ[c2.idx()], s) == owned_by(o.mailbox@[s], c2));
            }
            assert forall|s: int| 0 <= s < 64 implies #[trigger] has_sq(self.all, s) == (self.mailbox@[s] is Some) by {
                lemma_or(o.all, b, s as u64);
                lemma_single(sq as u64, s as u64);
                assert(has_sq(o.all, s) == (o.mailbox@[s] is Some));
            }
            assert(self@.squares =~= o@.squares.update(sq as int, Some((c, pt))));
            lemma_board_xor_update(o@.squares, sq as int, Some((c, pt)), 64);
            lemma_xor_toggle(o.hash, board_xor(o@.squares, 64), piece_key_spec(c, pt, sq as int), 0);
        }
    }

    #[inline]
    fn remove(&mut self, c: Color, pt: PieceType, sq: Square)
        requires
            old(self).boards_ok(),
            sq < 64,
            old(self).mailbox@[sq as int] == Some((c, pt)),
        ensures
            final(self).boards_ok(),
            final(self)@ == with_square(old(self)@, sq as int, None),
            final(self).hash == old(self).hash ^ piece_key_spec(c, pt, sq as int),
            final(self).hash_rest() == old(self).hash_rest(),
    {
        let b = !(1u64 << sq);
        let ci = c.index();
        let pi = pt.index();
        self.bb[ci][pi] = self.bb[ci][pi] & b;
        self.occ[ci] = self.occ[ci] & b;
        self.all = self.all & b;
        self.mailbox[sq as usize] = None;
        self.hash = self.hash ^ piece_key(c, pt, sq);
        proof {
            let o = old(self);
            let one = 1u64 << sq;
            assert forall|c2: Color, p2: PieceType, s: int| 0 <= s < 64 implies #[trigger] has_sq(
                self.bb[c2.idx()][p2.idx()],
                s,
            ) == (self.mailbox@[s] == Some((c2, p2))) by {
                lemma_and(o.bb[c2.idx()][p2.idx()], b, s as u64);
                lemma_not(one, s as u64);
                lemma_single(sq as u64, s as u64);
                assert(has_sq(o.bb[c2.idx()][p2.idx()], s) == (o.mailbox@[s] == Some((c2, p2))));
            }
            assert forall|c2: Color, s: int| 0 <= s < 64 implies #[trigger] has_sq(self.occ[c2.idx()], s) == owned_by(
                self.mailbox@[s],
                c2,
            ) by {
                lemma_and(o.occ[c2.idx()], b, s as u64);
                lemma_not(one, s as u64);
                lemma_single(sq as u64, s as u64);
                assert(has_sq(o.occ[c2.idx()], s) == owned_by(o.mailbox@[s], c2));
            }
            assert forall|s: int| 0 <= s < 64 implies #[trigger] has_sq(self.all, s) == (self.mailbox@[s] is Some) by {
                lemma_and(o.all, b, s as u64);
                lemma_not(one, s as u64);
                lemma_single(sq as u64, s as u64);
                assert(has_sq(o.all, s) == (o.mailbox@[s] is Some));
            }
            assert(self@.squares =~= o@.squares.update(sq as int, None));
            lemma_board_xor_update(o@.squares, sq as int, None, 64);
            lemma_xor_toggle(o.hash, board_xor(o@.squares, 64), piece_key_spec(c, pt, sq as int), 0);
        }
    }

    #[inline]
    fn move_piece(&mut self, c: Color, pt: PieceType, from: Square, to: Square)
        requires
            old(self).boards_ok(),
            from < 64,
            to < 64,
            from != to,
            old(self).mailbox@[from as int] == Some((c, pt)),
            old(self).mailbox@[to as int] is None,
        ensures
            final(self).boards_ok(),
            final(self)@ == with_square(with_square(old(self)@, from as int, None), to as int, Some((c, pt))),
            final(self).hash_rest() == old(self).hash_rest(),
    {
        self.remove(c, pt, from);
        self.put(c, pt, to);
    }
}


/// True if (file, rank) is on the board.
#[inline]
pub(crate) fn on_board_i(file: i32, rank: i32) -> (r: bool)
    ensures
        r == (0 <= file < 8 && 0 <= rank < 8),
{
    0 <= file && file < 8 && 0 <= rank && rank < 8
}

pub proof fn lemma_mask_constants()
    by (bit_vector)
    ensures
        !CR_WQ == 253u8 && !(CR_WK | CR_WQ) == 252u8 && !CR_WK == 254u8,
        !CR_BQ == 247u8 && !(CR_BK | CR_BQ) == 243u8 && !CR_BK == 251u8,
        253u8 & 2 == 0 && 252u8 & 1 == 0 && 252u8 & 2 == 0 && 254u8 & 1 == 0,
        247u8 & 8 == 0 && 243u8 & 4 == 0 && 243u8 & 8 == 0 && 251u8 & 4 == 0,
{
}

/// Masking castling rights only drops rights.
pub proof fn lemma_mask_keep(c: u8, m1: u8, m2: u8)
    by (bit_vector)
    ensures
        c < 16 ==> (c & m1) & m2 < 16,
        ((c & m1) & m2) & 1 != 0 ==> (c & 1 != 0 && m1 & 1 != 0 && m2 & 1 != 0),
        ((c & m1) & m2) & 2 != 0 ==> (c & 2 != 0 && m1 & 2 != 0 && m2 & 2 != 0),
        ((c & m1) & m2) & 4 != 0 ==> (c & 4 != 0 && m1 & 4 != 0 && m2 & 4 != 0),
        ((c & m1) & m2) & 8 != 0 ==> (c & 8 != 0 && m1 & 8 != 0 && m2 & 8 != 0),
{
}

/// Mask of castling rights to KEEP when the given square is moved from or to.
fn castling_mask(sq: Square) -> (r: u8)
    ensures
        r == castling_mask_spec(sq as int),
{
    proof {
        lemma_mask_constants();
    }
    match sq {
        0 => !CR_WQ,  // a1 rook
        4 => !(CR_WK | CR_WQ),  // e1 king
        7 => !CR_WK,  // h1 rook
        56 => !CR_BQ,  // a8 rook
        60 => !(CR_BK | CR_BQ),  // e8 king
        63 => !CR_BK,  // h8 rook
        _ => 0xff,
    }
}

} // verus!
