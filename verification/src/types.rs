//! Core type definitions: colors, piece types, squares, and the compact move encoding.
use crate::text::push_char;
use vstd::prelude::*;

verus! {

pub type Bitboard = u64;

/// Square index 0..=63, a1 = 0, b1 = 1, ... h8 = 63.
pub type Square = u8;

#[derive(Clone, Copy, PartialEq, Eq, Debug, Structural)]
pub enum Color {
    White,
    Black,
}

impl Color {
    /// 0 for White, 1 for Black.
    pub open spec fn idx(self) -> int {
        match self {
            Color::White => 0,
            Color::Black => 1,
        }
    }

    pub open spec fn other(self) -> Color {
        match self {
            Color::White => Color::Black,
            Color::Black => Color::White,
        }
    }

    #[inline]
    pub fn index(self) -> (r: usize)
        ensures
            r == self.idx(),
    {
        match self {
            Color::White => 0,
            Color::Black => 1,
        }
    }

    #[inline]
    pub fn opp(self) -> (r: Color)
        ensures
            r == self.other(),
    {
        match self {
            Color::White => Color::Black,
            Color::Black => Color::White,
        }
    }
}

/// The opponent of the opponent is the color itself.
pub proof fn lemma_opp_involution(c: Color)
    ensures
        c.other().other() == c,
        c.other() != c,
{
}

#[derive(Clone, Copy, PartialEq, Eq, Debug, Structural)]
pub enum PieceType {
    Pawn,
    Knight,
    Bishop,
    Rook,
    Queen,
    King,
}

/// The piece type with index `i` (Pawn = 0 ... King = 5).
pub open spec fn piece_of_index(i: int) -> PieceType {
    if i == 0 {
        PieceType::Pawn
    } else if i == 1 {
        PieceType::Knight
    } else if i == 2 {
        PieceType::Bishop
    } else if i == 3 {
        PieceType::Rook
    } else if i == 4 {
        PieceType::Queen
    } else {
        PieceType::King
    }
}

impl PieceType {
    pub open spec fn idx(self) -> int {
        match self {
            PieceType::Pawn => 0,
            PieceType::Knight => 1,
            PieceType::Bishop => 2,
            PieceType::Rook => 3,
            PieceType::Queen => 4,
            PieceType::King => 5,
        }
    }

    /// The uppercase letter of the piece in FEN / SAN.
    pub open spec fn letter(self) -> char {
        match self {
            PieceType::Pawn => 'P',
            PieceType::Knight => 'N',
            PieceType::Bishop => 'B',
            PieceType::Rook => 'R',
            PieceType::Queen => 'Q',
            PieceType::King => 'K',
        }
    }

    #[inline]
    pub fn index(self) -> (r: usize)
        ensures
            r == self.idx(),
    {
        match self {
            PieceType::Pawn => 0,
            PieceType::Knight => 1,
            PieceType::Bishop => 2,
            PieceType::Rook => 3,
            PieceType::Queen => 4,
            PieceType::King => 5,
        }
    }

    pub fn from_index(i: usize) -> (r: PieceType)
        requires
            i < 6,
        ensures
            r == piece_of_index(i as int),
            r.idx() == i,
    {
        match i {
            0 => PieceType::Pawn,
            1 => PieceType::Knight,
            2 => PieceType::Bishop,
            3 => PieceType::Rook,
            4 => PieceType::Queen,
            _ => PieceType::King,
        }
    }

    /// The character used in FEN / SAN for this piece type (uppercase).
    pub fn to_char(self) -> (r: char)
        ensures
            r == self.letter(),
    {
        match self {
            PieceType::Pawn => 'P',
            PieceType::Knight => 'N',
            PieceType::Bishop => 'B',
            PieceType::Rook => 'R',
            PieceType::Queen => 'Q',
            PieceType::King => 'K',
        }
    }
}

/// Indexing piece types is a bijection with 0..6.
pub proof fn lemma_piece_index_roundtrip(pt: PieceType)
    ensures
        0 <= pt.idx() < 6,
        piece_of_index(pt.idx()) == pt,
{
}

pub const ALL_PIECE_TYPES: [PieceType; 6] = [
    PieceType::Pawn,
    PieceType::Knight,
    PieceType::Bishop,
    PieceType::Rook,
    PieceType::Queen,
    PieceType::King,
];

// ---- Square helpers ----
pub open spec fn file_spec(sq: int) -> int {
    sq % 8
}

pub open spec fn rank_spec(sq: int) -> int {
    sq / 8
}

pub open spec fn square_spec(file: int, rank: int) -> int {
    rank * 8 + file
}

proof fn lemma_square_bits(sq: u8)
    by (bit_vector)
    ensures
        sq & 7 == sq % 8,
        sq >> 3 == sq / 8,
{
}

#[inline]
pub fn file_of(sq: Square) -> (r: u8)
    ensures
        r == file_spec(sq as int),
{
    proof {
        lemma_square_bits(sq);
    }
    sq & 7
}

#[inline]
pub fn rank_of(sq: Square) -> (r: u8)
    ensures
        r == rank_spec(sq as int),
{
    proof {
        lemma_square_bits(sq);
    }
    sq >> 3
}

/// The square of `file` and `rank`; for a file below 8 and a rank below 32 this
/// is `rank * 8 + file`, otherwise the bits of the rank that leave the byte are lost.
#[inline]
pub fn make_square(file: u8, rank: u8) -> (r: Square)
    ensures
        r == ((rank << 3u8) | file),
        file < 8 && rank < 32 ==> r == square_spec(file as int, rank as int),
{
    let r = (rank << 3) | file;
    proof {
        if file < 8 && rank < 32 {
            assert(file < 8 && rank < 32 ==> ((rank << 3u8) | file) == rank * 8 + file) by (bit_vector);
        }
    }
    r
}

/// Files, ranks and squares convert into each other without loss.
pub proof fn lemma_square_roundtrip(sq: int, file: int, rank: int)
    requires
        0 <= sq < 64,
        0 <= file < 8,
        0 <= rank < 8,
    ensures
        0 <= file_spec(sq) < 8,
        0 <= rank_spec(sq) < 8,
        square_spec(file_spec(sq), rank_spec(sq)) == sq,
        file_spec(square_spec(file, rank)) == file,
        rank_spec(square_spec(file, rank)) == rank,
        0 <= square_spec(file, rank) < 64,
{
}

/// The algebraic name of a square: the file letter then the rank digit.
pub open spec fn square_name(sq: int) -> Seq<char> {
    seq![(97 + file_spec(sq)) as char, (49 + rank_spec(sq)) as char]
}

/// Convert a square index to algebraic notation, e.g. 0 -> "a1".
pub fn square_to_string(sq: Square) -> (s: String)
    ensures
        s@ == square_name(sq as int),
{
    let f = (97u8 + file_of(sq)) as char;
    let r = (49u8 + rank_of(sq)) as char;
    let mut s = String::new();
    push_char(&mut s, f);
    push_char(&mut s, r);
    s
}

/// The square a name denotes: two characters, a file letter 'a'..='h' then a rank digit '1'..='8'.
pub open spec fn parse_square(s: Seq<char>) -> Option<int> {
    if s.len() == 2 && 'a' <= s[0] <= 'h' && '1' <= s[1] <= '8' {
        Some(square_spec(s[0] as int - 97, s[1] as int - 49))
    } else {
        None
    }
}

pub(crate) fn square_from_chars(s: &[char]) -> (r: Option<Square>)
    ensures
        r matches Some(sq) ==> parse_square(s@) == Some(sq as int),
        r is None ==> parse_square(s@) is None,
{
    if s.len() != 2 {
        return None;
    }
    let a = s[0];
    let b = s[1];
    if !('a' <= a && a <= 'h' && '1' <= b && b <= '8') {
        return None;
    }
    let file = (a as u32 - 97) as u8;
    let rank = (b as u32 - 49) as u8;
    Some(make_square(file, rank))
}

/// Parse algebraic notation like "e4" into a square index.
pub fn string_to_square(s: &str) -> (r: Option<Square>)
    ensures
        r matches Some(sq) ==> parse_square(s@) == Some(sq as int),
        r is None ==> parse_square(s@) is None,
{
    let v = crate::text::chars_of(s);
    square_from_chars(v.as_slice())
}

/// Square names and squares convert into each other without loss.
pub proof fn lemma_square_name_roundtrip(sq: int)
    requires
        0 <= sq < 64,
    ensures
        parse_square(square_name(sq)) == Some(sq),
{
    let n = square_name(sq);
    assert(n[0] as int == 97 + file_spec(sq));
    assert(n[1] as int == 49 + rank_spec(sq));
}


// ---- Move encoding (16 bits): from(6) | to(6) | flag(4) ----
// Flags follow the common Chess Programming Wiki scheme.
pub const FLAG_QUIET: u16 = 0;
pub const FLAG_DOUBLE_PAWN: u16 = 1;
pub const FLAG_KING_CASTLE: u16 = 2;
pub const FLAG_QUEEN_CASTLE: u16 = 3;
pub const FLAG_CAPTURE: u16 = 4;
pub const FLAG_EP_CAPTURE: u16 = 5;
pub const FLAG_PROMO_N: u16 = 8;
pub const FLAG_PROMO_B: u16 = 9;
pub const FLAG_PROMO_R: u16 = 10;
pub const FLAG_PROMO_Q: u16 = 11;
pub const FLAG_PROMO_N_CAP: u16 = 12;
pub const FLAG_PROMO_B_CAP: u16 = 13;
pub const FLAG_PROMO_R_CAP: u16 = 14;
pub const FLAG_PROMO_Q_CAP: u16 = 15;

#[derive(Clone, Copy, PartialEq, Eq, Debug, Structural)]
pub struct Move(pub u16);

/// The 16-bit word of a move: from in bits 0..6, to in bits 6..12, flag in bits 12..16.
pub open spec fn move_word(from: u8, to: u8, flag: u16) -> u16 {
    (from as u16) | ((to as u16) << 6u16) | (flag << 12u16)
}

/// The piece a promotion flag promotes to.
pub open spec fn promo_of_flag(flag: int) -> Option<PieceType> {
    if flag == 8 || flag == 12 {
        Some(PieceType::Knight)
    } else if flag == 9 || flag == 13 {
        Some(PieceType::Bishop)
    } else if flag == 10 || flag == 14 {
        Some(PieceType::Rook)
    } else if flag == 11 || flag == 15 {
        Some(PieceType::Queen)
    } else {
        None
    }
}

/// The lowercase ASCII letter of an uppercase ASCII letter.
pub open spec fn lower(c: char) -> char {
    if 'A' <= c <= 'Z' {
        ((c as int) + 32) as char
    } else {
        c
    }
}

/// The bit layout of a move word.
proof fn lemma_word_bits(f: u16, t: u16, flag: u16)
    by (bit_vector)
    ensures
        f < 64 && t < 64 && flag < 16 ==> (f | (t << 6u16) | (flag << 12u16)) == f + 64 * t + 4096 * flag,
        f & 0x3f == f % 64,
        (f >> 6) & 0x3f == (f / 64) % 64,
        f >> 12 == f / 4096,
        f < 16 ==> ((f & 4 != 0) == ((f / 4) % 2 == 1)),
{
}

impl Move {
    pub open spec fn from_sq(self) -> int {
        self.0 as int % 64
    }

    pub open spec fn to_sq(self) -> int {
        (self.0 as int / 64) % 64
    }

    pub open spec fn flag_bits(self) -> int {
        self.0 as int / 4096
    }

    pub open spec fn captures(self) -> bool {
        (self.flag_bits() / 4) % 2 == 1
    }

    pub open spec fn promotes(self) -> bool {
        self.flag_bits() >= 8
    }

    /// Long algebraic / UCI text of the move.
    pub open spec fn uci(self) -> Seq<char> {
        let base = square_name(self.from_sq()) + square_name(self.to_sq());
        match promo_of_flag(self.flag_bits()) {
            Some(pt) => base.push(lower(pt.letter())),
            None => base,
        }
    }

    #[inline]
    pub fn new(from: Square, to: Square, flag: u16) -> (m: Move)
        ensures
            m.0 == move_word(from, to, flag),
            from < 64 && to < 64 && flag < 16 ==> m.0 == from + 64 * to + 4096 * flag,
            from < 64 && to < 64 && flag < 16 ==> m == mk_move(from as int, to as int, flag as int),
    {
        let m = Move((from as u16) | ((to as u16) << 6) | (flag << 12));
        proof {
            lemma_word_bits(from as u16, to as u16, flag);
        }
        m
    }

    #[inline]
    pub fn from(self) -> (r: Square)
        ensures
            r == self.from_sq(),
    {
        let w = self.0;
        proof {
            lemma_word_bits(w, 0, 0);
        }
        (w & 0x3f) as Square
    }

    #[inline]
    pub fn to(self) -> (r: Square)
        ensures
            r == self.to_sq(),
    {
        let w = self.0;
        proof {
            lemma_word_bits(w, 0, 0);
        }
        ((w >> 6) & 0x3f) as Square
    }

    #[inline]
    pub fn flag(self) -> (r: u16)
        ensures
            r == self.flag_bits(),
            r < 16,
    {
        let w = self.0;
        proof {
            lemma_word_bits(w, 0, 0);
        }
        w >> 12
    }

    #[inline]
    pub fn is_capture(self) -> (r: bool)
        ensures
            r == self.captures(),
    {
        // flags with bit 2 (value 4) set: 4,5,6,7,12,13,14,15
        let f = self.flag();
        proof {
            lemma_word_bits(f, 0, 0);
        }
        (f & 4) != 0
    }

    #[inline]
    pub fn is_promotion(self) -> (r: bool)
        ensures
            r == self.promotes(),
    {
        self.flag() >= FLAG_PROMO_N
    }

    #[inline]
    pub fn is_ep(self) -> (r: bool)
        ensures
            r == (self.flag_bits() == 5),
    {
        self.flag() == FLAG_EP_CAPTURE
    }

    #[inline]
    pub fn is_castle(self) -> (r: bool)
        ensures
            r == (self.flag_bits() == 2 || self.flag_bits() == 3),
    {
        let f = self.flag();
        f == FLAG_KING_CASTLE || f == FLAG_QUEEN_CASTLE
    }

    /// Promotion target piece type, if this is a promotion.
    pub fn promo_piece(self) -> (r: Option<PieceType>)
        ensures
            r == promo_of_flag(self.flag_bits()),
    {
        match self.flag() {
            8 | 12 => Some(PieceType::Knight),
            9 | 13 => Some(PieceType::Bishop),
            10 | 14 => Some(PieceType::Rook),
            11 | 15 => Some(PieceType::Queen),
            _ => None,
        }
    }

    /// The null move, encoded as the all-zero word.
    pub fn none() -> (m: Move)
        ensures
            m.0 == 0,
    {
        Move(0)
    }

    #[inline]
    pub fn is_none(self) -> (r: bool)
        ensures
            r == (self.0 == 0),
    {
        self.0 == 0
    }

    /// Long algebraic / UCI notation, e.g. "e2e4", "e7e8q".
    pub fn to_uci(self) -> (s: String)
        ensures
            s@ == self.uci(),
    {
        let a = square_to_string(self.from());
        let b = square_to_string(self.to());
        let mut s = String::new();
        push_char(&mut s, a.as_str().get_char(0));
        push_char(&mut s, a.as_str().get_char(1));
        push_char(&mut s, b.as_str().get_char(0));
        push_char(&mut s, b.as_str().get_char(1));
        if let Some(pt) = self.promo_piece() {
            let c = pt.to_char();
            let l = ((c as u8) + 32) as char;
            push_char(&mut s, l);
        }
        proof {
            assert(s@ =~= self.uci());
        }
        s
    }
}


/// The move with the given squares and flag.
pub open spec fn mk_move(from: int, to: int, flag: int) -> Move {
    Move((from + 64 * to + 4096 * flag) as u16)
}

/// Every move is the encoding of its own squares and flag.
pub proof fn lemma_move_decompose(m: Move)
    ensures
        0 <= m.from_sq() < 64,
        0 <= m.to_sq() < 64,
        0 <= m.flag_bits() < 16,
        m == mk_move(m.from_sq(), m.to_sq(), m.flag_bits()),
{
    let w = m.0 as int;
    assert(w == w % 64 + 64 * ((w / 64) % 64) + 4096 * (w / 4096));
}

/// The squares and flag of an encoded move are the ones it was built from.
pub proof fn lemma_mk_move_fields(from: int, to: int, flag: int)
    requires
        0 <= from < 64,
        0 <= to < 64,
        0 <= flag < 16,
    ensures
        mk_move(from, to, flag).from_sq() == from,
        mk_move(from, to, flag).to_sq() == to,
        mk_move(from, to, flag).flag_bits() == flag,
{
    let w = from + 64 * to + 4096 * flag;
    assert(w / 64 == to + 64 * flag);
}

/// A move's squares and flag are recovered exactly from its encoding.
pub proof fn lemma_move_roundtrip(from: u8, to: u8, flag: u16)
    requires
        from < 64,
        to < 64,
        flag < 16,
    ensures
        Move(move_word(from, to, flag)).from_sq() == from,
        Move(move_word(from, to, flag)).to_sq() == to,
        Move(move_word(from, to, flag)).flag_bits() == flag,
{
    let f = from as u16;
    let t = to as u16;
    lemma_word_bits(f, t, flag);
    let w = f + 64 * t + 4096 * flag;
    assert(w % 64 == f);
    assert(w / 64 == t + 64 * flag);
    assert((t + 64 * flag) % 64 == t);
    assert(w / 4096 == flag);
}

} // verus!
