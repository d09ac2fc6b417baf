//! FEN parsing and printing.
use crate::position::{board_xor, hash_spec, on_board_i, square_key, view_ok, BoardView, Position, CR_BK, CR_BQ, CR_WK, CR_WQ};
use crate::text::{
    chars_of, decimal, is_ws, lemma_decimal_digits, lemma_parse_decimal, lemma_tokens_append, lemma_tokens_word, parse_u16,
    parse_u16_spec, push_char, push_decimal, split_ws, tokens, ws_free,
};
use crate::types::{
    file_of, file_spec, lemma_square_name_roundtrip, lower, make_square, parse_square, rank_spec, square_from_chars, square_name, Color,
    PieceType,
};
use crate::zobrist::{castling_key, castling_key_spec, ep_key, side_key};
use vstd::prelude::*;

verus! {

/// Why a FEN string is refused.
pub enum FenError {
    FieldCount(usize),
    BadPiece(char),
    OutOfBounds,
    BadSide,
    BadCastling(char),
}

/// The message `from_fen` gives for each refusal.
pub open spec fn fen_message(e: FenError) -> Seq<char> {
    match e {
        FenError::FieldCount(n) => "FEN needs at least 4 fields, got "@ + decimal(n as nat),
        FenError::BadPiece(c) => "bad piece char '"@ + seq![c, '\''],
        FenError::OutOfBounds => "FEN piece placement out of bounds"@,
        FenError::BadSide => "bad side to move"@,
        FenError::BadCastling(c) => "bad castling char '"@ + seq![c, '\''],
    }
}

/// The piece type of a lowercase FEN letter.
pub open spec fn piece_of_letter(c: char) -> Option<PieceType> {
    if c == 'p' {
        Some(PieceType::Pawn)
    } else if c == 'n' {
        Some(PieceType::Knight)
    } else if c == 'b' {
        Some(PieceType::Bishop)
    } else if c == 'r' {
        Some(PieceType::Rook)
    } else if c == 'q' {
        Some(PieceType::Queen)
    } else if c == 'k' {
        Some(PieceType::King)
    } else {
        None
    }
}

/// Uppercase letters are White pieces, lowercase ones Black.
pub open spec fn color_of_letter(c: char) -> Color {
    if 'A' <= c <= 'Z' {
        Color::White
    } else {
        Color::Black
    }
}

/// Where piece placement stands after some characters.
pub struct PlaceState {
    pub rank: int,
    pub file: int,
    pub squares: Seq<Option<(Color, PieceType)>>,
    pub err: Option<FenError>,
}

pub open spec fn empty_squares() -> Seq<Option<(Color, PieceType)>> {
    Seq::new(64, |i: int| None::<(Color, PieceType)>)
}

/// One character of the placement field: '/' goes to the next rank down, a
/// digit 1-9 skips that many files, a piece letter puts a piece on the
/// current square and moves one file on.
pub open spec fn place_step(st: PlaceState, ch: char) -> PlaceState {
    if st.err is Some {
        st
    } else if ch == '/' {
        PlaceState { rank: st.rank - 1, file: 0, ..st }
    } else if '1' <= ch <= '9' {
        PlaceState { file: st.file + (ch as int - 48), ..st }
    } else {
        match piece_of_letter(lower(ch)) {
            None => PlaceState { err: Some(FenError::BadPiece(ch)), ..st },
            Some(pt) => if !(0 <= st.file < 8 && 0 <= st.rank < 8) {
                PlaceState { err: Some(FenError::OutOfBounds), ..st }
            } else {
                PlaceState {
                    squares: st.squares.update(st.rank * 8 + st.file, Some((color_of_letter(ch), pt))),
                    file: st.file + 1,
                    ..st
                }
            },
        }
    }
}

/// The placement field read from the eighth rank down.
pub open spec fn place(t: Seq<char>) -> PlaceState
    decreases t.len(),
{
    if t.len() == 0 {
        PlaceState { rank: 7, file: 0, squares: empty_squares(), err: None }
    } else {
        place_step(place(t.drop_last()), t.last())
    }
}

/// The castling field: each of K, Q, k, q adds its right; anything else is refused.
pub open spec fn castle_fold(t: Seq<char>) -> Result<u8, char>
    decreases t.len(),
{
    if t.len() == 0 {
        Ok(0)
    } else {
        match castle_fold(t.drop_last()) {
            Err(c) => Err(c),
            Ok(b) => {
                let c = t.last();
                if c == 'K' {
                    Ok(b | 1)
                } else if c == 'Q' {
                    Ok(b | 2)
                } else if c == 'k' {
                    Ok(b | 4)
                } else if c == 'q' {
                    Ok(b | 8)
                } else {
                    Err(c)
                }
            },
        }
    }
}

/// What a FEN string denotes: at least four whitespace-separated fields
/// (placement, side, castling, en passant) and optional halfmove and
/// fullmove counters, which default to 0 and 1 when absent or unreadable.
/// An en-passant field that is neither '-' nor a square name is read as no target.
pub open spec fn fen_spec(s: Seq<char>) -> Result<BoardView, FenError> {
    let p = tokens(s);
    if p.len() < 4 {
        Err(FenError::FieldCount(p.len() as usize))
    } else {
        let st = place(p[0]);
        if st.err is Some {
            Err(st.err->0)
        } else if p[1] != seq!['w'] && p[1] != seq!['b'] {
            Err(FenError::BadSide)
        } else {
            let side = if p[1] == seq!['w'] { Color::White } else { Color::Black };
            let cf = if p[2] == seq!['-'] { Ok(0u8) } else { castle_fold(p[2]) };
            match cf {
                Err(c) => Err(FenError::BadCastling(c)),
                Ok(castling) => {
                    let ep = if p[3] == seq!['-'] {
                        None
                    } else {
                        match parse_square(p[3]) {
                            Some(sq) => Some(sq as u8),
                            None => None,
                        }
                    };
                    let halfmove = if p.len() > 4 {
                        match parse_u16_spec(p[4]) {
                            Some(h) => h,
                            None => 0,
                        }
                    } else {
                        0
                    };
                    let fullmove = if p.len() > 5 {
                        match parse_u16_spec(p[5]) {
                            Some(f) => f,
                            None => 1,
                        }
                    } else {
                        1
                    };
                    Ok(BoardView { squares: st.squares, side, castling, ep, halfmove, fullmove })
                },
            }
        }
    }
}


proof fn lemma_board_xor_empty(n: nat)
    requires
        n <= 64,
    ensures
        board_xor(empty_squares(), n) == 0,
    decreases n,
{
    if n > 0 {
        lemma_board_xor_empty((n - 1) as nat);
        assert(square_key(empty_squares()[n - 1], n - 1) == 0);
        crate::bitboard::lemma_xor_basics(0, 0);
    }
}

proof fn lemma_place_err_persists(t: Seq<char>, k: int)
    requires
        0 <= k <= t.len(),
        place(t.take(k)).err is Some,
    ensures
        place(t).err == place(t.take(k)).err,
    decreases t.len() - k,
{
    if k < t.len() {
        assert(t.take(k + 1).drop_last() =~= t.take(k));
        lemma_place_err_persists(t, k + 1);
    } else {
        assert(t.take(k) =~= t);
    }
}

/// Read the piece placement field onto an empty board.
fn place_pieces(t: &Vec<char>) -> (r: Result<Position, String>)
    ensures
        match r {
            Ok(p) => {
                &&& p.boards_ok()
                &&& place(t@).err is None
                &&& p@.squares == place(t@).squares
                &&& p.hash == board_xor(p@.squares, 64)
                &&& p@.side == Color::White
                &&& p@.castling == 0
                &&& p@.ep is None
                &&& p@.halfmove == 0
                &&& p@.fullmove == 1
            },
            Err(e) => place(t@).err matches Some(er) && e@ == fen_message(er),
        },
{
    let mut pos = Position::empty();
    // Start the hash from the pieces alone; the other keys are added at the end.
    pos.hash = pos.hash ^ castling_key(0);
    proof {
        lemma_board_xor_empty(64);
        assert(pos@.squares == empty_squares());
        let ck = castling_key_spec(0);
        crate::position::lemma_xor_zero_left(ck);
        crate::bitboard::lemma_xor_basics(ck, 0);
        assert(pos.hash == 0);
    }
    let mut rank: i32 = 7;
    let mut file: i32 = 0;
    let mut i: usize = 0;
    while i < t.len()
        invariant
            i <= t@.len(),
            ({
                let st = place(t@.take(i as int));
                &&& st.err is None
                &&& pos@.squares == st.squares
                &&& st.rank <= 7
                &&& st.file >= 0
                &&& rank == (if st.rank < -1 { -1 } else { st.rank })
                &&& file == (if st.file > 16 { 16 } else { st.file })
                &&& forall|s: int| 0 <= s < 64 && (#[trigger] st.squares[s]) is Some ==> (rank_spec(s) > st.rank || (rank_spec(s)
                    == st.rank && file_spec(s) < st.file))
            }),
            pos.boards_ok(),
            pos.hash == board_xor(pos@.squares, 64),
            pos@.side == Color::White,
            pos@.castling == 0,
            pos@.ep is None,
            pos@.halfmove == 0,
            pos@.fullmove == 1,
            -1 <= rank <= 7,
            0 <= file <= 16,
        decreases t@.len() - i,
    {
        let ch = t[i];
        let ghost st = place(t@.take(i as int));
        proof {
            assert(t@.take(i + 1).drop_last() =~= t@.take(i as int));
            assert(t@.take(i + 1).last() == ch);
        }
        // Once off the board a counter stays off it: a rank below the
        // first is kept at -1 and a file past the last at 16.
        if ch == '/' {
            if rank > -1 {
                rank = rank - 1;
            }
            file = 0;
        } else if '1' <= ch && ch <= '9' {
            file = file + (ch as u32 - 48) as i32;
            if file > 16 {
                file = 16;
            }
        } else {
            let color = if 'A' <= ch && ch <= 'Z' { Color::White } else { Color::Black };
            let lc = if 'A' <= ch && ch <= 'Z' { ((ch as u8) + 32) as char } else { ch };
            let pt = match lc {
                'p' => PieceType::Pawn,
                'n' => PieceType::Knight,
                'b' => PieceType::Bishop,
                'r' => PieceType::Rook,
                'q' => PieceType::Queen,
                'k' => PieceType::King,
                _ => {
                    let mut e = String::from_str("bad piece char '");
                    push_char(&mut e, ch);
                    push_char(&mut e, '\'');
                    proof {
                        assert(lc == lower(ch));
                        lemma_place_err_persists(t@, i + 1);
                    }
                    return Err(e);
                },
            };
            if !on_board_i(file, rank) {
                let e = String::from_str("FEN piece placement out of bounds");
                proof {
                    lemma_place_err_persists(t@, i + 1);
                }
                return Err(e);
            }
            let sq = make_square(file as u8, rank as u8);
            proof {
                assert(lc == lower(ch));
                assert(sq == rank * 8 + file);
                if st.squares[sq as int] is Some {
                    assert(rank_spec(sq as int) == rank && file_spec(sq as int) == file);
                }
            }
            proof {
                crate::bitboard::lemma_xor_basics(pos.hash, pos.hash);
                assert(pos.hash_rest() == 0);
            }
            pos.put(color, pt, sq);
            proof {
                crate::bitboard::lemma_xor_basics(pos.hash, board_xor(pos@.squares, 64));
            }
            file = file + 1;
        }
        i = i + 1;
        proof {
            let st2 = place(t@.take(i as int));
            assert(st2 == place_step(st, ch));
        }
    }
    proof {
        assert(t@.take(t@.len() as int) =~= t@);
    }
    Ok(pos)
}


/// The token is exactly the one character `c`.
fn is_single(t: &Vec<char>, c: char) -> (r: bool)
    ensures
        r == (t@ == seq![c]),
{
    let r = t.len() == 1 && t[0] == c;
    proof {
        if t@.len() == 1 && t@[0] == c {
            assert(t@ =~= seq![c]);
        }
    }
    r
}

/// Read the castling field.
fn parse_castling(t: &Vec<char>) -> (r: Result<u8, char>)
    ensures
        r == castle_fold(t@),
        r matches Ok(b) ==> b < 16,
{
    let mut castling: u8 = 0;
    let mut i: usize = 0;
    while i < t.len()
        invariant
            i <= t@.len(),
            castle_fold(t@.take(i as int)) == Ok::<u8, char>(castling),
            castling < 16,
        decreases t@.len() - i,
    {
        let ch = t[i];
        proof {
            assert(t@.take(i + 1).drop_last() =~= t@.take(i as int));
            assert(t@.take(i + 1).last() == ch);
            let c = castling;
            assert(c < 16 ==> (c | 1) < 16 && (c | 2) < 16 && (c | 4) < 16 && (c | 8) < 16) by (bit_vector);
        }
        match ch {
            'K' => castling = castling | CR_WK,
            'Q' => castling = castling | CR_WQ,
            'k' => castling = castling | CR_BK,
            'q' => castling = castling | CR_BQ,
            _ => {
                proof {
                    lemma_castle_err_persists(t@, i + 1);
                }
                return Err(ch);
            },
        }
        i = i + 1;
    }
    proof {
        assert(t@.take(t@.len() as int) =~= t@);
    }
    Ok(castling)
}

proof fn lemma_castle_err_persists(t: Seq<char>, k: int)
    requires
        0 <= k <= t.len(),
        castle_fold(t.take(k)) is Err,
    ensures
        castle_fold(t) == castle_fold(t.take(k)),
    decreases t.len() - k,
{
    if k < t.len() {
        assert(t.take(k + 1).drop_last() =~= t.take(k));
        lemma_castle_err_persists(t, k + 1);
    } else {
        assert(t.take(k) =~= t);
    }
}

impl Position {
    /// Parse a position from Forsyth-Edwards Notation.
    pub fn from_fen(fen: &str) -> (r: Result<Position, String>)
        ensures
            match r {
                Ok(p) => p.wf() && fen_spec(fen@) == Ok::<BoardView, FenError>(p@),
                Err(e) => fen_spec(fen@) matches Err(er) && e@ == fen_message(er),
            },
    {
        let chars = chars_of(fen);
        let parts = split_ws(chars.as_slice());
        let ghost p = tokens(fen@);
        if parts.len() < 4 {
            let mut e = String::from_str("FEN needs at least 4 fields, got ");
            push_decimal(&mut e, parts.len() as u64);
            return Err(e);
        }
        proof {
            assert(parts@[0]@ == p[0]);
            assert(parts@[1]@ == p[1]);
            assert(parts@[2]@ == p[2]);
            assert(parts@[3]@ == p[3]);
        }

        // 1. Piece placement (rank 8 first).
        let mut pos = match place_pieces(&parts[0]) {
            Ok(q) => q,
            Err(e) => {
                return Err(e);
            },
        };

        // 2. Side to move.
        if is_single(&parts[1], 'w') {
            pos.side = Color::White;
        } else if is_single(&parts[1], 'b') {
            pos.side = Color::Black;
        } else {
            return Err(String::from_str("bad side to move"));
        }

        // 3. Castling rights.
        pos.castling = 0;
        if !is_single(&parts[2], '-') {
            match parse_castling(&parts[2]) {
                Ok(c) => {
                    pos.castling = c;
                },
                Err(ch) => {
                    let mut e = String::from_str("bad castling char '");
                    push_char(&mut e, ch);
                    push_char(&mut e, '\'');
                    return Err(e);
                },
            }
        }

        // 4. En passant target square.
        pos.ep = if is_single(&parts[3], '-') {
            None
        } else {
            square_from_chars(parts[3].as_slice())
        };

        // 5/6. Halfmove clock and fullmove number (optional).
        pos.halfmove = if parts.len() > 4 {
            proof {
                assert(parts@[4]@ == p[4]);
            }
            match parse_u16(parts[4].as_slice()) {
                Some(h) => h,
                None => 0,
            }
        } else {
            0
        };
        pos.fullmove = if parts.len() > 5 {
            proof {
                assert(parts@[5]@ == p[5]);
            }
            match parse_u16(parts[5].as_slice()) {
                Some(f) => f,
                None => 1,
            }
        } else {
            1
        };

        // Finalize hash: piece keys were added by put(); add state keys now.
        pos.hash = pos.hash ^ castling_key(pos.castling);
        if let Some(ep) = pos.ep {
            pos.hash = pos.hash ^ ep_key(file_of(ep));
        } else {
            proof {
                crate::bitboard::lemma_xor_basics(pos.hash, pos.hash);
            }
        }
        if pos.side == Color::Black {
            pos.hash = pos.hash ^ side_key();
        } else {
            proof {
                crate::bitboard::lemma_xor_basics(pos.hash, pos.hash);
            }
        }
        Ok(pos)
    }
}

/// The FEN letter of a piece: uppercase for White, lowercase for Black.
pub open spec fn piece_char(c: Color, pt: PieceType) -> char {
    if c == Color::White {
        pt.letter()
    } else {
        lower(pt.letter())
    }
}

/// A run of `n` empty squares as FEN writes it.
pub open spec fn run_text(n: nat) -> Seq<char> {
    if n > 0 {
        decimal(n)
    } else {
        Seq::empty()
    }
}

/// One rank of the placement field from `file` on, `empty` empty squares pending.
pub open spec fn rank_text(v: BoardView, rank: int, file: int, empty: nat) -> Seq<char>
    decreases 8 - file,
{
    if file >= 8 {
        run_text(empty)
    } else {
        match v.squares[rank * 8 + file] {
            Some((c, pt)) => run_text(empty) + seq![piece_char(c, pt)] + rank_text(v, rank, file + 1, 0),
            None => rank_text(v, rank, file + 1, empty + 1),
        }
    }
}

/// The placement field from `rank` down to the first rank.
pub open spec fn board_text(v: BoardView, rank: int) -> Seq<char>
    decreases rank,
{
    if rank <= 0 {
        rank_text(v, 0, 0, 0)
    } else {
        rank_text(v, rank, 0, 0) + seq!['/'] + board_text(v, rank - 1)
    }
}

pub open spec fn castle_text(c: u8) -> Seq<char> {
    if c == 0 {
        seq!['-']
    } else {
        (if c & 1 != 0 { seq!['K'] } else { Seq::empty() }) + (if c & 2 != 0 { seq!['Q'] } else { Seq::empty() }) + (if c
            & 4 != 0 { seq!['k'] } else { Seq::empty() }) + (if c & 8 != 0 { seq!['q'] } else { Seq::empty() })
    }
}

pub open spec fn ep_text(ep: Option<u8>) -> Seq<char> {
    match ep {
        Some(sq) => square_name(sq as int),
        None => seq!['-'],
    }
}

/// The FEN text of a position.
pub open spec fn fen_text(v: BoardView) -> Seq<char> {
    board_text(v, 7) + seq![' ', if v.side == Color::White { 'w' } else { 'b' }, ' '] + castle_text(v.castling) + seq![' ']
        + ep_text(v.ep) + seq![' '] + decimal(v.halfmove as nat) + seq![' '] + decimal(v.fullmove as nat)
}

impl Position {
    /// Append one rank of the placement field.
    fn push_rank(&self, s: &mut String, rank: u8)
        requires
            rank < 8,
        ensures
            final(s)@ == old(s)@ + rank_text(self@, rank as int, 0, 0),
    {
        let ghost v = self@;
        let ghost base = s@;
        let mut empty: u64 = 0;
        let mut file: u8 = 0;
        while file < 8
            invariant
                file <= 8,
                rank < 8,
                empty <= file,
                v == self@,
                s@ + rank_text(v, rank as int, file as int, empty as nat) == base + rank_text(v, rank as int, 0, 0),
            decreases 8 - file,
        {
            let sq = make_square(file, rank);
            let ghost before = s@;
            let ghost e0 = empty as nat;
            if let Some((c, pt)) = self.mailbox[sq as usize] {
                if empty > 0 {
                    push_decimal(s, empty);
                    empty = 0;
                }
                let ch = pt.to_char();
                let out = if c == Color::White { ch } else { ((ch as u8) + 32) as char };
                push_char(s, out);
                proof {
                    assert(out == piece_char(c, pt));
                    assert(s@ =~= before + run_text(e0) + seq![out]);
                    assert(rank_text(v, rank as int, file as int, e0) == run_text(e0) + seq![out] + rank_text(v, rank as int, file + 1, 0));
                    assert(s@ + rank_text(v, rank as int, file + 1, 0) =~= before + rank_text(v, rank as int, file as int, e0));
                }
            } else {
                empty = empty + 1;
            }
            file = file + 1;
        }
        let ghost mid = s@;
        if empty > 0 {
            push_decimal(s, empty);
        }
        proof {
            assert(s@ =~= mid + run_text(empty as nat));
        }
    }

    /// Append the placement field.
    fn push_board(&self, s: &mut String)
        ensures
            final(s)@ == old(s)@ + board_text(self@, 7),
    {
        let ghost v = self@;
        let ghost start = s@;
        let mut r: u8 = 8;
        while r > 0
            invariant
                r <= 8,
                v == self@,
                s@ + (if r == 0 { Seq::empty() } else { board_text(v, r - 1) }) == start + board_text(v, 7),
            decreases r,
        {
            let rank = r - 1;
            let ghost base = s@;
            self.push_rank(s, rank);
            if rank > 0 {
                push_char(s, '/');
            }
            proof {
                if rank > 0 {
                    assert(board_text(v, rank as int) == rank_text(v, rank as int, 0, 0) + seq!['/'] + board_text(v, rank - 1));
                    assert(s@ + board_text(v, rank - 1) =~= base + board_text(v, rank as int));
                } else {
                    assert(s@ =~= base + board_text(v, 0));
                }
            }
            r = r - 1;
        }
        proof {
            assert(s@ =~= s@ + Seq::<char>::empty());
        }
    }

    pub fn to_fen(&self) -> (s: String)
        ensures
            s@ == fen_text(self@),
    {
        let ghost v = self@;
        let mut s = String::new();
        self.push_board(&mut s);
        let ghost s1 = s@;
        push_char(&mut s, ' ');
        push_char(&mut s, if self.side == Color::White { 'w' } else { 'b' });
        push_char(&mut s, ' ');
        let ghost s2 = s@;
        push_castling(&mut s, self.castling);
        push_char(&mut s, ' ');
        push_ep(&mut s, self.ep);
        let ghost s4 = s@;
        push_char(&mut s, ' ');
        push_decimal(&mut s, self.halfmove as u64);
        push_char(&mut s, ' ');
        push_decimal(&mut s, self.fullmove as u64);
        proof {
            assert(s2 =~= s1 + seq![' ', if v.side == Color::White { 'w' } else { 'b' }, ' ']);
            assert(s4 =~= s2 + castle_text(v.castling) + seq![' '] + ep_text(v.ep));
            assert(s@ =~= s4 + seq![' '] + decimal(v.halfmove as nat) + seq![' '] + decimal(v.fullmove as nat));
            assert(s@ =~= fen_text(v));
        }
        s
    }
}

/// The piece a back rank holds on `file`: rook, knight, bishop, queen, king, bishop, knight, rook.
pub open spec fn back_rank_piece(file: int) -> PieceType {
    if file == 0 || file == 7 {
        PieceType::Rook
    } else if file == 1 || file == 6 {
        PieceType::Knight
    } else if file == 2 || file == 5 {
        PieceType::Bishop
    } else if file == 3 {
        PieceType::Queen
    } else {
        PieceType::King
    }
}

/// What the standard starting position holds on `s`.
pub open spec fn start_square(s: int) -> Option<(Color, PieceType)> {
    let r = rank_spec(s);
    let f = file_spec(s);
    if r == 0 {
        Some((Color::White, back_rank_piece(f)))
    } else if r == 1 {
        Some((Color::White, PieceType::Pawn))
    } else if r == 6 {
        Some((Color::Black, PieceType::Pawn))
    } else if r == 7 {
        Some((Color::Black, back_rank_piece(f)))
    } else {
        None
    }
}

/// The standard starting position, "rnbqkbnr/pppppppp/8/8/8/8/PPPPPPPP/RNBQKBNR w KQkq - 0 1":
/// White to move, all four castling rights, no en-passant target, counters 0 and 1.
pub open spec fn start_view() -> BoardView {
    BoardView {
        squares: Seq::new(64, |s: int| start_square(s)),
        side: Color::White,
        castling: 15,
        ep: None,
        halfmove: 0,
        fullmove: 1,
    }
}

fn back_rank_piece_exec(file: u8) -> (pt: PieceType)
    ensures
        pt == back_rank_piece(file as int),
{
    if file == 0 || file == 7 {
        PieceType::Rook
    } else if file == 1 || file == 6 {
        PieceType::Knight
    } else if file == 2 || file == 5 {
        PieceType::Bishop
    } else if file == 3 {
        PieceType::Queen
    } else {
        PieceType::King
    }
}

impl Position {
    /// The standard starting position.
    pub fn startpos() -> (p: Position)
        ensures
            p.wf(),
            p@ == start_view(),
    {
        let mut pos = Position::empty();
        // Start the hash from the pieces alone; the other keys are added at the end.
        pos.hash = pos.hash ^ castling_key(0);
        proof {
            lemma_board_xor_empty(64);
            assert(pos@.squares == empty_squares());
            let ck = castling_key_spec(0);
            crate::position::lemma_xor_zero_left(ck);
            crate::bitboard::lemma_xor_basics(ck, 0);
            assert(pos.hash == 0);
        }
        let mut sq: u8 = 0;
        while sq < 64
            invariant
                sq <= 64,
                pos.boards_ok(),
                pos.hash == board_xor(pos@.squares, 64),
                pos@.side == Color::White,
                pos@.castling == 0,
                pos@.ep is None,
                pos@.halfmove == 0,
                pos@.fullmove == 1,
                forall|s: int| 0 <= s < 64 ==> #[trigger] pos@.squares[s] == if s < sq { start_square(s) } else { None },
            decreases 64 - sq,
        {
            let r = crate::types::rank_of(sq);
            let f = file_of(sq);
            let piece: Option<(Color, PieceType)> = if r == 0 {
                Some((Color::White, back_rank_piece_exec(f)))
            } else if r == 1 {
                Some((Color::White, PieceType::Pawn))
            } else if r == 6 {
                Some((Color::Black, PieceType::Pawn))
            } else if r == 7 {
                Some((Color::Black, back_rank_piece_exec(f)))
            } else {
                None
            };
            if let Some((c, pt)) = piece {
                proof {
                    crate::bitboard::lemma_xor_basics(pos.hash, pos.hash);
                }
                pos.put(c, pt, sq);
                proof {
                    crate::bitboard::lemma_xor_basics(pos.hash, board_xor(pos@.squares, 64));
                }
            }
            sq = sq + 1;
        }
        pos.castling = CR_WK | CR_WQ | CR_BK | CR_BQ;
        assert(CR_WK | CR_WQ | CR_BK | CR_BQ == 15u8) by (bit_vector);
        pos.hash = pos.hash ^ castling_key(pos.castling);
        proof {
            crate::bitboard::lemma_xor_basics(pos.hash, pos.hash);
            assert(pos@.squares =~= start_view().squares);
        }
        pos
    }
}

fn push_castling(s: &mut String, c: u8)
    ensures
        final(s)@ == old(s)@ + castle_text(c),
{
    if c == 0 {
        push_char(s, '-');
    } else {
        let ghost c0 = s@;
        if c & CR_WK != 0 {
            push_char(s, 'K');
        }
        let ghost c1 = s@;
        if c & CR_WQ != 0 {
            push_char(s, 'Q');
        }
        let ghost c2 = s@;
        if c & CR_BK != 0 {
            push_char(s, 'k');
        }
        let ghost c3 = s@;
        if c & CR_BQ != 0 {
            push_char(s, 'q');
        }
        proof {
            assert(c1 =~= c0 + (if c & 1 != 0 { seq!['K'] } else { Seq::empty() }));
            assert(c2 =~= c1 + (if c & 2 != 0 { seq!['Q'] } else { Seq::empty() }));
            assert(c3 =~= c2 + (if c & 4 != 0 { seq!['k'] } else { Seq::empty() }));
            assert(s@ =~= c3 + (if c & 8 != 0 { seq!['q'] } else { Seq::empty() }));
            assert(s@ =~= c0 + castle_text(c));
        }
    }
}

fn push_ep(s: &mut String, ep: Option<u8>)
    ensures
        final(s)@ == old(s)@ + ep_text(ep),
{
    let ghost s0 = s@;
    match ep {
        Some(sq) => {
            let name = crate::types::square_to_string(sq);
            push_char(s, name.as_str().get_char(0));
            push_char(s, name.as_str().get_char(1));
        },
        None => push_char(s, '-'),
    }
    proof {
        assert(s@ =~= s0 + ep_text(ep));
    }
}

/// Reading placement characters `t` on from the state `st`.
pub open spec fn place_from(st: PlaceState, t: Seq<char>) -> PlaceState
    decreases t.len(),
{
    if t.len() == 0 {
        st
    } else {
        place_step(place_from(st, t.drop_last()), t.last())
    }
}

/// The state placement reading starts from.
pub open spec fn place_start() -> PlaceState {
    PlaceState { rank: 7, file: 0, squares: empty_squares(), err: None }
}

proof fn lemma_place_from_start(t: Seq<char>)
    ensures
        place(t) == place_from(place_start(), t),
    decreases t.len(),
{
    if t.len() > 0 {
        lemma_place_from_start(t.drop_last());
    }
}

proof fn lemma_place_from_concat(st: PlaceState, a: Seq<char>, b: Seq<char>)
    ensures
        place_from(st, a + b) == place_from(place_from(st, a), b),
    decreases b.len(),
{
    if b.len() == 0 {
        assert(a + b =~= a);
    } else {
        lemma_place_from_concat(st, a, b.drop_last());
        assert((a + b).drop_last() =~= a + b.drop_last());
        assert((a + b).last() == b.last());
    }
}

/// The squares of `v` the reader has passed at (`rank`, `file`): the ranks
/// above and the files to the left on this rank; the others still empty.
pub open spec fn read_squares(v: BoardView, rank: int, file: int) -> Seq<Option<(Color, PieceType)>> {
    Seq::new(64, |s: int| if s / 8 > rank || (s / 8 == rank && s % 8 < file) { v.squares[s] } else { None })
}

proof fn lemma_place_one(st: PlaceState, c: char)
    ensures
        place_from(st, seq![c]) == place_step(st, c),
{
    assert(seq![c].drop_last() =~= Seq::<char>::empty());
    assert(place_from(st, Seq::<char>::empty()) == st);
    assert(seq![c].last() == c);
}

/// Reading the rest of a rank from file `f`, with `e` empty squares not
/// yet written, ends at the rank's end with its pieces placed.
proof fn lemma_rank_place(v: BoardView, r: int, f: int, e: int, st: PlaceState)
    requires
        view_ok(v),
        0 <= r < 8,
        0 <= e <= f <= 8,
        st.err is None,
        st.rank == r,
        st.file == f - e,
        st.squares == read_squares(v, r, f),
        forall|g: int| f - e <= g < f ==> #[trigger] v.squares[r * 8 + g] is None,
    ensures
        place_from(st, rank_text(v, r, f, e as nat)) == (PlaceState { rank: r, file: 8, squares: read_squares(v, r, 8), err: None }),
    decreases 8 - f,
{
    if f >= 8 {
        if e > 0 {
            assert(decimal(e as nat) == seq![(48 + e) as char]);
            lemma_place_one(st, (48 + e) as char);
            assert(((48 + e) as char) as int == 48 + e);
        } else {
            assert(rank_text(v, r, f, e as nat) =~= Seq::<char>::empty());
        }
        assert(read_squares(v, r, f) =~= read_squares(v, r, 8));
    } else {
        let sq = r * 8 + f;
        assert(sq / 8 == r && sq % 8 == f);
        match v.squares[sq] {
            Some((c, pt)) => {
                let run = run_text(e as nat);
                let pc = piece_char(c, pt);
                let tail = rank_text(v, r, f + 1, 0);
                assert(rank_text(v, r, f, e as nat) == run + seq![pc] + tail);
                // The pending empty squares.
                let st1 = PlaceState { file: f, ..st };
                if e > 0 {
                    assert(decimal(e as nat) == seq![(48 + e) as char]);
                    lemma_place_one(st, (48 + e) as char);
                    assert(((48 + e) as char) as int == 48 + e);
                    assert(place_from(st, run) == st1);
                } else {
                    assert(run =~= Seq::<char>::empty());
                    assert(place_from(st, run) == st1);
                }
                // The piece.
                assert(lower(pc) == lower(pt.letter()));
                assert(piece_of_letter(lower(pc)) == Some(pt)) by {
                    match pt {
                        PieceType::Pawn => {},
                        PieceType::Knight => {},
                        PieceType::Bishop => {},
                        PieceType::Rook => {},
                        PieceType::Queen => {},
                        PieceType::King => {},
                    }
                }
                assert(color_of_letter(pc) == c) by {
                    match pt {
                        PieceType::Pawn => {},
                        PieceType::Knight => {},
                        PieceType::Bishop => {},
                        PieceType::Rook => {},
                        PieceType::Queen => {},
                        PieceType::King => {},
                    }
                }
                assert(pc != '/' && !('1' <= pc <= '9')) by {
                    match pt {
                        PieceType::Pawn => {},
                        PieceType::Knight => {},
                        PieceType::Bishop => {},
                        PieceType::Rook => {},
                        PieceType::Queen => {},
                        PieceType::King => {},
                    }
                }
                lemma_place_one(st1, pc);
                let st2 = PlaceState { squares: st.squares.update(sq, Some((c, pt))), file: f + 1, ..st1 };
                assert(place_step(st1, pc) == st2);
                assert(st2.squares =~= read_squares(v, r, f + 1));
                lemma_place_from_concat(st, run, seq![pc]);
                lemma_place_from_concat(st, run + seq![pc], tail);
                lemma_rank_place(v, r, f + 1, 0, st2);
            },
            None => {
                assert(read_squares(v, r, f) =~= read_squares(v, r, f + 1));
                lemma_rank_place(v, r, f + 1, e + 1, st);
            },
        }
    }
}

/// Reading the placement field from rank `r` down places every piece of `v`.
proof fn lemma_board_place(v: BoardView, r: int)
    requires
        view_ok(v),
        0 <= r < 8,
    ensures
        place_from(PlaceState { rank: r, file: 0, squares: read_squares(v, r, 0), err: None }, board_text(v, r)) == (PlaceState {
            rank: 0,
            file: 8,
            squares: read_squares(v, 0, 8),
            err: None,
        }),
    decreases r,
{
    let st = PlaceState { rank: r, file: 0, squares: read_squares(v, r, 0), err: None };
    lemma_rank_place(v, r, 0, 0, st);
    if r > 0 {
        let rt = rank_text(v, r, 0, 0);
        let after = PlaceState { rank: r, file: 8, squares: read_squares(v, r, 8), err: None };
        lemma_place_one(after, '/');
        let next = PlaceState { rank: r - 1, file: 0, squares: read_squares(v, r - 1, 0), err: None };
        assert(read_squares(v, r, 8) =~= read_squares(v, r - 1, 0));
        assert(place_step(after, '/') == next);
        lemma_place_from_concat(st, rt, seq!['/']);
        lemma_place_from_concat(st, rt + seq!['/'], board_text(v, r - 1));
        lemma_board_place(v, r - 1);
    }
}

/// A rank's text is non-empty, has no whitespace, and takes at most one
/// character per square.
proof fn lemma_rank_text_shape(v: BoardView, r: int, f: int, e: int)
    requires
        0 <= e <= f <= 8,
    ensures
        ws_free(rank_text(v, r, f, e as nat)),
        rank_text(v, r, f, e as nat).len() <= 8 - f + e,
        (f < 8 || e > 0) ==> rank_text(v, r, f, e as nat).len() > 0,
    decreases 8 - f,
{
    let t = rank_text(v, r, f, e as nat);
    if f >= 8 {
        if e > 0 {
            assert(decimal(e as nat) == seq![(48 + e) as char]);
            assert(!is_ws(((48 + e) as char)));
        }
    } else {
        match v.squares[r * 8 + f] {
            Some((c, pt)) => {
                lemma_rank_text_shape(v, r, f + 1, 0);
                let run = run_text(e as nat);
                let pc = piece_char(c, pt);
                let tail = rank_text(v, r, f + 1, 0);
                if e > 0 {
                    assert(decimal(e as nat) == seq![(48 + e) as char]);
                    assert(!is_ws(((48 + e) as char)));
                }
                assert(ws_free(run));
                assert(!is_ws(pc)) by {
                    match pt {
                        PieceType::Pawn => {},
                        PieceType::Knight => {},
                        PieceType::Bishop => {},
                        PieceType::Rook => {},
                        PieceType::Queen => {},
                        PieceType::King => {},
                    }
                }
                assert forall|i: int| 0 <= i < t.len() implies !is_ws(#[trigger] t[i]) by {
                    if i < run.len() {
                        assert(t[i] == run[i]);
                    } else if i == run.len() {
                        assert(t[i] == pc);
                    } else {
                        assert(t[i] == tail[i - run.len() - 1]);
                    }
                }
            },
            None => {
                lemma_rank_text_shape(v, r, f + 1, e + 1);
            },
        }
    }
}

/// The placement field is non-empty, has no whitespace, and is at most
/// nine characters per rank.
proof fn lemma_board_text_shape(v: BoardView, r: int)
    requires
        0 <= r < 8,
    ensures
        ws_free(board_text(v, r)),
        0 < board_text(v, r).len() <= 9 * (r + 1),
    decreases r,
{
    lemma_rank_text_shape(v, r, 0, 0);
    if r > 0 {
        lemma_board_text_shape(v, r - 1);
        let a = rank_text(v, r, 0, 0);
        let b = board_text(v, r - 1);
        let t = board_text(v, r);
        assert(t == a + seq!['/'] + b);
        assert forall|i: int| 0 <= i < t.len() implies !is_ws(#[trigger] t[i]) by {
            if i < a.len() {
                assert(t[i] == a[i]);
            } else if i == a.len() {
                assert(t[i] == '/');
            } else {
                assert(t[i] == b[i - a.len() - 1]);
            }
        }
    }
}

/// The castling bits in the order the castling field lists them.
proof fn lemma_castle_bits(c: u8)
    by (bit_vector)
    requires
        c < 16,
    ensures
        ({
            let x1: u8 = if c & 1 != 0 { 0u8 | 1u8 } else { 0u8 };
            let x2: u8 = if c & 2 != 0 { x1 | 2u8 } else { x1 };
            let x3: u8 = if c & 4 != 0 { x2 | 4u8 } else { x2 };
            let x4: u8 = if c & 8 != 0 { x3 | 8u8 } else { x3 };
            x4 == c
        }),
{
}

/// One optional castling letter more adds its right.
proof fn lemma_castle_opt(t: Seq<char>, x: u8, present: bool, ch: char, b: u8)
    requires
        castle_fold(t) == Ok::<u8, char>(x),
        (ch == 'K' && b == 1) || (ch == 'Q' && b == 2) || (ch == 'k' && b == 4) || (ch == 'q' && b == 8),
    ensures
        castle_fold(t + (if present { seq![ch] } else { Seq::empty() })) == Ok::<u8, char>(if present { x | b } else { x }),
{
    if present {
        let u = t + seq![ch];
        assert(u.drop_last() =~= t);
        assert(u.last() == ch);
    } else {
        assert(t + Seq::<char>::empty() =~= t);
    }
}

/// The castling field reads back as the rights it was written from.
proof fn lemma_castle_roundtrip(c: u8)
    requires
        c < 16,
    ensures
        castle_text(c) != seq!['-'] ==> castle_fold(castle_text(c)) == Ok::<u8, char>(c),
        castle_text(c) == seq!['-'] <==> c == 0,
        0 < castle_text(c).len() <= 4,
        ws_free(castle_text(c)),
{
    lemma_castle_bits(c);
    if c != 0 {
        let k1: Seq<char> = if c & 1 != 0 { seq!['K'] } else { Seq::empty() };
        let k2: Seq<char> = if c & 2 != 0 { seq!['Q'] } else { Seq::empty() };
        let k3: Seq<char> = if c & 4 != 0 { seq!['k'] } else { Seq::empty() };
        let k4: Seq<char> = if c & 8 != 0 { seq!['q'] } else { Seq::empty() };
        let e = Seq::<char>::empty();
        assert(castle_fold(e) == Ok::<u8, char>(0u8));
        lemma_castle_opt(e, 0, c & 1 != 0, 'K', 1);
        let x1: u8 = if c & 1 != 0 { 0u8 | 1u8 } else { 0u8 };
        assert(e + k1 =~= k1);
        lemma_castle_opt(k1, x1, c & 2 != 0, 'Q', 2);
        let x2: u8 = if c & 2 != 0 { x1 | 2u8 } else { x1 };
        lemma_castle_opt(k1 + k2, x2, c & 4 != 0, 'k', 4);
        let x3: u8 = if c & 4 != 0 { x2 | 4u8 } else { x2 };
        lemma_castle_opt(k1 + k2 + k3, x3, c & 8 != 0, 'q', 8);
        let t = castle_text(c);
        assert(t == k1 + k2 + k3 + k4);
        assert(t.len() > 0);
        assert(t[0] != '-');
        assert forall|i: int| 0 <= i < t.len() implies !is_ws(#[trigger] t[i]) by {
            assert(t[i] == 'K' || t[i] == 'Q' || t[i] == 'k' || t[i] == 'q');
        }
    } else {
        assert(ws_free(castle_text(c))) by {
            assert(castle_text(c)[0] == '-');
        }
    }
}

/// Writing a position in FEN and reading it back gives the same position.
pub proof fn lemma_fen_roundtrip(v: BoardView)
    requires
        view_ok(v),
    ensures
        fen_spec(fen_text(v)) == Ok::<BoardView, FenError>(v),
{
    let b = board_text(v, 7);
    let sd: Seq<char> = seq![if v.side == Color::White { 'w' } else { 'b' }];
    let c = castle_text(v.castling);
    let e = ep_text(v.ep);
    let h = decimal(v.halfmove as nat);
    let f = decimal(v.fullmove as nat);
    lemma_board_text_shape(v, 7);
    lemma_castle_roundtrip(v.castling);
    lemma_decimal_digits(v.halfmove as nat);
    lemma_decimal_digits(v.fullmove as nat);
    lemma_parse_decimal(v.halfmove);
    lemma_parse_decimal(v.fullmove);
    assert(ws_free(sd));
    assert(ws_free(e) && 0 < e.len() <= 2) by {
        match v.ep {
            Some(sq) => {
                assert(e[0] as int == 97 + file_spec(sq as int));
                assert(e[1] as int == 49 + rank_spec(sq as int));
            },
            None => {},
        }
    }
    // The six fields, one space apart.
    let s1 = b;
    let s2 = s1 + seq![' '] + sd;
    let s3 = s2 + seq![' '] + c;
    let s4 = s3 + seq![' '] + e;
    let s5 = s4 + seq![' '] + h;
    let s6 = s5 + seq![' '] + f;
    assert(fen_text(v) =~= s6);
    lemma_tokens_word(b);
    lemma_tokens_append(s1, sd);
    lemma_tokens_append(s2, c);
    lemma_tokens_append(s3, e);
    lemma_tokens_append(s4, h);
    lemma_tokens_append(s5, f);
    let p = tokens(fen_text(v));
    assert(p =~= seq![b, sd, c, e, h, f]);
    // The placement field.
    lemma_place_from_start(b);
    assert(read_squares(v, 7, 0) =~= empty_squares());
    lemma_board_place(v, 7);
    assert(read_squares(v, 0, 8) =~= v.squares);
    // The en-passant field.
    match v.ep {
        Some(sq) => {
            lemma_square_name_roundtrip(sq as int);
            assert(e[0] != '-');
        },
        None => {},
    }
}

/// A FEN in the form `to_fen` writes is read without error and written
/// back unchanged.
pub proof fn lemma_canonical_fen_prints_back(s: Seq<char>, v: BoardView)
    requires
        view_ok(v),
        s == fen_text(v),
    ensures
        fen_spec(s) is Ok,
        fen_text(fen_spec(s)->Ok_0) == s,
{
    lemma_fen_roundtrip(v);
}

} // verus!
