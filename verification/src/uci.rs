//! The decisions behind the Universal Chess Interface (UCI) commands:
//! reading `setoption`, `position` and `go` from their tokens, keeping the
//! game and its history, and running the search. Reading lines and
//! printing replies is left to the caller.
use crate::fen::{fen_message, fen_spec, fen_text, start_view, FenError};
use crate::movegen::{gen_ready, gen_ready_check, generate_legal, legal_move};
use crate::position::{hash_spec, make_view, BoardView, Position};
use crate::eval::MATE_VALUE;
use crate::search::{
    depth_target, has_legal, legal_line, root_listed, search_ready, search_ready_check, Search, SearchLimits, SearchResult, MAX_PLY,
};
use crate::text::{chars_of, decimal, lemma_decimal_digits, parse_uint, parse_uint_spec, push_text};
use crate::types::{
    file_spec, lemma_move_decompose, lemma_square_name_roundtrip, lower, parse_square, promo_of_flag, rank_spec, square_from_chars,
    square_name, Color, Move, PieceType,
};
use vstd::prelude::*;

verus! {

pub struct Engine {
    pos: Position,
    /// Hashes of positions played before the current one (for repetition).
    history: Vec<u64>,
    search: Search,
    tt_mb: usize,
}

/// A root search of `v` from a state whose repetition set is `history`,
/// restricted to moves matching the `searchmoves` texts `listed` (none when
/// empty), `depth` plies deep, gives `score`, with `bm` a move that scored it.
pub open spec fn go_reply(v: BoardView, history: Seq<u64>, listed: Seq<Seq<char>>, depth: int, score: int, bm: Move) -> bool {
    exists|st: Search| #[trigger] st.root_result(v, history, st.root_list(), depth, score, bm) && st.root_list().len() == listed.len()
        && forall|k: int| 0 <= k < listed.len() ==> #[trigger] move_matches(st.root_list()[k], listed[k])
}

/// The characters of each token.
pub open spec fn words(tokens: Seq<String>) -> Seq<Seq<char>> {
    Seq::new(tokens.len(), |i: int| tokens[i]@)
}

/// `t` spells `w`.
fn text_is(t: &String, w: &str) -> (r: bool)
    ensures
        r == (t@ == w@),
{
    let a = chars_of(t.as_str());
    let b = chars_of(w);
    if a.len() != b.len() {
        return false;
    }
    let mut i: usize = 0;
    while i < a.len()
        invariant
            a@ == t@,
            b@ == w@,
            a@.len() == b@.len(),
            i <= a@.len(),
            forall|k: int| 0 <= k < i ==> a@[k] == b@[k],
        decreases a@.len() - i,
    {
        if a[i] != b[i] {
            return false;
        }
        i = i + 1;
    }
    proof {
        assert(a@ =~= b@);
    }
    true
}

/// The table size that `setoption name Hash value N` asks for, if the
/// tokens are that command with a number that fits in `usize`.
pub open spec fn hash_option(toks: Seq<Seq<char>>) -> Option<nat> {
    if toks.len() >= 5 && toks[1] == "name"@ && toks[2] == "Hash"@ && toks[3] == "value"@ {
        parse_uint_spec(toks[4], usize::MAX as nat)
    } else {
        None
    }
}

/// `setoption name Hash value N`, five tokens or more, asks for a table of
/// `N` megabytes, for every `N` that `usize` holds; a command for another
/// option, or one without `name` and `value` in their places, asks for none.
pub proof fn lemma_hash_option(toks: Seq<Seq<char>>, n: nat)
    requires
        toks.len() >= 5,
        toks[4] == decimal(n),
        n <= usize::MAX,
    ensures
        (toks[1] == "name"@ && toks[2] == "Hash"@ && toks[3] == "value"@) ==> hash_option(toks) == Some(n),
        !(toks[1] == "name"@ && toks[2] == "Hash"@ && toks[3] == "value"@) ==> hash_option(toks) is None,
{
    lemma_decimal_digits(n);
    assert(parse_uint_spec(decimal(n), usize::MAX as nat) == Some(n));
}

/// A table size whose byte count `Search::new` can compute.
pub open spec fn table_size_ok(mb: nat) -> bool {
    mb * 0x10_0000 <= usize::MAX / 2
}

/// A token `parse_move` can read: at least four characters, the first four ASCII.
pub open spec fn move_shape(t: Seq<char>) -> bool {
    &&& t.len() >= 4
    &&& t[0] <= '\u{7f}'
    &&& t[1] <= '\u{7f}'
    &&& t[2] <= '\u{7f}'
    &&& t[3] <= '\u{7f}'
}

/// The promotion letter a move token carries, lowercased.
pub open spec fn promo_char(t: Seq<char>) -> Option<char> {
    if t.len() > 4 {
        Some(lower(t[4]))
    } else {
        None
    }
}

/// `m` is the move the UCI token `t` names: its squares, and its promotion
/// piece when the token has a fifth character.
pub open spec fn move_matches(m: Move, t: Seq<char>) -> bool {
    &&& parse_square(t.subrange(0, 2)) == Some(m.from_sq())
    &&& parse_square(t.subrange(2, 4)) == Some(m.to_sq())
    &&& match (promo_char(t), promo_of_flag(m.flag_bits())) {
        (None, None) => true,
        (Some(c), Some(pt)) => lower(pt.letter()) == c,
        _ => false,
    }
}

/// The token `t` names a legal move of `v`, and moves can be generated there.
pub open spec fn playable(v: BoardView, t: Seq<char>) -> bool {
    move_shape(t) && gen_ready(v) && exists|m: Move| legal_move(v, m) && #[trigger] move_matches(m, t)
}

/// The UCI text of any move on the board is a token that names that move,
/// so `parse_move` reads back every legal move `to_uci` writes.
pub proof fn lemma_uci_roundtrip(m: Move)
    ensures
        move_shape(m.uci()),
        move_matches(m, m.uci()),
{
    let u = m.uci();
    let a = square_name(m.from_sq());
    let b = square_name(m.to_sq());
    lemma_move_decompose(m);
    lemma_square_name_roundtrip(m.from_sq());
    lemma_square_name_roundtrip(m.to_sq());
    assert(u.subrange(0, 2) =~= a);
    assert(u.subrange(2, 4) =~= b);
    assert(a[0] as int == 97 + file_spec(m.from_sq()));
    assert(a[1] as int == 49 + rank_spec(m.from_sq()));
    assert(b[0] as int == 97 + file_spec(m.to_sq()));
    assert(b[1] as int == 49 + rank_spec(m.to_sq()));
    match promo_of_flag(m.flag_bits()) {
        Some(pt) => {
            assert(u[4] == lower(pt.letter()));
            assert(lower(lower(pt.letter())) == lower(pt.letter())) by {
                match pt {
                    PieceType::Pawn => {},
                    PieceType::Knight => {},
                    PieceType::Bishop => {},
                    PieceType::Rook => {},
                    PieceType::Queen => {},
                    PieceType::King => {},
                }
            }
        },
        None => {},
    }
}

/// `move_shape` of `t`.
fn move_shape_check(t: &Vec<char>) -> (r: bool)
    ensures
        r == move_shape(t@),
{
    t.len() >= 4 && t[0] <= '\u{7f}' && t[1] <= '\u{7f}' && t[2] <= '\u{7f}' && t[3] <= '\u{7f}'
}

/// The lowercase of an ASCII letter, any other character unchanged.
fn to_lower(c: char) -> (r: char)
    ensures
        r == lower(c),
{
    if 'A' <= c && c <= 'Z' {
        ((c as u8) + 32) as char
    } else {
        c
    }
}

/// What `position` reports besides doing its work.
pub enum PositionReply {
    /// The position was set and every listed move played.
    Done,
    /// The FEN was refused, with the reason.
    BadFen(String),
    /// This move token could not be played; the moves before it were.
    IllegalMove(String),
}

/// The position `l` leads to from `v`.
pub open spec fn play_line(v: BoardView, l: Seq<Move>) -> BoardView
    decreases l.len(),
{
    if l.len() == 0 {
        v
    } else {
        make_view(play_line(v, l.drop_last()), l.last())
    }
}

/// The hashes of the positions `l` passes through from `v`, before each of its moves.
pub open spec fn line_hashes(v: BoardView, l: Seq<Move>) -> Seq<u64> {
    Seq::new(l.len(), |k: int| hash_spec(play_line(v, l.take(k))))
}

/// `m` is what token `t` names in `w`, where moves can be generated.
pub open spec fn step_ok(w: BoardView, m: Move, t: Seq<char>) -> bool {
    &&& move_shape(t)
    &&& gen_ready(w)
    &&& legal_move(w, m)
    &&& move_matches(m, t)
}

/// Playing `l` from `base` follows the first `l.len()` tokens of `rest`,
/// and leads to `v` with `hashes` as the game history.
pub open spec fn moves_applied(base: BoardView, rest: Seq<Seq<char>>, l: Seq<Move>, v: BoardView, hashes: Seq<u64>) -> bool {
    &&& l.len() <= rest.len()
    &&& forall|k: int| 0 <= k < l.len() ==> #[trigger] step_ok(play_line(base, l.take(k)), l[k], rest[k])
    &&& v == play_line(base, l)
    &&& hashes == line_hashes(base, l)
}

/// The index of the first "moves" token at or after `j` (the length without one).
pub open spec fn moves_index(toks: Seq<Seq<char>>, j: int) -> int
    decreases toks.len() - j,
{
    if j >= toks.len() || j < 0 || toks[j] == "moves"@ {
        j
    } else {
        moves_index(toks, j + 1)
    }
}

/// The words joined by single spaces.
pub open spec fn join_words(ws: Seq<Seq<char>>) -> Seq<char>
    decreases ws.len(),
{
    if ws.len() == 0 {
        Seq::empty()
    } else if ws.len() == 1 {
        ws[0]
    } else {
        join_words(ws.drop_last()) + " "@ + ws.last()
    }
}

/// The FEN text of `position fen ...`: the tokens after "fen" up to "moves".
pub open spec fn fen_arg(toks: Seq<Seq<char>>) -> Seq<char> {
    join_words(toks.subrange(2, moves_index(toks, 2)))
}

/// Where `position` starts from, and the index of the token after the
/// position part; `None` when the FEN is refused or too long.
pub open spec fn position_base(v: BoardView, toks: Seq<Seq<char>>) -> Option<(BoardView, int)> {
    if toks[1] == "startpos"@ {
        Some((start_view(), 2))
    } else if toks[1] == "fen"@ {
        match fen_spec(fen_arg(toks)) {
            Ok(w) => Some((w, moves_index(toks, 2))),
            Err(_) => None,
        }
    } else {
        Some((v, 1))
    }
}

/// The numbers a `go` command gives.
#[derive(Clone, Copy)]
pub struct GoOptions {
    pub depth: Option<u32>,
    pub movetime: Option<u64>,
    pub nodes: Option<u64>,
    pub wtime: Option<u64>,
    pub btime: Option<u64>,
    pub winc: Option<u64>,
    pub binc: Option<u64>,
    pub movestogo: Option<u64>,
}

/// The number in the token after index `i`, if there is one that `u64` holds.
pub open spec fn read_num(toks: Seq<Seq<char>>, i: int) -> Option<u64> {
    if 0 <= i + 1 < toks.len() {
        match parse_uint_spec(toks[i + 1], u64::MAX as nat) {
            Some(n) => Some(n as u64),
            None => None,
        }
    } else {
        None
    }
}

/// The index after the run of move tokens that starts at `i`.
pub open spec fn move_run(v: BoardView, toks: Seq<Seq<char>>, i: int) -> int
    decreases toks.len() - i,
{
    if 0 <= i < toks.len() && playable(v, toks[i]) {
        move_run(v, toks, i + 1)
    } else {
        i
    }
}

/// A run of move tokens ends after its start, and each token in it is playable.
pub proof fn lemma_move_run(v: BoardView, toks: Seq<Seq<char>>, i: int)
    ensures
        i <= move_run(v, toks, i),
        0 <= i ==> move_run(v, toks, i) <= toks.len() || move_run(v, toks, i) == i,
        forall|k: int| i <= k < move_run(v, toks, i) ==> playable(v, #[trigger] toks[k]),
    decreases toks.len() - i,
{
    if 0 <= i < toks.len() && playable(v, toks[i]) {
        lemma_move_run(v, toks, i + 1);
    }
}

/// Reading the `go` tokens from index `i` on, starting from the options `o`
/// and the move tokens `acc` already taken for `searchmoves`: each option
/// takes the number after it (`depth` truncated to 32 bits), `infinite`
/// sets depth 64, `searchmoves` takes the run of move tokens after it, and
/// any other token is skipped.
pub open spec fn go_scan(v: BoardView, toks: Seq<Seq<char>>, i: int, o: GoOptions, acc: Seq<Seq<char>>) -> (GoOptions, Seq<Seq<char>>)
    decreases toks.len() + 2 - i,
{
    if i < 0 || i >= toks.len() {
        (o, acc)
    } else {
        let t = toks[i];
        if t == "depth"@ {
            let d = match read_num(toks, i) {
                Some(n) => Some(#[verifier::truncate] (n as u32)),
                None => None,
            };
            go_scan(v, toks, i + 2, GoOptions { depth: d, ..o }, acc)
        } else if t == "movetime"@ {
            go_scan(v, toks, i + 2, GoOptions { movetime: read_num(toks, i), ..o }, acc)
        } else if t == "nodes"@ {
            go_scan(v, toks, i + 2, GoOptions { nodes: read_num(toks, i), ..o }, acc)
        } else if t == "wtime"@ {
            go_scan(v, toks, i + 2, GoOptions { wtime: read_num(toks, i), ..o }, acc)
        } else if t == "btime"@ {
            go_scan(v, toks, i + 2, GoOptions { btime: read_num(toks, i), ..o }, acc)
        } else if t == "winc"@ {
            go_scan(v, toks, i + 2, GoOptions { winc: read_num(toks, i), ..o }, acc)
        } else if t == "binc"@ {
            go_scan(v, toks, i + 2, GoOptions { binc: read_num(toks, i), ..o }, acc)
        } else if t == "movestogo"@ {
            go_scan(v, toks, i + 2, GoOptions { movestogo: read_num(toks, i), ..o }, acc)
        } else if t == "infinite"@ {
            go_scan(v, toks, i + 1, GoOptions { depth: Some(64), ..o }, acc)
        } else if t == "searchmoves"@ {
            let e = move_run(v, toks, i + 1);
            proof {
                lemma_move_run(v, toks, i + 1);
            }
            go_scan(v, toks, e, o, acc + toks.subrange(i + 1, e))
        } else {
            go_scan(v, toks, i + 1, o, acc)
        }
    }
}

/// The option of `o` that the keyword `k` sets, for the keywords that take
/// a 64-bit number.
pub open spec fn number_option(o: GoOptions, k: Seq<char>) -> Option<u64> {
    if k == "movetime"@ {
        o.movetime
    } else if k == "nodes"@ {
        o.nodes
    } else if k == "wtime"@ {
        o.wtime
    } else if k == "btime"@ {
        o.btime
    } else if k == "winc"@ {
        o.winc
    } else if k == "binc"@ {
        o.binc
    } else {
        o.movestogo
    }
}

/// The keywords of `go` that take a 64-bit number.
pub open spec fn number_keyword(k: Seq<char>) -> bool {
    ||| k == "movetime"@
    ||| k == "nodes"@
    ||| k == "wtime"@
    ||| k == "btime"@
    ||| k == "winc"@
    ||| k == "binc"@
    ||| k == "movestogo"@
}

/// The keywords of `go` are distinct words.
proof fn lemma_go_keywords()
    ensures
        "depth"@ != "infinite"@,
        "depth"@ != "searchmoves"@,
        "infinite"@ != "searchmoves"@,
        "depth"@ != "movetime"@,
        "depth"@ != "nodes"@,
        "depth"@ != "wtime"@,
        "depth"@ != "btime"@,
        "depth"@ != "winc"@,
        "depth"@ != "binc"@,
        "depth"@ != "movestogo"@,
        "infinite"@ != "movetime"@,
        "infinite"@ != "nodes"@,
        "infinite"@ != "wtime"@,
        "infinite"@ != "btime"@,
        "infinite"@ != "winc"@,
        "infinite"@ != "binc"@,
        "infinite"@ != "movestogo"@,
        "searchmoves"@ != "movetime"@,
        "searchmoves"@ != "nodes"@,
        "searchmoves"@ != "wtime"@,
        "searchmoves"@ != "btime"@,
        "searchmoves"@ != "winc"@,
        "searchmoves"@ != "binc"@,
        "searchmoves"@ != "movestogo"@,
        "movetime"@ != "nodes"@,
        "movetime"@ != "wtime"@,
        "movetime"@ != "btime"@,
        "movetime"@ != "winc"@,
        "movetime"@ != "binc"@,
        "movetime"@ != "movestogo"@,
        "nodes"@ != "wtime"@,
        "nodes"@ != "btime"@,
        "nodes"@ != "winc"@,
        "nodes"@ != "binc"@,
        "nodes"@ != "movestogo"@,
        "wtime"@ != "btime"@,
        "wtime"@ != "winc"@,
        "wtime"@ != "binc"@,
        "wtime"@ != "movestogo"@,
        "btime"@ != "winc"@,
        "btime"@ != "binc"@,
        "btime"@ != "movestogo"@,
        "winc"@ != "binc"@,
        "winc"@ != "movestogo"@,
        "binc"@ != "movestogo"@,
{
    reveal_strlit("depth");
    reveal_strlit("infinite");
    reveal_strlit("searchmoves");
    reveal_strlit("movetime");
    reveal_strlit("nodes");
    reveal_strlit("wtime");
    reveal_strlit("btime");
    reveal_strlit("winc");
    reveal_strlit("binc");
    reveal_strlit("movestogo");
    assert("depth"@[0] != "infinite"@[0]);
    assert("depth"@[0] != "searchmoves"@[0]);
    assert("infinite"@[0] != "searchmoves"@[0]);
    assert("depth"@[0] != "movetime"@[0]);
    assert("depth"@[0] != "nodes"@[0]);
    assert("depth"@[0] != "wtime"@[0]);
    assert("depth"@[0] != "btime"@[0]);
    assert("depth"@[0] != "winc"@[0]);
    assert("depth"@[0] != "binc"@[0]);
    assert("depth"@[0] != "movestogo"@[0]);
    assert("infinite"@[0] != "movetime"@[0]);
    assert("infinite"@[0] != "nodes"@[0]);
    assert("infinite"@[0] != "wtime"@[0]);
    assert("infinite"@[0] != "btime"@[0]);
    assert("infinite"@[0] != "winc"@[0]);
    assert("infinite"@[0] != "binc"@[0]);
    assert("infinite"@[0] != "movestogo"@[0]);
    assert("searchmoves"@[0] != "movetime"@[0]);
    assert("searchmoves"@[0] != "nodes"@[0]);
    assert("searchmoves"@[0] != "wtime"@[0]);
    assert("searchmoves"@[0] != "btime"@[0]);
    assert("searchmoves"@[0] != "winc"@[0]);
    assert("searchmoves"@[0] != "binc"@[0]);
    assert("searchmoves"@[0] != "movestogo"@[0]);
    assert("movetime"@[0] != "nodes"@[0]);
    assert("movetime"@[0] != "wtime"@[0]);
    assert("movetime"@[0] != "btime"@[0]);
    assert("movetime"@[0] != "winc"@[0]);
    assert("movetime"@[0] != "binc"@[0]);
    assert("movetime"@.len() != "movestogo"@.len());
    assert("nodes"@[0] != "wtime"@[0]);
    assert("nodes"@[0] != "btime"@[0]);
    assert("nodes"@[0] != "winc"@[0]);
    assert("nodes"@[0] != "binc"@[0]);
    assert("nodes"@[0] != "movestogo"@[0]);
    assert("wtime"@[0] != "btime"@[0]);
    assert("wtime"@[1] != "winc"@[1]);
    assert("wtime"@[0] != "binc"@[0]);
    assert("wtime"@[0] != "movestogo"@[0]);
    assert("btime"@[0] != "winc"@[0]);
    assert("btime"@[1] != "binc"@[1]);
    assert("btime"@[0] != "movestogo"@[0]);
    assert("winc"@[0] != "binc"@[0]);
    assert("winc"@[0] != "movestogo"@[0]);
    assert("binc"@[0] != "movestogo"@[0]);
}

/// Reading on from `i`, where the keyword `k` does not occur again, leaves
/// its option as it was.
pub proof fn lemma_scan_keeps_option(v: BoardView, toks: Seq<Seq<char>>, i: int, o: GoOptions, acc: Seq<Seq<char>>, k: Seq<char>)
    requires
        number_keyword(k),
        forall|j: int| i <= j < toks.len() ==> #[trigger] toks[j] != k,
    ensures
        number_option(go_scan(v, toks, i, o, acc).0, k) == number_option(o, k),
    decreases toks.len() + 2 - i,
{
    lemma_go_keywords();
    if 0 <= i < toks.len() {
        let t = toks[i];
        if t == "searchmoves"@ {
            lemma_move_run(v, toks, i + 1);
            let e = move_run(v, toks, i + 1);
            lemma_scan_keeps_option(v, toks, e, o, acc + toks.subrange(i + 1, e), k);
        } else if t == "depth"@ {
            let d = match read_num(toks, i) {
                Some(n) => Some(#[verifier::truncate] (n as u32)),
                None => None,
            };
            lemma_scan_keeps_option(v, toks, i + 2, GoOptions { depth: d, ..o }, acc, k);
        } else if t == "movetime"@ {
            lemma_scan_keeps_option(v, toks, i + 2, GoOptions { movetime: read_num(toks, i), ..o }, acc, k);
        } else if t == "nodes"@ {
            lemma_scan_keeps_option(v, toks, i + 2, GoOptions { nodes: read_num(toks, i), ..o }, acc, k);
        } else if t == "wtime"@ {
            lemma_scan_keeps_option(v, toks, i + 2, GoOptions { wtime: read_num(toks, i), ..o }, acc, k);
        } else if t == "btime"@ {
            lemma_scan_keeps_option(v, toks, i + 2, GoOptions { btime: read_num(toks, i), ..o }, acc, k);
        } else if t == "winc"@ {
            lemma_scan_keeps_option(v, toks, i + 2, GoOptions { winc: read_num(toks, i), ..o }, acc, k);
        } else if t == "binc"@ {
            lemma_scan_keeps_option(v, toks, i + 2, GoOptions { binc: read_num(toks, i), ..o }, acc, k);
        } else if t == "movestogo"@ {
            lemma_scan_keeps_option(v, toks, i + 2, GoOptions { movestogo: read_num(toks, i), ..o }, acc, k);
        } else if t == "infinite"@ {
            lemma_scan_keeps_option(v, toks, i + 1, GoOptions { depth: Some(64), ..o }, acc, k);
        } else {
            lemma_scan_keeps_option(v, toks, i + 1, o, acc, k);
        }
    }
}

/// An option is read from the token right after its keyword: where the
/// `go` tokens hold the keyword `k` at `i` followed by the decimal text of
/// `n`, and `k` does not occur again, reading from `i` sets that option to `n`.
pub proof fn lemma_scan_reads_option(v: BoardView, toks: Seq<Seq<char>>, i: int, o: GoOptions, acc: Seq<Seq<char>>, k: Seq<char>, n: u64)
    requires
        number_keyword(k),
        0 <= i,
        i + 1 < toks.len(),
        toks[i] == k,
        toks[i + 1] == decimal(n as nat),
        forall|j: int| i + 2 <= j < toks.len() ==> #[trigger] toks[j] != k,
    ensures
        number_option(go_scan(v, toks, i, o, acc).0, k) == Some(n),
{
    lemma_go_keywords();
    lemma_decimal_digits(n as nat);
    assert(parse_uint_spec(decimal(n as nat), u64::MAX as nat) == Some(n as nat));
    assert(read_num(toks, i) == Some(n));
    let o2 = if k == "movetime"@ {
        GoOptions { movetime: read_num(toks, i), ..o }
    } else if k == "nodes"@ {
        GoOptions { nodes: read_num(toks, i), ..o }
    } else if k == "wtime"@ {
        GoOptions { wtime: read_num(toks, i), ..o }
    } else if k == "btime"@ {
        GoOptions { btime: read_num(toks, i), ..o }
    } else if k == "winc"@ {
        GoOptions { winc: read_num(toks, i), ..o }
    } else if k == "binc"@ {
        GoOptions { binc: read_num(toks, i), ..o }
    } else {
        GoOptions { movestogo: read_num(toks, i), ..o }
    };
    assert(go_scan(v, toks, i, o, acc) == go_scan(v, toks, i + 2, o2, acc));
    lemma_scan_keeps_option(v, toks, i + 2, o2, acc, k);
}

/// Reading on from `i`, where neither `depth` nor `infinite` occurs again,
/// leaves the depth as it was.
pub proof fn lemma_scan_keeps_depth(v: BoardView, toks: Seq<Seq<char>>, i: int, o: GoOptions, acc: Seq<Seq<char>>)
    requires
        forall|j: int| i <= j < toks.len() ==> #[trigger] toks[j] != "depth"@ && toks[j] != "infinite"@,
    ensures
        go_scan(v, toks, i, o, acc).0.depth == o.depth,
    decreases toks.len() + 2 - i,
{
    lemma_go_keywords();
    if 0 <= i < toks.len() {
        let t = toks[i];
        if t == "searchmoves"@ {
            lemma_move_run(v, toks, i + 1);
            let e = move_run(v, toks, i + 1);
            lemma_scan_keeps_depth(v, toks, e, o, acc + toks.subrange(i + 1, e));
        } else if t == "movetime"@ {
            lemma_scan_keeps_depth(v, toks, i + 2, GoOptions { movetime: read_num(toks, i), ..o }, acc);
        } else if t == "nodes"@ {
            lemma_scan_keeps_depth(v, toks, i + 2, GoOptions { nodes: read_num(toks, i), ..o }, acc);
        } else if t == "wtime"@ {
            lemma_scan_keeps_depth(v, toks, i + 2, GoOptions { wtime: read_num(toks, i), ..o }, acc);
        } else if t == "btime"@ {
            lemma_scan_keeps_depth(v, toks, i + 2, GoOptions { btime: read_num(toks, i), ..o }, acc);
        } else if t == "winc"@ {
            lemma_scan_keeps_depth(v, toks, i + 2, GoOptions { winc: read_num(toks, i), ..o }, acc);
        } else if t == "binc"@ {
            lemma_scan_keeps_depth(v, toks, i + 2, GoOptions { binc: read_num(toks, i), ..o }, acc);
        } else if t == "movestogo"@ {
            lemma_scan_keeps_depth(v, toks, i + 2, GoOptions { movestogo: read_num(toks, i), ..o }, acc);
        } else {
            lemma_scan_keeps_depth(v, toks, i + 1, o, acc);
        }
    }
}

/// `depth N` sets the depth to `N` (for `N` that `u32` holds) when neither
/// `depth` nor `infinite` occurs later.
pub proof fn lemma_scan_reads_depth(v: BoardView, toks: Seq<Seq<char>>, i: int, o: GoOptions, acc: Seq<Seq<char>>, n: u32)
    requires
        0 <= i,
        i + 1 < toks.len(),
        toks[i] == "depth"@,
        toks[i + 1] == decimal(n as nat),
        forall|j: int| i + 2 <= j < toks.len() ==> #[trigger] toks[j] != "depth"@ && toks[j] != "infinite"@,
    ensures
        go_scan(v, toks, i, o, acc).0.depth == Some(n),
{
    lemma_decimal_digits(n as nat);
    assert(parse_uint_spec(decimal(n as nat), u64::MAX as nat) == Some(n as nat));
    assert(read_num(toks, i) == Some(n as u64));
    assert((n as u64) as u32 == n);
    lemma_scan_keeps_depth(v, toks, i + 2, GoOptions { depth: Some(n), ..o }, acc);
}

/// No option set.
pub open spec fn no_options() -> GoOptions {
    GoOptions {
        depth: None,
        movetime: None,
        nodes: None,
        wtime: None,
        btime: None,
        winc: None,
        binc: None,
        movestogo: None,
    }
}

/// The search limits for the options `o` with `side` to move: the depth,
/// move time and node limit given; with none of them, a move time from the
/// clock (the remaining time over the moves to go, 30 by default, plus three
/// quarters of the increment, at most the time less 50 ms and at least
/// 10 ms; the arithmetic wraps at 64 bits), or depth 64 without a clock.
pub open spec fn limits_spec(o: GoOptions, side: Color) -> SearchLimits {
    if o.movetime is None && o.depth is None && o.nodes is None {
        let time = if side == Color::White { o.wtime } else { o.btime };
        let inc: u64 = match (if side == Color::White { o.winc } else { o.binc }) {
            Some(n) => n,
            None => 0,
        };
        match time {
            Some(t) => {
                let mtg: u64 = match o.movestogo {
                    Some(n) => n,
                    None => 30,
                };
                let moves: u64 = if mtg < 1 { 1 } else { mtg };
                let budget = ((t / moves) as u64).wrapping_add((inc.wrapping_mul(3) / 4) as u64);
                let cap = t.saturating_sub(50);
                let capped = if budget < cap { budget } else { cap };
                SearchLimits { depth: None, movetime_ms: Some(if capped > 10 { capped } else { 10 }), nodes: None }
            },
            None => SearchLimits { depth: Some(64), movetime_ms: None, nodes: None },
        }
    } else {
        SearchLimits { depth: o.depth, movetime_ms: o.movetime, nodes: o.nodes }
    }
}

/// The time allocation: with no depth, move time or node limit and `t` ms
/// on the mover's clock, the move gets `t` divided by the moves to go
/// (`movestogo` when given, at least 1; 30 otherwise) plus three quarters of
/// the mover's increment `inc`, at most `t - 50` (and 0 below 50 ms), at least
/// 10 ms, with neither depth nor node limit.
pub proof fn lemma_time_slice(o: GoOptions, side: Color, t: u64, inc: u64)
    requires
        o.movetime is None,
        o.depth is None,
        o.nodes is None,
        (if side == Color::White { o.wtime } else { o.btime }) == Some(t),
        (if side == Color::White { o.winc } else { o.binc }) == Some(inc) || ((if side == Color::White { o.winc } else { o.binc })
            is None && inc == 0),
        inc * 3 <= u64::MAX,
        ({
            let m: int = match o.movestogo {
                Some(n) => if n >= 1 { n as int } else { 1 },
                None => 30,
            };
            (t as int) / m + inc * 3 / 4 <= u64::MAX
        }),
    ensures
        ({
            let m: int = match o.movestogo {
                Some(n) => if n >= 1 { n as int } else { 1 },
                None => 30,
            };
            let budget: int = (t as int) / m + inc * 3 / 4;
            let cap: int = if t >= 50 { t - 50 } else { 0 };
            let slice: int = if budget < cap { budget } else { cap };
            let l = limits_spec(o, side);
            &&& l.depth is None
            &&& l.nodes is None
            &&& l.movetime_ms == Some((if slice > 10 { slice } else { 10 }) as u64)
        }),
{
    let mtg: u64 = match o.movestogo {
        Some(n) => n,
        None => 30,
    };
    let moves: u64 = if mtg < 1 { 1 } else { mtg };
    assert(inc.wrapping_mul(3) == inc * 3);
    assert(((t / moves) as u64).wrapping_add((inc.wrapping_mul(3) / 4) as u64) == t / moves + inc * 3 / 4);
}

/// The search limits of a `go` command (see `limits_spec`).
pub fn go_limits(o: GoOptions, side: Color) -> (l: SearchLimits)
    ensures
        l == limits_spec(o, side),
{
    if o.movetime.is_none() && o.depth.is_none() && o.nodes.is_none() {
        let time = if side == Color::White { o.wtime } else { o.btime };
        let inc: u64 = match (if side == Color::White { o.winc } else { o.binc }) {
            Some(n) => n,
            None => 0,
        };
        match time {
            Some(t) => {
                let mtg: u64 = match o.movestogo {
                    Some(n) => n,
                    None => 30,
                };
                let moves: u64 = if mtg < 1 { 1 } else { mtg };
                // A slice of the remaining time plus most of the increment.
                let budget = (t / moves).wrapping_add(inc.wrapping_mul(3) / 4);
                let cap = t.saturating_sub(50);
                let capped = if budget < cap { budget } else { cap };
                SearchLimits { depth: None, movetime_ms: Some(if capped > 10 { capped } else { 10 }), nodes: None }
            },
            None => SearchLimits { depth: Some(64), movetime_ms: None, nodes: None },
        }
    } else {
        SearchLimits { depth: o.depth, movetime_ms: o.movetime, nodes: o.nodes }
    }
}

/// Past the last token there is nothing left to read.
proof fn lemma_scan_end(v: BoardView, toks: Seq<Seq<char>>, i: int, o: GoOptions, acc: Seq<Seq<char>>)
    ensures
        i >= toks.len() ==> go_scan(v, toks, i, o, acc) == (o, acc),
{
}

/// The number in the token after index `i` (see `read_num`).
fn read_num_at(tokens: &[String], i: usize) -> (r: Option<u64>)
    ensures
        r == read_num(words(tokens@), i as int),
{
    if tokens.len() > 0 && i < tokens.len() - 1 {
        let c = chars_of(tokens[i + 1].as_str());
        proof {
            assert(words(tokens@)[i + 1] == tokens@[i + 1]@);
        }
        parse_uint(c.as_slice(), u64::MAX)
    } else {
        None
    }
}

impl Engine {
    /// The position is consistent and the search has its invariant.
    pub closed spec fn inv(&self) -> bool {
        self.pos.wf() && self.search.inv()
    }

    /// `self` and `o` hold the same game, history, table size and search state.
    pub closed spec fn same_state(&self, o: &Engine) -> bool {
        &&& self.pos.wf() == o.pos.wf()
        &&& self.pos@ == o.pos@
        &&& self.history@ == o.history@
        &&& self.tt_mb == o.tt_mb
        &&& self.search == o.search
    }

    /// The current position.
    pub closed spec fn position(&self) -> BoardView {
        self.pos@
    }

    /// The hashes of the positions played before the current one.
    pub closed spec fn game_hashes(&self) -> Seq<u64> {
        self.history@
    }

    /// The limits the last search ran with.
    pub closed spec fn search_limits(&self) -> SearchLimits {
        self.search.search_limits()
    }

    /// The repetition set of the last search.
    pub closed spec fn search_reps(&self) -> Seq<u64> {
        self.search.rep_hashes()
    }

    /// The transposition table size in megabytes.
    pub closed spec fn hash_mb(&self) -> nat {
        self.tt_mb as nat
    }

    /// The transposition table holds no entry.
    pub closed spec fn table_clear(&self) -> bool {
        self.search.tt_is_clear()
    }

    /// The `info` lines of the last search.
    pub closed spec fn info(&self) -> Seq<String> {
        self.search.info_lines()
    }

    pub fn new() -> (e: Engine)
        ensures
            e.inv(),
            e.position() == start_view(),
            e.game_hashes().len() == 0,
            e.hash_mb() == 64,
            e.table_clear(),
    {
        let tt_mb: usize = 64;
        Engine { pos: Position::startpos(), history: Vec::new(), search: Search::new(tt_mb), tt_mb }
    }

    /// `ucinewgame`: forget every stored search result.
    pub fn new_game(&mut self)
        requires
            old(self).inv(),
        ensures
            final(self).inv(),
            final(self).table_clear(),
            final(self).position() == old(self).position(),
            final(self).game_hashes() == old(self).game_hashes(),
            final(self).hash_mb() == old(self).hash_mb(),
    {
        self.search.clear_tt();
    }

    /// `d`: the current position in FEN.
    pub fn fen(&self) -> (s: String)
        ensures
            s@ == fen_text(self.position()),
    {
        self.pos.to_fen()
    }

    /// The `info` lines of the last search, one per finished iteration.
    pub fn last_info(&self) -> (lines: &Vec<String>)
        ensures
            lines@ == self.info(),
    {
        self.search.info_log()
    }

    /// Match a UCI move string (e.g. "e2e4", "e7e8q") against the legal moves.
    pub fn parse_move(&mut self, s: &String) -> (r: Option<Move>)
        requires
            old(self).inv(),
            gen_ready(old(self).position()),
            move_shape(s@),
        ensures
            final(self).same_state(&*old(self)),
            r matches Some(m) ==> legal_move(old(self).position(), m) && move_matches(m, s@),
            r is None ==> forall|m: Move| legal_move(old(self).position(), m) ==> !#[trigger] move_matches(m, s@),
    {
        let ghost v = self.pos@;
        let c = chars_of(s.as_str());
        let a = vec![c[0], c[1]];
        let b = vec![c[2], c[3]];
        proof {
            assert(a@ =~= s@.subrange(0, 2));
            assert(b@ =~= s@.subrange(2, 4));
        }
        let from = match square_from_chars(a.as_slice()) {
            Some(f) => f,
            None => {
                return None;
            },
        };
        let to = match square_from_chars(b.as_slice()) {
            Some(t) => t,
            None => {
                return None;
            },
        };
        let promo = if c.len() > 4 { Some(to_lower(c[4])) } else { None };
        let moves = generate_legal(&mut self.pos);
        assert(self.same_state(&*old(self)));
        let mut i: usize = 0;
        while i < moves.len()
            invariant
                self.same_state(&*old(self)),
                v == old(self).pos@,
                self.pos@ == v,
                i <= moves@.len(),
                forall|m: Move| #[trigger] moves@.contains(m) <==> legal_move(v, m),
                promo == promo_char(s@),
                parse_square(s@.subrange(0, 2)) == Some(from as int),
                parse_square(s@.subrange(2, 4)) == Some(to as int),
                forall|k: int| 0 <= k < i ==> !#[trigger] move_matches(moves@[k], s@),
            decreases moves@.len() - i,
        {
            let mv = moves[i];
            if mv.from() == from && mv.to() == to {
                let pp = mv.promo_piece();
                let same_promo = match promo {
                    None => pp.is_none(),
                    Some(ch) => match pp {
                        Some(pt) => to_lower(pt.to_char()) == ch,
                        None => false,
                    },
                };
                if same_promo {
                    proof {
                        assert(moves@.contains(mv));
                        assert(move_matches(mv, s@));
                    }
                    return Some(mv);
                }
            }
            i = i + 1;
        }
        proof {
            assert forall|m: Move| legal_move(v, m) implies !#[trigger] move_matches(m, s@) by {
                assert(moves@.contains(m));
                let k = choose|k: int| 0 <= k < moves@.len() && moves@[k] == m;
                assert(!move_matches(moves@[k], s@));
            }
        }
        None
    }

    /// Play the move that token `t` names, recording the hash of the
    /// position it is played from; `None`, and nothing changed, when the
    /// token names no legal move.
    fn play_token(&mut self, t: &String) -> (r: Option<Move>)
        requires
            old(self).inv(),
        ensures
            final(self).inv(),
            final(self).search == old(self).search,
            final(self).tt_mb == old(self).tt_mb,
            match r {
                Some(m) => {
                    &&& step_ok(old(self).position(), m, t@)
                    &&& final(self).position() == make_view(old(self).position(), m)
                    &&& final(self).game_hashes() == old(self).game_hashes().push(hash_spec(old(self).position()))
                },
                None => {
                    &&& !playable(old(self).position(), t@)
                    &&& final(self).position() == old(self).position()
                    &&& final(self).game_hashes() == old(self).game_hashes()
                },
            },
    {
        let tc = chars_of(t.as_str());
        if !move_shape_check(&tc) || !gen_ready_check(&self.pos) {
            return None;
        }
        match self.parse_move(t) {
            Some(mv) => {
                proof {
                    crate::movegen::lemma_pseudo_move_ok(self.pos@, mv);
                }
                self.history.push(self.pos.hash);
                let _undo = self.pos.make_move(mv);
                Some(mv)
            },
            None => None,
        }
    }

    /// Play the move tokens from `start` on, stopping at the first that
    /// names no legal move.
    fn play_tokens(&mut self, tokens: &[String], start: usize) -> (r: PositionReply)
        requires
            old(self).inv(),
            start <= tokens@.len(),
            old(self).game_hashes().len() == 0,
        ensures
            final(self).inv(),
            final(self).search == old(self).search,
            final(self).tt_mb == old(self).tt_mb,
            r is Done || r is IllegalMove,
            ({
                let rest = words(tokens@).subrange(start as int, tokens@.len() as int);
                exists|l: Seq<Move>| #[trigger] moves_applied(old(self).position(), rest, l, final(self).position(), final(self).game_hashes())
                    && (r is Done <==> l.len() == rest.len())
                    && (r matches PositionReply::IllegalMove(t) ==> l.len() < rest.len() && t@ == rest[l.len() as int]
                        && !playable(final(self).position(), rest[l.len() as int]))
            }),
    {
        let ghost base = self.pos@;
        let ghost toks = words(tokens@);
        let ghost rest = toks.subrange(start as int, toks.len() as int);
        let ghost mut l: Seq<Move> = Seq::empty();
        proof {
            assert(self.history@ =~= line_hashes(base, l));
        }
        let mut idx = start;
        while idx < tokens.len()
            invariant
                self.inv(),
                self.search == old(self).search,
                self.tt_mb == old(self).tt_mb,
                base == old(self).position(),
                toks == words(tokens@),
                start <= idx <= tokens@.len(),
                rest == toks.subrange(start as int, toks.len() as int),
                l.len() == idx - start,
                moves_applied(base, rest, l, self.pos@, self.history@),
            decreases tokens@.len() - idx,
        {
            let t = &tokens[idx];
            proof {
                assert(rest[l.len() as int] == toks[idx as int]);
                assert(toks[idx as int] == t@);
            }
            match self.play_token(t) {
                Some(mv) => {
                    proof {
                        let l2 = l.push(mv);
                        assert(l2.drop_last() =~= l);
                        assert(l2.take(l.len() as int) =~= l);
                        assert forall|k: int| 0 <= k < l2.len() implies #[trigger] step_ok(play_line(base, l2.take(k)), l2[k], rest[k]) by {
                            if k < l.len() {
                                assert(l2.take(k) =~= l.take(k));
                                assert(step_ok(play_line(base, l.take(k)), l[k], rest[k]));
                            }
                        }
                        assert forall|k: int| 0 <= k < l2.len() implies self.history@[k] == hash_spec(play_line(base, l2.take(k))) by {
                            if k < l.len() {
                                assert(l2.take(k) =~= l.take(k));
                            }
                        }
                        assert(self.history@ =~= line_hashes(base, l2));
                        l = l2;
                    }
                },
                None => {
                    let bad = t.clone();
                    proof {
                        assert(moves_applied(old(self).position(), rest, l, self.position(), self.game_hashes()));
                        assert(bad@ == rest[l.len() as int]);
                        assert(!playable(self.position(), rest[l.len() as int]));
                    }
                    return PositionReply::IllegalMove(bad);
                },
            }
            idx = idx + 1;
        }
        proof {
            assert(moves_applied(old(self).position(), rest, l, self.position(), self.game_hashes()));
            assert(l.len() == rest.len());
        }
        PositionReply::Done
    }

    /// Set the position `position` starts from: the start position, the
    /// FEN given, or the current one. Returns the index of the next token.
    fn set_base(&mut self, tokens: &[String]) -> (r: Result<usize, PositionReply>)
        requires
            old(self).inv(),
            tokens@.len() >= 2,
        ensures
            final(self).inv(),
            final(self).search == old(self).search,
            final(self).tt_mb == old(self).tt_mb,
            final(self).game_hashes() == old(self).game_hashes(),
            ({
                let toks = words(tokens@);
                match r {
                    Ok(idx) => position_base(old(self).position(), toks) == Some((final(self).position(), idx as int))
                        && idx <= tokens@.len(),
                    Err(rep) => {
                        &&& position_base(old(self).position(), toks) is None
                        &&& *final(self) == *old(self)
                        &&& (fen_spec(fen_arg(toks)) matches Err(e) && rep matches PositionReply::BadFen(msg) && msg@ == fen_message(e))
                    },
                }
            }),
    {
        let ghost toks = words(tokens@);
        proof {
            assert(toks[1] == tokens@[1]@);
        }
        if text_is(&tokens[1], "startpos") {
            self.pos = Position::startpos();
            return Ok(2);
        }
        if !text_is(&tokens[1], "fen") {
            return Ok(1);
        }
        // The FEN spans the tokens up to "moves".
        let mut fen = String::new();
        let mut idx: usize = 2;
        while idx < tokens.len() && !text_is(&tokens[idx], "moves")
            invariant
                2 <= idx <= tokens@.len(),
                toks == words(tokens@),
                moves_index(toks, 2) == moves_index(toks, idx as int),
                fen@ == join_words(toks.subrange(2, idx as int)),
            decreases tokens@.len() - idx,
        {
            proof {
                assert(toks[idx as int] == tokens@[idx as int]@);
                let ws = toks.subrange(2, idx + 1);
                assert(ws.drop_last() =~= toks.subrange(2, idx as int));
                assert(ws.last() == tokens@[idx as int]@);
            }
            if idx > 2 {
                push_text(&mut fen, " ");
            }
            push_text(&mut fen, tokens[idx].as_str());
            proof {
                let ws = toks.subrange(2, idx + 1);
                assert(fen@ =~= join_words(ws));
            }
            idx = idx + 1;
        }
        proof {
            if idx < tokens@.len() {
                assert(toks[idx as int] == tokens@[idx as int]@);
            }
            assert(moves_index(toks, idx as int) == idx);
            assert(fen@ == fen_arg(toks));
        }
        match Position::from_fen(fen.as_str()) {
            Ok(p) => {
                self.pos = p;
                Ok(idx)
            },
            Err(e) => Err(PositionReply::BadFen(e)),
        }
    }

    /// `position [startpos | fen <fen>] [moves <m1> ...]`: set the position
    /// and play the listed moves, keeping the hash of each position played
    /// through. Playing stops at the first token that names no legal move.
    pub fn cmd_position(&mut self, tokens: &[String]) -> (r: PositionReply)
        requires
            old(self).inv(),
        ensures
            final(self).inv(),
            final(self).hash_mb() == old(self).hash_mb(),
            ({
                let toks = words(tokens@);
                if toks.len() < 2 {
                    r is Done && *final(self) == *old(self)
                } else {
                    match position_base(old(self).position(), toks) {
                        None => {
                            &&& *final(self) == *old(self)
                            &&& (fen_spec(fen_arg(toks)) matches Err(e) && r matches PositionReply::BadFen(msg) && msg@ == fen_message(e))
                        },
                        Some((base, idx)) => if idx < toks.len() && toks[idx] == "moves"@ {
                            let rest = toks.subrange(idx + 1, toks.len() as int);
                            exists|l: Seq<Move>| #[trigger] moves_applied(base, rest, l, final(self).position(), final(self).game_hashes())
                                && (r is Done <==> l.len() == rest.len())
                                && (r matches PositionReply::IllegalMove(t) ==> l.len() < rest.len() && t@ == rest[l.len() as int]
                                    && !playable(final(self).position(), rest[l.len() as int]))
                                && (r is Done || r is IllegalMove)
                        } else {
                            &&& r is Done
                            &&& final(self).position() == base
                            &&& final(self).game_hashes().len() == 0
                        },
                    }
                }
            }),
    {
        let ghost toks = words(tokens@);
        if tokens.len() < 2 {
            return PositionReply::Done;
        }
        let idx = match self.set_base(tokens) {
            Ok(i) => i,
            Err(rep) => {
                return rep;
            },
        };
        self.history.clear();
        if idx < tokens.len() && text_is(&tokens[idx], "moves") {
            proof {
                assert(toks[idx as int] == tokens@[idx as int]@);
                assert(words(tokens@).subrange(idx + 1, tokens@.len() as int) == toks.subrange(idx + 1, toks.len() as int));
            }
            self.play_tokens(tokens, idx + 1)
        } else {
            proof {
                if idx < tokens@.len() {
                    assert(toks[idx as int] == tokens@[idx as int]@);
                }
            }
            PositionReply::Done
        }
    }

    /// The move that token `t` names, if it names a legal one.
    fn try_move(&mut self, t: &String) -> (r: Option<Move>)
        requires
            old(self).inv(),
        ensures
            final(self).same_state(&*old(self)),
            final(self).inv(),
            r matches Some(m) ==> legal_move(old(self).position(), m) && move_matches(m, t@),
            r is Some <==> playable(old(self).position(), t@),
    {
        let tc = chars_of(t.as_str());
        if !move_shape_check(&tc) || !gen_ready_check(&self.pos) {
            return None;
        }
        self.parse_move(t)
    }

    /// Read the options and `searchmoves` moves of a `go` command.
    pub fn go_options(&mut self, tokens: &[String]) -> (r: (GoOptions, Vec<Move>))
        requires
            old(self).inv(),
        ensures
            final(self).same_state(&*old(self)),
            final(self).inv(),
            ({
                let scan = go_scan(old(self).position(), words(tokens@), 1, no_options(), Seq::empty());
                &&& r.0 == scan.0
                &&& r.1@.len() == scan.1.len()
                &&& forall|k: int| 0 <= k < r.1@.len() ==> legal_move(old(self).position(), #[trigger] r.1@[k]) && move_matches(r.1@[k], scan.1[k])
            }),
    {
        let ghost v = self.pos@;
        let ghost toks = words(tokens@);
        let mut o = GoOptions {
            depth: None,
            movetime: None,
            nodes: None,
            wtime: None,
            btime: None,
            winc: None,
            binc: None,
            movestogo: None,
        };
        let mut roots: Vec<Move> = Vec::new();
        let ghost mut acc: Seq<Seq<char>> = Seq::empty();
        let mut i: usize = 1;
        while i < tokens.len()
            invariant
                self.same_state(&*old(self)),
                self.inv(),
                v == self.pos@,
                v == old(self).position(),
                toks == words(tokens@),
                1 <= i <= tokens@.len() + 1,
                go_scan(v, toks, i as int, o, acc) == go_scan(v, toks, 1, no_options(), Seq::empty()),
                roots@.len() == acc.len(),
                forall|k: int| 0 <= k < roots@.len() ==> legal_move(v, #[trigger] roots@[k]) && move_matches(roots@[k], acc[k]),
            decreases tokens@.len() + 2 - i,
        {
            let t = &tokens[i];
            proof {
                assert(toks[i as int] == t@);
            }
            if text_is(t, "depth") {
                let n = read_num_at(tokens, i);
                o.depth = match n {
                    Some(x) => Some(#[verifier::truncate] (x as u32)),
                    None => None,
                };
                proof {
                    lemma_scan_end(v, toks, i + 2, o, acc);
                    lemma_scan_end(v, toks, tokens@.len() as int, o, acc);
                }
                i = if i + 1 < tokens.len() { i + 2 } else { tokens.len() };
            } else if text_is(t, "movetime") {
                o.movetime = read_num_at(tokens, i);
                proof {
                    lemma_scan_end(v, toks, i + 2, o, acc);
                    lemma_scan_end(v, toks, tokens@.len() as int, o, acc);
                }
                i = if i + 1 < tokens.len() { i + 2 } else { tokens.len() };
            } else if text_is(t, "nodes") {
                o.nodes = read_num_at(tokens, i);
                proof {
                    lemma_scan_end(v, toks, i + 2, o, acc);
                    lemma_scan_end(v, toks, tokens@.len() as int, o, acc);
                }
                i = if i + 1 < tokens.len() { i + 2 } else { tokens.len() };
            } else if text_is(t, "wtime") {
                o.wtime = read_num_at(tokens, i);
                proof {
                    lemma_scan_end(v, toks, i + 2, o, acc);
                    lemma_scan_end(v, toks, tokens@.len() as int, o, acc);
                }
                i = if i + 1 < tokens.len() { i + 2 } else { tokens.len() };
            } else if text_is(t, "btime") {
                o.btime = read_num_at(tokens, i);
                proof {
                    lemma_scan_end(v, toks, i + 2, o, acc);
                    lemma_scan_end(v, toks, tokens@.len() as int, o, acc);
                }
                i = if i + 1 < tokens.len() { i + 2 } else { tokens.len() };
            } else if text_is(t, "winc") {
                o.winc = read_num_at(tokens, i);
                proof {
                    lemma_scan_end(v, toks, i + 2, o, acc);
                    lemma_scan_end(v, toks, tokens@.len() as int, o, acc);
                }
                i = if i + 1 < tokens.len() { i + 2 } else { tokens.len() };
            } else if text_is(t, "binc") {
                o.binc = read_num_at(tokens, i);
                proof {
                    lemma_scan_end(v, toks, i + 2, o, acc);
                    lemma_scan_end(v, toks, tokens@.len() as int, o, acc);
                }
                i = if i + 1 < tokens.len() { i + 2 } else { tokens.len() };
            } else if text_is(t, "movestogo") {
                o.movestogo = read_num_at(tokens, i);
                proof {
                    lemma_scan_end(v, toks, i + 2, o, acc);
                    lemma_scan_end(v, toks, tokens@.len() as int, o, acc);
                }
                i = if i + 1 < tokens.len() { i + 2 } else { tokens.len() };
            } else if text_is(t, "infinite") {
                o.depth = Some(64);
                i = i + 1;
            } else if text_is(t, "searchmoves") {
                // Take the following move tokens as the root-move filter.
                i = i + 1;
                let ghost start = i as int;
                let ghost acc0 = acc;
                proof {
                    lemma_move_run(v, toks, start);
                }
                let mut more = true;
                while more && i < tokens.len()
                    invariant
                        self.same_state(&*old(self)),
                        self.inv(),
                        v == self.pos@,
                        v == old(self).position(),
                        toks == words(tokens@),
                        2 <= start <= i <= tokens@.len(),
                        acc0.len() + (i - start) == roots@.len(),
                        move_run(v, toks, start) == (if more { move_run(v, toks, i as int) } else { i as int }),
                        acc == acc0 + toks.subrange(start, i as int),
                        roots@.len() == acc.len(),
                        forall|k: int| 0 <= k < roots@.len() ==> legal_move(v, #[trigger] roots@[k]) && move_matches(roots@[k], acc[k]),
                    decreases tokens@.len() - i + (if more { 1int } else { 0int }),
                {
                    proof {
                        assert(toks[i as int] == tokens@[i as int]@);
                    }
                    match self.try_move(&tokens[i]) {
                        Some(mv) => {
                            let ghost before = roots@;
                            roots.push(mv);
                            proof {
                                let acc2 = acc0 + toks.subrange(start, i + 1);
                                assert(acc2 =~= acc.push(toks[i as int]));
                                acc = acc2;
                                assert forall|k: int| 0 <= k < roots@.len() implies legal_move(v, #[trigger] roots@[k]) && move_matches(roots@[k], acc[k]) by {
                                    if k < before.len() {
                                        assert(roots@[k] == before[k]);
                                    }
                                }
                            }
                            i = i + 1;
                        },
                        None => {
                            more = false;
                        },
                    }
                }
                proof {
                    if more {
                        assert(move_run(v, toks, i as int) == i);
                    }
                }
            } else {
                i = i + 1;
            }
        }
        proof {
            assert(go_scan(v, toks, i as int, o, acc) == (o, acc));
        }
        (o, roots)
    }

    /// `go ...`: search the current position within the limits the tokens
    /// give (see `go_scan` and `limits_spec`), only among the `searchmoves`
    /// moves when some are given. The result's best move is the reply. A
    /// position the search cannot start from (a king missing, the side that
    /// just moved in check, rights that disagree with the board, counters at
    /// their end) is not searched: the result is empty.
    #[verifier::rlimit(80)]
    pub fn cmd_go(&mut self, tokens: &[String]) -> (r: SearchResult)
        requires
            old(self).inv(),
        ensures
            final(self).inv(),
            final(self).position() == old(self).position(),
            final(self).game_hashes() == old(self).game_hashes(),
            final(self).hash_mb() == old(self).hash_mb(),
            legal_line(old(self).position(), r.pv@),
            r.best_move == (if r.pv@.len() > 0 { r.pv@[0] } else { Move(0) }),
            -1_000_000 <= r.score <= 1_000_000,
            !search_ready(old(self).position(), 0) ==> r.pv@.len() == 0 && r.depth == 0,
            ({
                let scan = go_scan(old(self).position(), words(tokens@), 1, no_options(), Seq::empty());
                let lim = limits_spec(scan.0, old(self).position().side);
                &&& r.depth <= (match lim.depth { Some(d) => d, None => 64 })
                &&& (search_ready(old(self).position(), 0) && lim.movetime_ms is None && lim.nodes is None) ==> (r.depth == depth_target(
                    lim.depth,
                ) || r.score >= MATE_VALUE - MAX_PLY || r.score <= -(MATE_VALUE - MAX_PLY))
                &&& (search_ready(old(self).position(), 0) && depth_target(lim.depth) >= 1) ==> r.depth >= 1
                &&& search_ready(old(self).position(), 0) ==> final(self).search_limits() == lim
                &&& (search_ready(old(self).position(), 0) && lim.movetime_ms is None && lim.nodes is None && depth_target(lim.depth) >= 1
                    && has_legal(old(self).position())) ==> r.pv@.len() > 0
                &&& (scan.1.len() > 0 && r.pv@.len() > 0) ==> exists|k: int| 0 <= k < scan.1.len() && #[trigger] move_matches(r.best_move, scan.1[k])
                // The game's earlier positions are the search's repetition set, and
                // the reply is the score and move of the root search at the depth reached.
                &&& search_ready(old(self).position(), 0) ==> final(self).search_reps() == old(self).game_hashes()
                &&& (search_ready(old(self).position(), 0) && lim.movetime_ms is None && lim.nodes is None && r.depth >= 1) ==> go_reply(
                    old(self).position(),
                    old(self).game_hashes(),
                    scan.1,
                    r.depth as int,
                    r.score as int,
                    r.best_move,
                )
            }),
    {
        let ghost v = self.pos@;
        let (o, roots) = self.go_options(tokens);
        let limits = go_limits(o, self.pos.side);
        if !search_ready_check(&self.pos) {
            return SearchResult { best_move: Move::none(), score: 0, depth: 0, pv: Vec::new(), nodes: 0 };
        }
        let ghost scan = go_scan(v, words(tokens@), 1, no_options(), Seq::empty());
        let result = self.search.go_with_roots(&mut self.pos, limits, self.history.as_slice(), roots.as_slice());
        proof {
            if roots@.len() > 0 {
                assert(legal_move(v, roots@[0]));
                assert(roots@.contains(roots@[0]));
                assert(root_listed(v, roots@));
            }
            if scan.1.len() > 0 && result.pv@.len() > 0 {
                assert(roots@.contains(result.best_move));
                let k = choose|k: int| 0 <= k < roots@.len() && roots@[k] == result.best_move;
                assert(move_matches(roots@[k], scan.1[k]));
            }
            if limits.movetime_ms is None && limits.nodes is None && result.depth >= 1 {
                let st = choose|st: Search| #[trigger] st.root_result(v, old(self).history@, roots@, result.depth as int, result.score as int, result.best_move);
                st.lemma_root_result_list(v, old(self).history@, roots@, result.depth as int, result.score as int, result.best_move);
                assert(st.root_result(v, old(self).history@, st.root_list(), result.depth as int, result.score as int, result.best_move));
                assert(st.root_list().len() == scan.1.len());
                assert forall|k: int| 0 <= k < scan.1.len() implies #[trigger] move_matches(st.root_list()[k], scan.1[k]) by {
                    assert(st.root_list()[k] == roots@[k]);
                }
            }
            assert(self.search.rep_hashes() == old(self).history@);
            if search_ready(v, 0) && limits.movetime_ms is None && limits.nodes is None && result.depth >= 1 {
                assert(go_reply(v, old(self).history@, scan.1, result.depth as int, result.score as int, result.best_move));
            }
        }
        result
    }

    /// `setoption name Hash value N`: a new, empty table of `N` megabytes.
    /// Any other option, or a size whose byte count does not fit, is ignored.
    pub fn cmd_setoption(&mut self, tokens: &[String])
        requires
            old(self).inv(),
        ensures
            final(self).inv(),
            final(self).position() == old(self).position(),
            final(self).game_hashes() == old(self).game_hashes(),
            match hash_option(words(tokens@)) {
                Some(mb) => if table_size_ok(mb) {
                    final(self).hash_mb() == mb && final(self).table_clear()
                } else {
                    *final(self) == *old(self)
                },
                None => *final(self) == *old(self),
            },
    {
        let ghost toks = words(tokens@);
        if tokens.len() >= 5 && text_is(&tokens[1], "name") && text_is(&tokens[2], "Hash") && text_is(&tokens[3], "value") {
            let digits = chars_of(tokens[4].as_str());
            proof {
                assert(toks[1] == tokens@[1]@);
                assert(toks[2] == tokens@[2]@);
                assert(toks[3] == tokens@[3]@);
                assert(toks[4] == tokens@[4]@);
            }
            if let Some(mb) = parse_uint(digits.as_slice(), usize::MAX as u64) {
                if mb <= (usize::MAX / 2 / 0x10_0000) as u64 {
                    let size = mb as usize;
                    self.tt_mb = size;
                    self.search = Search::new(size);
                }
            }
        } else {
            proof {
                if tokens@.len() >= 5 {
                    assert(toks[1] == tokens@[1]@);
                    assert(toks[2] == tokens@[2]@);
                    assert(toks[3] == tokens@[3]@);
                }
            }
        }
    }
}

} // verus!
