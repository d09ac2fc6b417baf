use lib::eval::evaluate;
use lib::fen::FenError;
use lib::movegen::generate_legal;
use lib::perft::{hashcheck, perft, perft_divide, perft_ready_check};
use lib::position::Position;
use lib::search::{info_line, search_ready_check, Search, SearchLimits};
use lib::tables::{bishop_attacks, king_attacks, knight_attacks, pawn_attacks, queen_attacks, rook_attacks};
use lib::types::{
    file_of, make_square, rank_of, square_to_string, string_to_square, Color, Move, PieceType, FLAG_CAPTURE,
    FLAG_DOUBLE_PAWN, FLAG_EP_CAPTURE, FLAG_KING_CASTLE, FLAG_PROMO_Q, FLAG_PROMO_N_CAP, FLAG_QUIET,
};
use lib::uci::{go_limits, Engine, GoOptions, PositionReply};
use lib::zobrist::{castling_key, ep_key, piece_key, side_key, zobrist};

const KIWIPETE: &str = "r3k2r/p1ppqpb1/bn2pnp1/3PN3/1p2P3/2N2Q1p/PPPBBPPP/R3K2R w KQkq - 0 1";
const POS3: &str = "8/2p5/3p4/KP5r/1R3p1k/8/4P1P1/8 w - - 0 1";
const START: &str = "rnbqkbnr/pppppppp/8/8/8/8/PPPPPPPP/RNBQKBNR w KQkq - 0 1";

fn fen(s: &str) -> Position {
    Position::from_fen(s).expect("valid FEN")
}

fn uci_list(pos: &mut Position) -> Vec<String> {
    generate_legal(pos).iter().map(|m| m.to_uci()).collect()
}

fn toks(s: &str) -> Vec<String> {
    s.split_whitespace().map(|t| t.to_string()).collect()
}

#[test]
fn perft_startpos_shallow() {
    let mut pos = Position::startpos();
    assert_eq!(perft(&mut pos, 0), 1);
    assert_eq!(perft(&mut pos, 1), 20);
    assert_eq!(perft(&mut pos, 2), 400);
    assert_eq!(perft(&mut pos, 3), 8902);
}

#[test]
fn perft_startpos_depth_four() {
    let mut pos = Position::startpos();
    assert_eq!(perft(&mut pos, 4), 197281);
    assert_eq!(pos.to_fen(), START);
}

#[test]
fn perft_kiwipete() {
    let mut pos = fen(KIWIPETE);
    assert_eq!(perft(&mut pos, 1), 48);
    assert_eq!(perft(&mut pos, 2), 2039);
    assert_eq!(perft(&mut pos, 3), 97862);
}

#[test]
fn perft_position_three() {
    let mut pos = fen(POS3);
    assert_eq!(perft(&mut pos, 1), 14);
    assert_eq!(perft(&mut pos, 2), 191);
    assert_eq!(perft(&mut pos, 3), 2812);
    assert_eq!(perft(&mut pos, 4), 43238);
}

#[test]
fn perft_position_four_and_five() {
    let mut p4 = fen("r3k2r/Pppp1ppp/1b3nbN/nP6/BBP1P3/q4N2/Pp1P2PP/R2Q1RK1 w kq - 0 1");
    assert_eq!(perft(&mut p4, 1), 6);
    assert_eq!(perft(&mut p4, 2), 264);
    assert_eq!(perft(&mut p4, 3), 9467);
    let mut p5 = fen("rnbq1k1r/pp1Pbppp/2p5/8/2B5/8/PPP1NnPP/RNBQK2R w KQ - 1 8");
    assert_eq!(perft(&mut p5, 1), 44);
    assert_eq!(perft(&mut p5, 2), 1486);
    assert_eq!(perft(&mut p5, 3), 62379);
}

#[test]
fn perft_divide_matches_perft() {
    let mut pos = Position::startpos();
    let (counts, total) = perft_divide(&mut pos, 2);
    assert_eq!(counts.len(), 20);
    assert!(counts.iter().all(|(_, n)| *n == 20));
    assert_eq!(total, 400);
    let mut kp = fen(KIWIPETE);
    let (kc, kt) = perft_divide(&mut kp, 3);
    assert_eq!(kc.len(), 48);
    assert_eq!(kc.iter().map(|(_, n)| *n).sum::<u64>(), kt);
    assert_eq!(kt, 97862);
}

#[test]
fn perft_divide_depth_zero_counts_moves() {
    let mut pos = Position::startpos();
    let (counts, total) = perft_divide(&mut pos, 0);
    assert_eq!(counts.len(), 20);
    assert_eq!(total, 20);
    let (counts1, total1) = perft_divide(&mut pos, 1);
    assert_eq!(counts1.len(), 20);
    assert_eq!(total1, 20);
}

#[test]
fn hashcheck_passes() {
    let mut pos = Position::startpos();
    assert!(hashcheck(&mut pos, 3));
    let mut kp = fen(KIWIPETE);
    assert!(hashcheck(&mut kp, 2));
    assert_eq!(kp.to_fen(), KIWIPETE);
}

#[test]
fn startpos_fen_and_hash() {
    let pos = Position::startpos();
    assert_eq!(pos.to_fen(), START);
    assert_eq!(pos.hash, pos.compute_hash());
    let parsed = fen(START);
    assert_eq!(parsed.hash, pos.hash);
    assert_eq!(parsed.to_fen(), START);
}

#[test]
fn fen_roundtrip_examples() {
    for s in [
        START,
        KIWIPETE,
        POS3,
        "rnbqkbnr/ppp1p1pp/8/3pPp2/8/8/PPPP1PPP/RNBQKBNR w KQkq f6 0 3",
        "8/8/8/8/8/8/8/k6K b - - 99 120",
        "r3k2r/8/8/8/8/8/8/R3K2R b Kq - 3 17",
    ] {
        let p = fen(s);
        assert_eq!(p.to_fen(), s);
        assert_eq!(p.hash, p.compute_hash());
    }
}

#[test]
fn fen_defaults_for_short_input() {
    // Only four fields: counters default to 0 and 1.
    let p = fen("8/8/8/8/8/8/8/k6K w - -");
    assert_eq!(p.to_fen(), "8/8/8/8/8/8/8/k6K w - - 0 1");
}

#[test]
fn fen_errors() {
    assert_eq!(Position::from_fen("8/8/8 w").err().unwrap(), "FEN needs at least 4 fields, got 2");
    assert_eq!(Position::from_fen("").err().unwrap(), "FEN needs at least 4 fields, got 0");
    assert_eq!(
        Position::from_fen("rnbqkbnr/ppppxppp/8/8/8/8/PPPPPPPP/RNBQKBNR w KQkq - 0 1").err().unwrap(),
        "bad piece char 'x'"
    );
    assert_eq!(
        Position::from_fen("rnbqkbnr/pppppppp/8/8/8/8/PPPPPPPP/RNBQKBNR x KQkq - 0 1").err().unwrap(),
        "bad side to move"
    );
    assert_eq!(
        Position::from_fen("rnbqkbnr/pppppppp/8/8/8/8/PPPPPPPP/RNBQKBNR w KQzq - 0 1").err().unwrap(),
        "bad castling char 'z'"
    );
    assert_eq!(
        Position::from_fen("rnbqkbnrr/pppppppp/8/8/8/8/PPPPPPPP/RNBQKBNR w KQkq - 0 1").err().unwrap(),
        "FEN piece placement out of bounds"
    );
    let _unused: Option<FenError> = None;
}

#[test]
fn make_unmake_restores_every_move() {
    for s in [START, KIWIPETE, POS3, "rnbqkbnr/ppp1p1pp/8/3pPp2/8/8/PPPP1PPP/RNBQKBNR w KQkq f6 0 3"] {
        let mut pos = fen(s);
        let before_hash = pos.hash;
        let moves = generate_legal(&mut pos);
        for mv in moves {
            let undo = pos.make_move(mv);
            assert_eq!(pos.hash, pos.compute_hash());
            pos.unmake_move(mv, undo);
            assert_eq!(pos.to_fen(), s);
            assert_eq!(pos.hash, before_hash);
        }
    }
}

#[test]
fn make_move_updates_state() {
    let mut pos = Position::startpos();
    let mv = Move::new(12, 28, FLAG_DOUBLE_PAWN);
    let undo = pos.make_move(mv);
    assert_eq!(pos.to_fen(), "rnbqkbnr/pppppppp/8/8/4P3/8/PPPP1PPP/RNBQKBNR b KQkq e3 0 1");
    assert_eq!(undo.castling, 15);
    assert_eq!(undo.halfmove, 0);
    assert!(undo.captured.is_none());
    pos.unmake_move(mv, undo);
    assert_eq!(pos.to_fen(), START);
}

#[test]
fn castling_moves_generated() {
    let mut pos = fen("r3k2r/8/8/8/8/8/8/R3K2R w KQkq - 0 1");
    let list = uci_list(&mut pos);
    assert!(list.contains(&"e1g1".to_string()));
    assert!(list.contains(&"e1c1".to_string()));
    assert_eq!(list.len(), 26);
    let mv = generate_legal(&mut pos).into_iter().find(|m| m.to_uci() == "e1g1").unwrap();
    assert!(mv.is_castle());
    pos.make_move(mv);
    assert_eq!(pos.to_fen(), "r3k2r/8/8/8/8/8/8/R4RK1 b kq - 1 1");
}

#[test]
fn castling_blocked_through_check() {
    // The f1 square is attacked by the rook on f8.
    let mut pos = fen("4kr2/8/8/8/8/8/8/R3K2R w KQ - 0 1");
    let list = uci_list(&mut pos);
    assert!(!list.contains(&"e1g1".to_string()));
    assert!(list.contains(&"e1c1".to_string()));
}

#[test]
fn en_passant_capture() {
    let mut pos = fen("rnbqkbnr/ppp1p1pp/8/3pPp2/8/8/PPPP1PPP/RNBQKBNR w KQkq f6 0 3");
    let mv = generate_legal(&mut pos).into_iter().find(|m| m.to_uci() == "e5f6").unwrap();
    assert!(mv.is_ep());
    assert!(mv.is_capture());
    let undo = pos.make_move(mv);
    assert_eq!(undo.captured, Some(PieceType::Pawn));
    assert_eq!(pos.to_fen(), "rnbqkbnr/ppp1p1pp/5P2/3p4/8/8/PPPP1PPP/RNBQKBNR b KQkq - 0 3");
    pos.unmake_move(mv, undo);
    assert_eq!(pos.to_fen(), "rnbqkbnr/ppp1p1pp/8/3pPp2/8/8/PPPP1PPP/RNBQKBNR w KQkq f6 0 3");
}

#[test]
fn promotions_generated() {
    let mut pos = fen("8/P7/8/8/8/8/8/k6K w - - 0 1");
    let list = uci_list(&mut pos);
    for p in ["a7a8q", "a7a8r", "a7a8b", "a7a8n", "h1g1", "h1g2", "h1h2"] {
        assert!(list.contains(&p.to_string()), "missing {}", p);
    }
    assert_eq!(list.len(), 7);
}

#[test]
fn check_detection() {
    let pos = fen("4k3/8/8/8/8/8/8/4R2K b - - 0 1");
    assert!(pos.in_check(Color::Black));
    assert!(!pos.in_check(Color::White));
    assert_eq!(pos.king_sq(Color::Black), 60);
    assert_eq!(pos.king_sq(Color::White), 7);
    assert!(pos.is_attacked(52, Color::White));
    assert!(!pos.is_attacked(59, Color::White));
    let empty = Position::empty();
    assert_eq!(empty.king_sq(Color::White), 64);
}

#[test]
fn checkmate_and_stalemate_have_no_moves() {
    let mut mate = fen("rnb1kbnr/pppp1ppp/8/4p3/6Pq/5P2/PPPPP2P/RNBQKBNR w KQkq - 1 3");
    assert_eq!(generate_legal(&mut mate).len(), 0);
    assert!(mate.in_check(Color::White));
    let mut stale = fen("7k/5Q2/6K1/8/8/8/8/8 b - - 0 1");
    assert_eq!(generate_legal(&mut stale).len(), 0);
    assert!(!stale.in_check(Color::Black));
}

#[test]
fn move_encoding_roundtrip() {
    let m = Move::new(12, 28, FLAG_DOUBLE_PAWN);
    assert_eq!(m.from(), 12);
    assert_eq!(m.to(), 28);
    assert_eq!(m.flag(), FLAG_DOUBLE_PAWN);
    assert_eq!(m.0, 12 | (28 << 6) | (1 << 12));
    assert_eq!(m.to_uci(), "e2e4");
    assert!(!m.is_capture() && !m.is_promotion() && !m.is_ep() && !m.is_castle());
    let p = Move::new(52, 61, FLAG_PROMO_N_CAP);
    assert!(p.is_capture() && p.is_promotion());
    assert_eq!(p.promo_piece(), Some(PieceType::Knight));
    assert_eq!(p.to_uci(), "e7f8n");
    let q = Move::new(52, 60, FLAG_PROMO_Q);
    assert_eq!(q.to_uci(), "e7e8q");
    assert!(!q.is_capture());
    assert!(Move::new(4, 6, FLAG_KING_CASTLE).is_castle());
    assert!(Move::new(36, 43, FLAG_EP_CAPTURE).is_ep());
    assert!(Move::new(1, 18, FLAG_CAPTURE).is_capture());
    assert!(Move::none().is_none());
    assert!(!Move::new(1, 18, FLAG_QUIET).is_none());
    assert_eq!(Move::none(), Move(0));
}

#[test]
fn square_names() {
    assert_eq!(square_to_string(0), "a1");
    assert_eq!(square_to_string(63), "h8");
    assert_eq!(square_to_string(28), "e4");
    assert_eq!(string_to_square("e4"), Some(28));
    assert_eq!(string_to_square("h8"), Some(63));
    assert_eq!(string_to_square("i1"), None);
    assert_eq!(string_to_square("a9"), None);
    assert_eq!(string_to_square("a10"), None);
    assert_eq!(string_to_square(""), None);
    for sq in 0u8..64 {
        assert_eq!(string_to_square(&square_to_string(sq)), Some(sq));
        assert_eq!(make_square(file_of(sq), rank_of(sq)), sq);
    }
    assert_eq!(file_of(28), 4);
    assert_eq!(rank_of(28), 3);
}

#[test]
fn colors_and_pieces() {
    assert_eq!(Color::White.index(), 0);
    assert_eq!(Color::Black.index(), 1);
    assert_eq!(Color::White.opp(), Color::Black);
    assert_eq!(Color::Black.opp().opp(), Color::Black);
    let letters = ['P', 'N', 'B', 'R', 'Q', 'K'];
    for i in 0..6 {
        let pt = PieceType::from_index(i);
        assert_eq!(pt.index(), i);
        assert_eq!(pt.to_char(), letters[i]);
    }
}

#[test]
fn attack_tables() {
    assert_eq!(knight_attacks(0), (1u64 << 17) | (1u64 << 10));
    assert_eq!(king_attacks(0), (1u64 << 1) | (1u64 << 8) | (1u64 << 9));
    assert_eq!(knight_attacks(27).count_ones(), 8);
    assert_eq!(king_attacks(27).count_ones(), 8);
    assert_eq!(pawn_attacks(Color::White, 12), (1u64 << 19) | (1u64 << 21));
    assert_eq!(pawn_attacks(Color::Black, 12), (1u64 << 3) | (1u64 << 5));
    assert_eq!(pawn_attacks(Color::White, 8), 1u64 << 17);
    assert_eq!(pawn_attacks(Color::White, 60), 0);
    // Rook on a1 on an empty board: the a-file and first rank.
    let file_a: u64 = 0x0101_0101_0101_0101;
    let rank_1: u64 = 0xff;
    assert_eq!(rook_attacks(0, 0), (file_a | rank_1) & !1u64);
    // A blocker on a4 stops the file there (the blocker itself is attacked).
    assert_eq!(rook_attacks(0, 1u64 << 24), ((1u64 << 8) | (1u64 << 16) | (1u64 << 24) | rank_1) & !1u64);
    assert_eq!(bishop_attacks(0, 0), 0x8040_2010_0804_0200);
    assert_eq!(bishop_attacks(27, 0).count_ones(), 13);
    assert_eq!(queen_attacks(27, 0), rook_attacks(27, 0) | bishop_attacks(27, 0));
    assert_eq!(queen_attacks(27, 0).count_ones(), 27);
}

#[test]
fn zobrist_keys_are_fixed() {
    let z = zobrist();
    assert_eq!(piece_key(Color::White, PieceType::Pawn, 0), 0x161922c645ce50e8);
    assert_eq!(piece_key(Color::White, PieceType::Pawn, 1), 0xad760cafa1697b60);
    assert_eq!(castling_key(0), 0x7b5f372c026a38b1);
    assert_eq!(ep_key(0), 0xbc3e7264fa624e1b);
    assert_eq!(side_key(), 0x866ecaecbb85c04c);
    assert_eq!(z.side, 0x866ecaecbb85c04c);
    assert_eq!(z.pieces[0][0][0], 0x161922c645ce50e8);
    assert_eq!(z.pieces[0][0][1], 0xad760cafa1697b60);
    assert_eq!(z.castling[0], 0x7b5f372c026a38b1);
    assert_eq!(z.ep_file[0], 0xbc3e7264fa624e1b);
    assert_eq!(z.pieces[1][5][63], piece_key(Color::Black, PieceType::King, 63));
}

#[test]
fn evaluate_material() {
    assert_eq!(evaluate(&Position::startpos()), 0);
    // White is a queen up; Black to move sees it from its side.
    assert_eq!(evaluate(&fen("4k3/8/8/8/8/8/8/3QK3 w - - 0 1")), 900);
    assert_eq!(evaluate(&fen("4k3/8/8/8/8/8/8/3QK3 b - - 0 1")), -900);
    assert_eq!(evaluate(&fen("4k3/pppppppp/8/8/8/8/8/4K3 w - - 0 1")), -800);
}

#[test]
fn readiness_checks() {
    assert!(perft_ready_check(&Position::startpos()));
    assert!(search_ready_check(&Position::startpos()));
    // The side that just moved is in check: not a position to search.
    assert!(!perft_ready_check(&fen("4k3/8/8/8/8/8/8/4R2K w - - 0 1")));
    // No black king.
    assert!(!perft_ready_check(&fen("8/8/8/8/8/8/8/4K3 w - - 0 1")));
    // Castling rights without the rook.
    assert!(!perft_ready_check(&fen("4k3/8/8/8/8/8/8/4K3 w K - 0 1")));
    // En-passant target without the pawn behind it.
    assert!(!perft_ready_check(&fen("4k3/8/8/8/8/8/8/4K3 w - e6 0 1")));
    // Counters at their end.
    assert!(search_ready_check(&fen("4k3/8/8/8/8/8/8/4K3 w - - 65533 1")));
    assert!(!search_ready_check(&fen("4k3/8/8/8/8/8/8/4K3 w - - 65534 1")));
    assert!(!search_ready_check(&fen("4k3/8/8/8/8/8/8/4K3 w - - 0 65500")));
}

#[test]
fn search_finds_mate_in_one() {
    let mut pos = fen("6k1/5ppp/8/8/8/8/8/R5K1 w - - 0 1");
    let mut s = Search::new(1);
    s.verbose = false;
    let limits = SearchLimits { depth: Some(3), movetime_ms: None, nodes: None };
    let r = s.go(&mut pos, limits, &[]);
    assert_eq!(r.best_move.to_uci(), "a1a8");
    assert_eq!(r.pv[0], r.best_move);
    assert!(r.score >= 100_000 - 128);
    assert_eq!(pos.to_fen(), "6k1/5ppp/8/8/8/8/8/R5K1 w - - 0 1");
    assert!(s.info_log().is_empty());
}

#[test]
fn search_returns_legal_line() {
    let mut pos = fen(KIWIPETE);
    let mut s = Search::new(1);
    s.verbose = true;
    let limits = SearchLimits { depth: Some(3), movetime_ms: None, nodes: None };
    let r = s.go(&mut pos, limits, &[]);
    assert_eq!(r.depth, 3);
    assert_eq!(s.info_log().len(), 3);
    assert!(s.info_log()[0].starts_with("info depth 1 score "));
    assert!(s.info_log()[2].starts_with("info depth 3 score "));
    assert!(!r.best_move.is_none());
    assert_eq!(pos.to_fen(), KIWIPETE);
    // Every move of the principal variation is legal where it is played.
    let mut line = fen(KIWIPETE);
    for mv in &r.pv {
        assert!(generate_legal(&mut line).contains(mv));
        line.make_move(*mv);
    }
}

#[test]
fn search_takes_free_queen() {
    let mut pos = fen("4k3/8/8/3q4/8/8/3R4/4K3 w - - 0 1");
    let mut s = Search::new(1);
    s.verbose = false;
    let r = s.go(&mut pos, SearchLimits { depth: Some(2), movetime_ms: None, nodes: None }, &[]);
    assert_eq!(r.best_move.to_uci(), "d2d5");
}

#[test]
fn search_respects_root_moves() {
    let mut pos = Position::startpos();
    let mut s = Search::new(1);
    s.verbose = false;
    let only = [Move::new(8, 16, FLAG_QUIET)];
    let r = s.go_with_roots(&mut pos, SearchLimits { depth: Some(2), movetime_ms: None, nodes: None }, &[], &only);
    assert_eq!(r.best_move.to_uci(), "a2a3");
}

#[test]
fn search_node_limit_and_depth_zero() {
    let mut pos = Position::startpos();
    let mut s = Search::new(1);
    s.verbose = false;
    let r = s.go(&mut pos, SearchLimits { depth: Some(0), movetime_ms: None, nodes: None }, &[]);
    assert_eq!(r.depth, 0);
    assert!(r.best_move.is_none());
    let r2 = s.go(&mut pos, SearchLimits { depth: Some(5), movetime_ms: None, nodes: Some(1) }, &[]);
    assert_eq!(r2.depth, 1);
    assert!(!r2.best_move.is_none());
    s.clear_tt();
    let d = SearchLimits::default();
    assert_eq!(d.depth, Some(64));
    assert!(d.movetime_ms.is_none() && d.nodes.is_none());
}

#[test]
fn search_sees_repetition_draw() {
    // White is a queen up, but the game history already holds every
    // position White can move to: each reply repeats, so the search scores 0.
    let start = "7k/8/8/8/8/8/8/K6Q w - - 0 1";
    let mut pos = fen(start);
    let mut s = Search::new(1);
    s.verbose = false;
    let deep = SearchLimits { depth: Some(2), movetime_ms: None, nodes: None };
    let free = s.go(&mut pos, deep.clone(), &[]);
    assert!(free.score > 500);
    let mut history = Vec::new();
    for mv in generate_legal(&mut pos) {
        let undo = pos.make_move(mv);
        history.push(pos.hash);
        pos.unmake_move(mv, undo);
    }
    s.clear_tt();
    let drawn = s.go(&mut pos, deep, &history);
    assert_eq!(drawn.score, 0);
    assert_eq!(pos.to_fen(), start);
}

#[test]
fn info_line_format() {
    let pv = vec![Move::new(12, 28, FLAG_DOUBLE_PAWN), Move::new(52, 36, FLAG_DOUBLE_PAWN)];
    assert_eq!(
        info_line(2, 35, 1234, 617000, 2, &pv),
        "info depth 2 score cp 35 nodes 1234 nps 617000 time 2 pv e2e4 e7e5"
    );
    assert_eq!(info_line(1, -20, 5, 5000, 1, &vec![]), "info depth 1 score cp -20 nodes 5 nps 5000 time 1 pv ");
    // Mate in one for the side to move, and being mated in one.
    assert_eq!(info_line(3, 99_999, 7, 7, 1000, &vec![]), "info depth 3 score mate 1 nodes 7 nps 7 time 1000 pv ");
    assert_eq!(info_line(4, -99_998, 7, 7, 1000, &vec![]), "info depth 4 score mate -1 nodes 7 nps 7 time 1000 pv ");
}

#[test]
fn engine_position_and_moves() {
    let mut e = Engine::new();
    assert_eq!(e.fen(), START);
    let r = e.cmd_position(&toks("position startpos moves e2e4 e7e5 g1f3"));
    assert!(matches!(r, PositionReply::Done));
    assert_eq!(e.fen(), "rnbqkbnr/pppp1ppp/8/4p3/4P3/5N2/PPPP1PPP/RNBQKB1R b KQkq - 1 2");
    let r = e.cmd_position(&toks(&format!("position fen {} moves e5f6", "rnbqkbnr/ppp1p1pp/8/3pPp2/8/8/PPPP1PPP/RNBQKBNR w KQkq f6 0 3")));
    assert!(matches!(r, PositionReply::Done));
    assert_eq!(e.fen(), "rnbqkbnr/ppp1p1pp/5P2/3p4/8/8/PPPP1PPP/RNBQKBNR b KQkq - 0 3");
    let r = e.cmd_position(&toks("position fen 8/P7/8/8/8/8/8/k6K w - - 0 1 moves a7a8N"));
    assert!(matches!(r, PositionReply::Done));
    assert_eq!(e.fen(), "N7/8/8/8/8/8/8/k6K b - - 0 1");
}

#[test]
fn engine_position_errors() {
    let mut e = Engine::new();
    let r = e.cmd_position(&toks("position startpos moves e2e4 e2e4 d7d5"));
    match r {
        PositionReply::IllegalMove(t) => assert_eq!(t, "e2e4"),
        _ => panic!("expected an illegal move"),
    }
    assert_eq!(e.fen(), "rnbqkbnr/pppppppp/8/8/4P3/8/PPPP1PPP/RNBQKBNR b KQkq e3 0 1");
    let r = e.cmd_position(&toks("position startpos moves e2"));
    assert!(matches!(r, PositionReply::IllegalMove(_)));
    assert_eq!(e.fen(), START);
    let r = e.cmd_position(&toks("position fen 8/8/8 w"));
    match r {
        PositionReply::BadFen(msg) => assert_eq!(msg, "FEN needs at least 4 fields, got 2"),
        _ => panic!("expected a bad FEN"),
    }
    // The position is left as it was.
    assert_eq!(e.fen(), START);
    let r = e.cmd_position(&toks("position"));
    assert!(matches!(r, PositionReply::Done));
    assert_eq!(e.fen(), START);
}

#[test]
fn engine_parse_move() {
    let mut e = Engine::new();
    assert_eq!(e.parse_move(&"e2e4".to_string()).map(|m| m.to_uci()), Some("e2e4".to_string()));
    assert_eq!(e.parse_move(&"e2e5".to_string()), None);
    assert_eq!(e.parse_move(&"z9e4".to_string()), None);
    assert_eq!(e.parse_move(&"g1f3q".to_string()), None);
    e.cmd_position(&toks("position fen 8/P7/8/8/8/8/8/k6K w - - 0 1"));
    assert_eq!(e.parse_move(&"a7a8".to_string()), None);
    assert_eq!(e.parse_move(&"a7a8r".to_string()).map(|m| m.to_uci()), Some("a7a8r".to_string()));
    assert_eq!(e.parse_move(&"a7a8Q".to_string()).map(|m| m.to_uci()), Some("a7a8q".to_string()));
}

#[test]
fn engine_go_and_options() {
    let mut e = Engine::new();
    e.cmd_setoption(&toks("setoption name Hash value 2"));
    e.cmd_position(&toks("position startpos moves e2e4"));
    let r = e.cmd_go(&toks("go depth 2"));
    assert_eq!(r.depth, 2);
    assert_eq!(e.last_info().len(), 2);
    let mut pos = fen("rnbqkbnr/pppppppp/8/8/4P3/8/PPPP1PPP/RNBQKBNR b KQkq e3 0 1");
    assert!(generate_legal(&mut pos).contains(&r.best_move));
    let r = e.cmd_go(&toks("go depth 2 searchmoves a7a6 h7h6"));
    let best = r.best_move.to_uci();
    assert!(best == "a7a6" || best == "h7h6");
    e.new_game();
    let (o, roots) = e.go_options(&toks("go wtime 60000 btime 50000 winc 1000 binc 500 movestogo 20 nodes 7 searchmoves e7e5 bogus depth 3"));
    assert_eq!(o.wtime, Some(60000));
    assert_eq!(o.btime, Some(50000));
    assert_eq!(o.winc, Some(1000));
    assert_eq!(o.binc, Some(500));
    assert_eq!(o.movestogo, Some(20));
    assert_eq!(o.nodes, Some(7));
    assert_eq!(o.depth, Some(3));
    assert_eq!(roots.len(), 1);
    assert_eq!(roots[0].to_uci(), "e7e5");
    let (o2, _) = e.go_options(&toks("go infinite movetime x"));
    assert_eq!(o2.depth, Some(64));
    assert_eq!(o2.movetime, None);
}

#[test]
fn time_allocation() {
    let base = GoOptions {
        depth: None,
        movetime: None,
        nodes: None,
        wtime: Some(60000),
        btime: Some(30000),
        winc: Some(1000),
        binc: None,
        movestogo: None,
    };
    let w = go_limits(base, Color::White);
    assert_eq!(w.movetime_ms, Some(60000 / 30 + 750));
    assert_eq!(w.depth, None);
    let b = go_limits(base, Color::Black);
    assert_eq!(b.movetime_ms, Some(1000));
    let low = GoOptions { wtime: Some(40), ..base };
    assert_eq!(go_limits(low, Color::White).movetime_ms, Some(10));
    let tight = GoOptions { wtime: Some(100), winc: Some(0), movestogo: Some(0), ..base };
    assert_eq!(go_limits(tight, Color::White).movetime_ms, Some(50));
    let none = GoOptions { wtime: None, btime: None, ..base };
    assert_eq!(go_limits(none, Color::White).depth, Some(64));
    let explicit = GoOptions { depth: Some(7), ..base };
    let l = go_limits(explicit, Color::White);
    assert_eq!(l.depth, Some(7));
    assert_eq!(l.movetime_ms, None);
}

#[test]
fn setoption_ignores_other_options() {
    let mut e = Engine::new();
    e.cmd_setoption(&toks("setoption name Threads value 4"));
    e.cmd_setoption(&toks("setoption name Hash value lots"));
    e.cmd_setoption(&toks("setoption name Hash value 1"));
    e.cmd_position(&toks("position startpos"));
    let r = e.cmd_go(&toks("go depth 1"));
    assert_eq!(r.depth, 1);
}

#[test]
fn engine_refuses_unsearchable_position() {
    let mut e = Engine::new();
    e.cmd_position(&toks("position fen 8/8/8/8/8/8/8/4K3 w - - 0 1"));
    let r = e.cmd_go(&toks("go depth 2"));
    assert!(r.best_move.is_none());
    assert_eq!(r.depth, 0);
}


#[test]
fn uci_text_of_every_legal_move_parses_back() {
    let mut e = Engine::new();
    e.cmd_position(&toks(&format!("position fen {}", KIWIPETE)));
    let mut pos = fen(KIWIPETE);
    for mv in generate_legal(&mut pos) {
        assert_eq!(e.parse_move(&mv.to_uci()), Some(mv));
    }
    e.cmd_position(&toks("position fen 8/P7/8/8/8/8/8/k6K w - - 0 1"));
    let mut promo = fen("8/P7/8/8/8/8/8/k6K w - - 0 1");
    for mv in generate_legal(&mut promo) {
        assert_eq!(e.parse_move(&mv.to_uci()), Some(mv));
    }
}

#[test]
fn fen_roundtrip_along_a_game() {
    let mut pos = fen(KIWIPETE);
    for _ in 0..6 {
        let moves = generate_legal(&mut pos);
        if moves.is_empty() {
            break;
        }
        let mv = moves[moves.len() / 2];
        pos.make_move(mv);
        let text = pos.to_fen();
        let back = fen(&text);
        assert_eq!(back.to_fen(), text);
        assert_eq!(back.hash, pos.hash);
    }
}

#[test]
fn engine_history_records_positions() {
    let mut e = Engine::new();
    e.cmd_position(&toks("position startpos moves g1f3 g8f6 f3g1 f6g8"));
    assert_eq!(e.fen(), "rnbqkbnr/pppppppp/8/8/8/8/PPPPPPPP/RNBQKBNR w KQkq - 4 3");
    // Back at the start position with a history: the search still answers with a legal move.
    let r = e.cmd_go(&toks("go depth 2"));
    let mut pos = Position::startpos();
    assert!(generate_legal(&mut pos).contains(&r.best_move));
}

#[test]
fn search_with_high_halfmove_clock() {
    // A clock of 100 or more makes every position below the root a draw.
    let mut pos = fen("4k3/8/8/8/8/8/8/3QK3 w - - 65533 1");
    let mut s = Search::new(1);
    s.verbose = false;
    let r = s.go(&mut pos, SearchLimits { depth: Some(3), movetime_ms: None, nodes: None }, &[]);
    assert_eq!(r.score, 0);
    assert_eq!(r.depth, 3);
    assert!(!r.best_move.is_none());
}

#[test]
fn empty_position_hash() {
    let empty = Position::empty();
    assert_eq!(empty.hash, empty.compute_hash());
    assert_eq!(empty.hash, 0x7b5f372c026a38b1);
}

#[test]
fn search_scores_mate_and_stalemate_at_root() {
    let mut s = Search::new(1);
    s.verbose = false;
    let limits = SearchLimits { depth: Some(3), movetime_ms: None, nodes: None };
    let mut mated = fen("rnb1kbnr/pppp1ppp/8/4p3/6Pq/5P2/PPPPP2P/RNBQKBNR w KQkq - 1 3");
    let r = s.go(&mut mated, limits.clone(), &[]);
    assert!(r.best_move.is_none());
    assert!(r.pv.is_empty());
    assert_eq!(r.score, -100_000);
    assert_eq!(r.depth, 1);
    assert_eq!(r.nodes, 1);
    let mut stale = fen("7k/5Q2/6K1/8/8/8/8/8 b - - 0 1");
    let r2 = s.go(&mut stale, limits, &[]);
    assert!(r2.pv.is_empty());
    assert_eq!(r2.score, 0);
    assert_eq!(r2.depth, 3);
    assert_eq!(r2.nodes, 3);
}

#[test]
fn legal_moves_come_by_piece_kind() {
    // Pawn moves first, then knight moves, castling last.
    let mut p = Position::startpos();
    let moves = generate_legal(&mut p);
    assert_eq!(moves.len(), 20);
    for m in &moves[..16] {
        assert!(m.from() >= 8 && m.from() < 16);
    }
    for m in &moves[16..] {
        assert!(m.from() == 1 || m.from() == 6);
    }
    let mut c = fen("r3k2r/8/8/8/8/8/8/R3K2R w KQkq - 0 1");
    let cm = generate_legal(&mut c);
    let last = cm[cm.len() - 1];
    let before = cm[cm.len() - 2];
    assert!(last.is_castle() && before.is_castle());
    assert!(!cm[cm.len() - 3].is_castle());
}

#[test]
fn long_fen_is_read() {
    // A placement field padded with many empty-rank runs is still read to the end.
    let mut text = String::from("8/8/8/8/8/8/8/k6K");
    for _ in 0..1000 {
        text.push_str("/8");
    }
    text.push_str(" w - - 0 1");
    // Extra ranks below the first only hold empty squares, so the board is unchanged.
    let p = fen(&text);
    assert_eq!(p.to_fen(), "8/8/8/8/8/8/8/k6K w - - 0 1");
    assert!(Position::from_fen("8/8/8/8/8/8/8/k6K/K w - - 0 1").is_err());
}

#[test]
fn promotions_come_queen_rook_bishop_knight() {
    let mut p = fen("1n6/P7/8/8/8/8/8/k1K5 w - - 0 1");
    let l = uci_list(&mut p);
    assert_eq!(
        &l[..8],
        &["a7a8q", "a7a8r", "a7a8b", "a7a8n", "a7b8q", "a7b8r", "a7b8b", "a7b8n"]
    );
}

#[test]
fn castling_king_side_before_queen_side() {
    let mut p = fen("r3k2r/8/8/8/8/8/8/R3K2R w KQkq - 0 1");
    let l = uci_list(&mut p);
    assert_eq!(&l[l.len() - 2..], &["e1g1", "e1c1"]);
    let mut b = fen("r3k2r/8/8/8/8/8/8/R3K2R b KQkq - 0 1");
    let lb = uci_list(&mut b);
    assert_eq!(&lb[lb.len() - 2..], &["e8g8", "e8c8"]);
}

#[test]
fn root_search_scores_mate_in_one_at_depth_one() {
    let mut s = Search::new(1);
    s.verbose = false;
    let mut p = fen("6k1/5ppp/8/8/8/8/8/R5K1 w - - 0 1");
    let r = s.go_with_roots(&mut p, SearchLimits { depth: Some(1), movetime_ms: None, nodes: None }, &[], &[]);
    assert_eq!(r.best_move.to_uci(), "a1a8");
    assert_eq!(r.score, 100_000 - 1);
    assert_eq!(r.depth, 1);
    assert_eq!(r.pv.len(), 1);
}

#[test]
fn root_list_without_legal_moves_searches_nothing() {
    let mut s = Search::new(1);
    s.verbose = false;
    let mut pos = Position::startpos();
    // e2e5 is no legal move of the start position.
    let only = vec![Move::new(12, 36, 0)];
    let r = s.go_with_roots(&mut pos, SearchLimits { depth: Some(2), movetime_ms: None, nodes: None }, &[], &only);
    assert!(r.best_move.is_none());
    assert!(r.pv.is_empty());
    assert_eq!(r.depth, 1);
}

#[test]
fn divide_follows_generation_order() {
    let mut p = Position::startpos();
    let (counts, total) = perft_divide(&mut p, 2);
    assert_eq!(total, 400);
    let order: Vec<String> = counts.iter().map(|(m, _)| m.to_uci()).collect();
    assert_eq!(order, uci_list(&mut Position::startpos()));
    assert!(counts[..16].iter().all(|(m, _)| m.from() >= 8 && m.from() < 16));
}

#[test]
fn start_moves_in_generation_order() {
    let mut p = Position::startpos();
    let l = uci_list(&mut p);
    let mut expected: Vec<String> = Vec::new();
    for f in ["a", "b", "c", "d", "e", "f", "g", "h"] {
        expected.push(format!("{}2{}3", f, f));
        expected.push(format!("{}2{}4", f, f));
    }
    for m in ["b1a3", "b1c3", "g1f3", "g1h3"] {
        expected.push(m.to_string());
    }
    assert_eq!(l, expected);
}
