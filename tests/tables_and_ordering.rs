use chess::board_state::BoardState;
use chess::move_ordering::{
    add_killer_move, get_history_score, init_history_table, is_killer_move, order_moves, update_history_score,
    KillerMoves,
};
use chess::notation::{coordinates_to_square, move_to_uci, square_to_coordinates, uci_to_move};
use chess::search::{
    find_best_move_iterative_deepening_optimized, legal_moves, minimax_with_quiescence, negamax_root,
    quiescence_search, quiescence_search_enhanced, Engine, INF,
};
use chess::move_execution::{make_move, SearchState};
use chess::timing::{score_after_move, should_start_depth, should_stop_after_depth, UCISearchParams};
use chess::transposition_table::{get_best_move_from_tt, get_tt_move, TranspositionTable, EXACT, LOWER, UPPER};
use chess::types::{BK, BP, BQ, WK, WN, WQ, WR};
use chess::utils::{
    clear_bit, count_bits, get_all_black, get_all_empty, get_all_occupied, get_all_white, get_lsb, get_piece_value,
    is_square_occupied, set_bit,
};
use chess::zobrist::{compute_board_hash, ZobristTables};

fn position(engine: &Engine, pieces: &[(usize, u8)], white_to_move: bool) -> BoardState {
    let mut b = BoardState {
        bitboards: [0u64; 12],
        white_to_move,
        white_kingside_castle: false,
        white_queenside_castle: false,
        black_kingside_castle: false,
        black_queenside_castle: false,
        white_king_in_check: false,
        black_king_in_check: false,
        en_passant_target: None,
    };
    for &(p, s) in pieces {
        b.bitboards[p] |= 1u64 << s;
    }
    b.update_check_status(&engine.tables);
    b
}

#[test]
fn exact_entry_is_returned_at_shallower_depth() {
    let mut tt = TranspositionTable::new(0);
    assert_eq!(tt.size, 1024);
    tt.store(12345, 5, 77, EXACT, (1, 2));
    assert_eq!(tt.probe(12345, 5, -1000, 1000), Some((77, (1, 2))));
    assert_eq!(tt.probe(12345, 3, 500, 600), Some((77, (1, 2))));
    assert_eq!(tt.probe(12345, 6, -1000, 1000), None);
    assert_eq!(tt.probe(12345 + 1024, 1, -1000, 1000), None);
}

#[test]
fn bound_entries_need_a_proven_cutoff() {
    let mut tt = TranspositionTable::new(0);
    tt.store(7, 4, 300, LOWER, (8, 16));
    assert_eq!(tt.probe(7, 4, 0, 250), Some((250, (8, 16))));
    assert_eq!(tt.probe(7, 4, 0, 350), None);
    tt.store(9, 4, -40, UPPER, (8, 16));
    assert_eq!(tt.probe(9, 2, -30, 100), Some((-30, (8, 16))));
    assert_eq!(tt.probe(9, 2, -50, 100), None);
}

#[test]
fn deeper_entry_is_kept() {
    let mut tt = TranspositionTable::new(0);
    tt.store(3, 6, 10, EXACT, (1, 1));
    tt.store(3, 2, 20, EXACT, (2, 2));
    assert_eq!(tt.probe(3, 0, 0, 0), Some((10, (1, 1))));
    tt.store(3 + 1024, 1, 30, EXACT, (3, 3));
    assert_eq!(tt.probe(3 + 1024, 0, 0, 0), Some((30, (3, 3))));
    assert_eq!(get_tt_move(&tt, 3 + 1024), Some((3, 3)));
    assert_eq!(get_tt_move(&tt, 3), None);
    tt.clear();
    assert_eq!(get_tt_move(&tt, 3 + 1024), None);
    assert_eq!(TranspositionTable::new(1).size, 1048576 / 24);
}

#[test]
fn ordering_puts_table_move_first_then_captures() {
    let mut engine = Engine::new(0);
    // white knight b1 (57), white rook a1 (56), black queen b3 (41), kings on e1/e8
    let board = position(&engine, &[(WK, 60), (BK, 4), (WN, 57), (WR, 56), (BQ, 41)], true);
    let hash = compute_board_hash(&engine.zobrist, &board);
    engine.tt.store(hash, 1, 0, EXACT, (60, 61));
    let moves = vec![(57, 42), (60, 59), (56, 48), (60, 61), (56, 41), (57, 51)];
    let ordered = order_moves(&engine.zobrist, &engine.tt, &engine.killers, &engine.history, &board, &moves);
    assert_eq!(ordered.len(), moves.len());
    assert_eq!((ordered[0].1, ordered[0].2), (60, 61));
    assert_eq!(ordered[0].0, 1_000_000);
    // the rook takes the queen: 100000 + 900 * 100 - 500 + 500
    assert_eq!((ordered[1].1, ordered[1].2), (56, 41));
    assert_eq!(ordered[1].0, 190_000);
    for w in ordered.windows(2) {
        assert!(w[0].0 >= w[1].0);
    }
    assert_eq!(get_best_move_from_tt(&engine.zobrist, &board, &engine.tt), Some((60, 61)));
}

#[test]
fn killers_and_history_raise_quiet_moves() {
    let mut engine = Engine::new(0);
    let board = position(&engine, &[(WK, 60), (BK, 4), (WN, 57)], true);
    add_killer_move(&mut engine.killers, 3, 60, 59);
    update_history_score(&mut engine.history, 60, 52, 4);
    let moves = vec![(60, 61), (60, 52), (60, 59), (57, 42)];
    let ordered = order_moves(&engine.zobrist, &engine.tt, &engine.killers, &engine.history, &board, &moves);
    assert_eq!((ordered[0].0, ordered[0].1, ordered[0].2), (80_000, 60, 59));
    assert_eq!((ordered[1].0, ordered[1].1, ordered[1].2), (16, 60, 52));
    assert_eq!(ordered[3].0, 0);
}

#[test]
fn killer_slots_shift() {
    let mut killers = KillerMoves::new();
    assert!(!is_killer_move(&killers, 1, 2, true));
    add_killer_move(&mut killers, 0, 1, 2);
    add_killer_move(&mut killers, 0, 3, 4);
    assert_eq!(killers.slots[0], Some((3, 4)));
    assert_eq!(killers.slots[1], Some((1, 2)));
    add_killer_move(&mut killers, 0, 3, 4);
    assert_eq!(killers.slots[1], Some((1, 2)));
    add_killer_move(&mut killers, 0, 5, 6);
    assert_eq!(killers.slots[1], Some((3, 4)));
    assert!(!is_killer_move(&killers, 1, 2, false));
    add_killer_move(&mut killers, 64, 9, 9);
    assert!(!is_killer_move(&killers, 9, 9, true));
    add_killer_move(&mut killers, 63, 9, 9);
    assert!(is_killer_move(&killers, 9, 9, true));
}

#[test]
fn history_counter_halves_past_cap() {
    let mut h = init_history_table();
    update_history_score(&mut h, 1, 2, 3);
    assert_eq!(get_history_score(&h, 1, 2, true), 9);
    for _ in 0..1000 {
        update_history_score(&mut h, 5, 6, 1000);
    }
    let v = get_history_score(&h, 5, 6, false);
    assert!(v > 0 && v <= 1_000_000);
    h.update(7, 8, 1000);
    assert_eq!(h.get(7, 8), 1_000_000);
    h.update(7, 8, 1);
    assert_eq!(h.get(7, 8), 500_000);
}

#[test]
fn hash_depends_on_every_feature() {
    let engine = Engine::new(0);
    let z = &engine.zobrist;
    let board = BoardState::new(&engine.tables);
    let h = compute_board_hash(z, &board);
    assert_eq!(h, compute_board_hash(z, &board));
    let mut other = board;
    other.white_to_move = false;
    assert_eq!(compute_board_hash(z, &other), h ^ z.black_to_move);
    let mut other = board;
    other.white_kingside_castle = false;
    assert_eq!(compute_board_hash(z, &other), h ^ z.castling_rights[0]);
    let mut other = board;
    other.en_passant_target = Some(44);
    assert_eq!(compute_board_hash(z, &other), h ^ z.en_passant_file[4]);
    let mut other = board;
    other.bitboards[BP] &= !(1u64 << 12);
    assert_eq!(compute_board_hash(z, &other), h ^ z.piece_square[BP * 64 + 12]);
    let fresh = ZobristTables::new();
    assert_eq!(fresh.piece_square.len(), 768);
}

#[test]
fn bit_utilities() {
    let mut b = 0u64;
    set_bit(&mut b, 5);
    set_bit(&mut b, 63);
    assert_eq!(b, (1u64 << 5) | (1u64 << 63));
    assert_eq!(count_bits(b), 2);
    assert_eq!(get_lsb(b), Some(5));
    clear_bit(&mut b, 5);
    assert_eq!(get_lsb(b), Some(63));
    assert_eq!(get_lsb(0), None);
    assert_eq!(count_bits(u64::MAX), 64);
    assert_eq!(get_piece_value(WQ), 900);
    assert_eq!(get_piece_value(BK), 0);
    assert_eq!(get_piece_value(12), 0);
}

#[test]
fn occupancy_of_initial_position() {
    let engine = Engine::new(0);
    let board = BoardState::new(&engine.tables);
    assert_eq!(get_all_white(board.bitboards), 0xffff_0000_0000_0000);
    assert_eq!(get_all_black(board.bitboards), 0x0000_0000_0000_ffff);
    assert_eq!(get_all_occupied(board.bitboards), 0xffff_0000_0000_ffff);
    assert_eq!(get_all_empty(board.bitboards), 0x0000_ffff_ffff_0000);
    assert!(is_square_occupied(&board.bitboards, 0));
    assert!(!is_square_occupied(&board.bitboards, 30));
}

#[test]
fn square_and_move_names() {
    assert_eq!(square_to_coordinates(0), "a8");
    assert_eq!(square_to_coordinates(63), "h1");
    assert_eq!(square_to_coordinates(52), "e2");
    assert_eq!(move_to_uci(52, 36), "e2e4");
    assert_eq!(coordinates_to_square("e2"), Some(52));
    assert_eq!(coordinates_to_square("a8"), Some(0));
    assert_eq!(coordinates_to_square("i2"), None);
    assert_eq!(coordinates_to_square("e"), None);
    assert_eq!(uci_to_move("e2e4"), Some((52, 36)));
    assert_eq!(uci_to_move("e7e8q"), Some((12, 4)));
    assert_eq!(uci_to_move("e2e"), None);
    assert_eq!(uci_to_move("e2e9"), None);
}

#[test]
fn timing_rules() {
    assert!(should_start_depth(0, None, false));
    assert!(!should_start_depth(0, None, true));
    assert!(should_start_depth(100, Some(150), false));
    assert!(!should_start_depth(101, Some(150), false));
    assert!(!should_start_depth(200, Some(150), false));
    assert!(should_stop_after_depth(9001, 0, None, false));
    assert!(should_stop_after_depth(-9001, 0, None, false));
    assert!(!should_stop_after_depth(9000, 10, Some(20), false));
    assert!(should_stop_after_depth(0, 20, Some(20), false));
    assert!(should_stop_after_depth(0, 0, None, true));
}

#[test]
fn score_after_a_move() {
    let engine = Engine::new(0);
    let board = BoardState::new(&engine.tables);
    // e2-e4: the pawn reads entry 11 (50) before and entry 27 (25) after
    assert_eq!(score_after_move(&engine.tables, &board, 52, 36), Some(-25));
    assert_eq!(score_after_move(&engine.tables, &board, 36, 28), None);
}

#[test]
fn quiescence_stands_pat_and_sees_captures() {
    let engine = Engine::new(0);
    // white queen d1 (59) can take an undefended black queen d8 (3)
    let board = position(&engine, &[(WK, 60), (BK, 7), (WQ, 59), (BQ, 3)], true);
    let mut state = SearchState::new(board);
    let q = quiescence_search(&engine, &mut state, -INF, INF, true);
    assert_eq!(q, 875);
    let mut state = SearchState::new(board);
    let qe = quiescence_search_enhanced(&engine, &mut state, -INF, INF, true);
    assert_eq!(q, qe);
    // a window below the stand-pat score cuts off at beta
    let mut state = SearchState::new(board);
    assert_eq!(quiescence_search(&engine, &mut state, -100, -50, true), -50);
}

#[test]
fn negamax_scores_mate_and_stalemate() {
    let mut engine = Engine::new(0);
    let mated = position(&engine, &[(BK, 7), (WQ, 14), (WK, 22)], false);
    assert_eq!(negamax_root(&mut engine, &mated, 2, -INF, INF, 0), -INF);
    assert_eq!(negamax_root(&mut engine, &mated, 1, -INF, INF, 3), i32::MIN + 3);
    let stalemate = position(&engine, &[(BK, 7), (WQ, 13), (WK, 22)], false);
    assert_eq!(negamax_root(&mut engine, &stalemate, 1, -INF, INF, 0), 0);
}

#[test]
fn iterative_deepening_returns_a_legal_move() {
    let mut engine = Engine::new(0);
    let board = BoardState::new(&engine.tables);
    let mv = find_best_move_iterative_deepening_optimized(&mut engine, &board, 2, 0).unwrap();
    assert!(legal_moves(&engine.tables, &board).contains(&mv));
    assert_eq!(find_best_move_iterative_deepening_optimized(&mut engine, &board, 0, 0), None);
    let mut after = board;
    assert!(make_move(&engine.tables, &mut after, mv.0, mv.1).is_some());
}

#[test]
fn fen_fields_build_the_position() {
    let engine = Engine::new(0);
    let start = chess::fen::parse_fen_fields(
        &engine.tables,
        "rnbqkbnr/pppppppp/8/8/8/8/PPPPPPPP/RNBQKBNR",
        Some("w"),
        Some("KQkq"),
        Some("-"),
    )
    .unwrap();
    let initial = BoardState::new(&engine.tables);
    assert_eq!(start.bitboards, initial.bitboards);
    assert!(start.white_to_move);
    assert!(start.white_kingside_castle && start.white_queenside_castle);
    assert!(start.black_kingside_castle && start.black_queenside_castle);
    assert_eq!(start.en_passant_target, None);
    let other = chess::fen::parse_fen_fields(&engine.tables, "7k/6Q1/6K1/8/8/8/8/8", Some("b"), Some("-"), Some("e3"))
        .unwrap();
    assert!(!other.white_to_move);
    assert!(other.black_king_in_check);
    assert!(!other.white_kingside_castle && !other.black_queenside_castle);
    assert_eq!(other.en_passant_target, Some(44));
    assert_eq!(other.bitboards[BK], 1u64 << 7);
    assert_eq!(other.bitboards[WQ], 1u64 << 14);
    assert!(chess::fen::parse_fen_fields(&engine.tables, "8/8/8/8/8/8/8/8X", None, None, None).is_none());
    assert!(chess::fen::parse_fen_fields(&engine.tables, "9P", None, None, None).is_none());
    let missing = chess::fen::parse_fen_fields(&engine.tables, "8/8/8/8/8/8/8/K7", None, None, None).unwrap();
    assert!(missing.white_to_move);
    assert_eq!(missing.bitboards[WK], 1u64 << 56);
    assert_eq!(chess::fen::parse_castling("Kq"), (true, false, false, true));
    assert_eq!(chess::fen::parse_placement("8/8/8/8/8/8/8/7k").unwrap()[BK], 1u64 << 63);
}

#[test]
fn time_limit_of_go_parameters() {
    let mut p = UCISearchParams::new();
    assert_eq!(p.calculate_time_limit(true), None);
    p.wtime = Some(60_000);
    p.winc = Some(1000);
    assert_eq!(p.calculate_time_limit(true), Some((60_000 / 20 + 1000) * 80 / 100));
    assert_eq!(p.calculate_time_limit(false), None);
    p.movestogo = Some(0);
    assert_eq!(p.calculate_time_limit(true), Some((60_000 + 1000) * 80 / 100));
    p.movetime = Some(1234);
    assert_eq!(p.calculate_time_limit(false), Some(1234));
    p.infinite = true;
    assert_eq!(p.calculate_time_limit(true), None);
    let mut q = UCISearchParams::new();
    q.btime = Some(u64::MAX);
    q.movestogo = Some(1);
    assert_eq!(q.calculate_time_limit(false), Some(u64::MAX / 100));
}

#[test]
fn deeper_negamax_on_a_small_position() {
    let mut engine = Engine::new(0);
    // white king e1 (60), white rook a1 (56), white knight b1 (57), black king e8 (4)
    let board = position(&engine, &[(WK, 60), (WR, 56), (WN, 57), (BK, 4)], true);
    let score = negamax_root(&mut engine, &board, 4, -INF, INF, 0);
    assert!(score > 500 && score < INF);
    let mv = find_best_move_iterative_deepening_optimized(&mut engine, &board, 4, 0).unwrap();
    assert!(legal_moves(&engine.tables, &board).contains(&mv));
    let (used_size, used) = engine.tt.stats();
    assert_eq!(used_size, engine.tt.size);
    assert!(used > 0);
}

#[test]
fn iterative_deepening_on_mate_in_one() {
    let mut engine = Engine::new(0);
    let board = position(&engine, &[(BK, 7), (WK, 22), (WQ, 12)], true);
    let mv = find_best_move_iterative_deepening_optimized(&mut engine, &board, 3, 0).unwrap();
    assert!(legal_moves(&engine.tables, &board).contains(&mv));
}

#[test]
fn minimax_with_quiescence_resolves_captures_at_the_horizon() {
    let engine = Engine::new(0);
    let board = position(&engine, &[(WK, 60), (BK, 7), (WQ, 59), (BQ, 3)], true);
    let mut state = SearchState::new(board);
    assert_eq!(minimax_with_quiescence(&engine, &mut state, 0, -INF, INF, true), 875);
    let mated = position(&engine, &[(BK, 7), (WQ, 14), (WK, 22)], false);
    let mut state = SearchState::new(mated);
    assert_eq!(minimax_with_quiescence(&engine, &mut state, 1, i32::MIN, i32::MAX, false), i32::MAX - 1);
}

#[test]
fn xboard_moves_and_table_setup() {
    assert_eq!(chess::notation::parse_xboard_move("d2d4"), Some((51, 35)));
    assert_eq!(chess::notation::parse_xboard_move("e7e8q"), Some((12, 4)));
    assert_eq!(chess::notation::parse_xboard_move("zz"), None);
    let tt = chess::transposition_table::init_transposition_table(0);
    assert_eq!(tt.size, 1024);
    assert_eq!(tt.stats(), (1024, 0));
}

#[test]
fn go_command_parameters() {
    let p = chess::uci::parse_go_command("go depth 6 wtime 60000 btime +5000 winc 100 binc 0 movestogo 30");
    assert_eq!(p.depth, Some(6));
    assert_eq!(p.wtime, Some(60000));
    assert_eq!(p.btime, Some(5000));
    assert_eq!(p.winc, Some(100));
    assert_eq!(p.binc, Some(0));
    assert_eq!(p.movestogo, Some(30));
    assert_eq!(p.movetime, None);
    assert!(!p.infinite);
    let q = chess::uci::parse_go_command("go\tinfinite  movetime 250 depth 300 depth");
    assert!(q.infinite);
    assert_eq!(q.movetime, Some(250));
    assert_eq!(q.depth, None);
    let r = chess::uci::parse_go_command("go depth -1 movestogo 4294967296 wtime 18446744073709551615");
    assert_eq!(r.depth, None);
    assert_eq!(r.movestogo, None);
    assert_eq!(r.wtime, Some(u64::MAX));
    let e = chess::uci::parse_go_command("");
    assert_eq!(e.depth, None);
    assert!(!e.infinite);
}
