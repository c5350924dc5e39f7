use chess::attack_bitboards::{complete_attacks_bitboard, is_check};
use chess::attacks::{get_bishop_attacks, get_queen_attacks, get_rook_attacks, AttackTables};
use chess::board_state::BoardState;
use chess::evaluation::evaluate_board_advanced;
use chess::move_execution::{make_move, unmake_move, SearchState};
use chess::movegen::generate_moves;
use chess::search::{find_best_move, is_move_legal_fast, legal_moves, minimax, Engine, INF};
use chess::types::{create_board, BK, BN, BP, BQ, BR, WK, WN, WP, WQ, WR};
use chess::utils::{get_bit, get_piece_at_square};

fn empty_position(white_to_move: bool) -> BoardState {
    BoardState {
        bitboards: [0u64; 12],
        white_to_move,
        white_kingside_castle: false,
        white_queenside_castle: false,
        black_kingside_castle: false,
        black_queenside_castle: false,
        white_king_in_check: false,
        black_king_in_check: false,
        en_passant_target: None,
    }
}

fn position(tables: &AttackTables, pieces: &[(usize, u8)], white_to_move: bool) -> BoardState {
    let mut b = empty_position(white_to_move);
    for &(p, s) in pieces {
        b.bitboards[p] |= 1u64 << s;
    }
    b.update_check_status(tables);
    b
}

fn same_position(a: &BoardState, b: &BoardState) -> bool {
    a.bitboards == b.bitboards
        && a.white_to_move == b.white_to_move
        && a.white_kingside_castle == b.white_kingside_castle
        && a.white_queenside_castle == b.white_queenside_castle
        && a.black_kingside_castle == b.black_kingside_castle
        && a.black_queenside_castle == b.black_queenside_castle
        && a.white_king_in_check == b.white_king_in_check
        && a.black_king_in_check == b.black_king_in_check
        && a.en_passant_target == b.en_passant_target
}

fn italian_position(tables: &AttackTables) -> BoardState {
    let mut board = BoardState::new(tables);
    for &(f, t) in &[(52u8, 36u8), (12, 28), (62, 45), (1, 18), (61, 34)] {
        assert!(make_move(tables, &mut board, f, t).is_some());
    }
    board
}

#[test]
fn initial_position_has_no_check() {
    let tables = AttackTables::new();
    let board = BoardState::new(&tables);
    assert!(!board.is_white_king_in_check());
    assert!(!board.is_black_king_in_check());
    assert!(!is_check(&tables, create_board(), true));
    assert!(!is_check(&tables, create_board(), false));
}

#[test]
fn rook_on_open_rank_gives_check() {
    let tables = AttackTables::new();
    // black king on h8 (7), white rook on a8 (0), white king on a1 (56)
    let board = position(&tables, &[(BK, 7), (WR, 0), (WK, 56)], false);
    assert!(board.is_black_king_in_check());
    assert!(!board.is_white_king_in_check());
    // a blocker on d8 stops the ray
    let blocked = position(&tables, &[(BK, 7), (WR, 0), (WK, 56), (BN, 3)], false);
    assert!(!blocked.is_black_king_in_check());
}

#[test]
fn initial_white_moves_are_twenty_and_legal() {
    let tables = AttackTables::new();
    let board = BoardState::new(&tables);
    let moves = generate_moves(&tables, board.bitboards, true, &board);
    assert_eq!(moves.len(), 20);
    for &(f, t) in &moves {
        assert!(is_move_legal_fast(&tables, &board, f, t));
    }
    assert_eq!(legal_moves(&tables, &board).len(), 20);
    let black = generate_moves(&tables, board.bitboards, false, &board);
    assert_eq!(black.len(), 20);
}

#[test]
fn pinned_piece_moves_are_illegal() {
    let tables = AttackTables::new();
    // white king e1 (60), white knight e2 (52), black rook e8 (4), black king a8 (0)
    let board = position(&tables, &[(WK, 60), (WN, 52), (BR, 4), (BK, 0)], true);
    assert!(!is_move_legal_fast(&tables, &board, 52, 37));
    assert!(is_move_legal_fast(&tables, &board, 60, 61));
}

#[test]
fn make_unmake_round_trip_restores_every_field() {
    let tables = AttackTables::new();
    for board in [BoardState::new(&tables), italian_position(&tables)] {
        let moves = generate_moves(&tables, board.bitboards, board.white_to_move, &board);
        assert!(!moves.is_empty());
        for &(f, t) in &moves {
            let mut b = board;
            let rec = make_move(&tables, &mut b, f, t).unwrap();
            assert!(!same_position(&b, &board));
            unmake_move(&tables, &mut b, &rec);
            assert!(same_position(&b, &board));
        }
    }
}

#[test]
fn castling_round_trip() {
    let tables = AttackTables::new();
    let mut board = position(&tables, &[(WK, 60), (WR, 63), (WR, 56), (BK, 4)], true);
    board.white_kingside_castle = true;
    board.white_queenside_castle = true;
    let moves = generate_moves(&tables, board.bitboards, true, &board);
    assert!(moves.contains(&(60, 62)));
    assert!(moves.contains(&(60, 58)));
    let mut b = board;
    let rec = make_move(&tables, &mut b, 60, 62).unwrap();
    assert!(rec.castling_move);
    assert!(get_bit(b.bitboards[WK], 62));
    assert!(get_bit(b.bitboards[WR], 61));
    assert!(!get_bit(b.bitboards[WR], 63));
    assert!(!b.white_kingside_castle && !b.white_queenside_castle);
    unmake_move(&tables, &mut b, &rec);
    assert!(same_position(&b, &board));
}

#[test]
fn castling_through_attacked_square_is_not_generated() {
    let tables = AttackTables::new();
    // black rook on f8 (5) attacks f1 (61)
    let mut board = position(&tables, &[(WK, 60), (WR, 63), (BK, 0), (BR, 5)], true);
    board.white_kingside_castle = true;
    let moves = generate_moves(&tables, board.bitboards, true, &board);
    assert!(!moves.contains(&(60, 62)));
}

#[test]
fn make_move_without_piece_fails() {
    let tables = AttackTables::new();
    let mut board = BoardState::new(&tables);
    let before = board;
    assert!(make_move(&tables, &mut board, 35, 27).is_none());
    assert!(make_move(&tables, &mut board, 12, 28).is_none());
    assert!(same_position(&board, &before));
}

#[test]
fn capture_is_recorded_and_restored() {
    let tables = AttackTables::new();
    let board = position(&tables, &[(WK, 60), (WQ, 59), (BK, 4), (BN, 11)], true);
    let mut b = board;
    let rec = make_move(&tables, &mut b, 59, 11).unwrap();
    assert_eq!(rec.captured_piece, Some(BN));
    assert_eq!(b.bitboards[BN], 0);
    assert!(b.black_king_in_check);
    unmake_move(&tables, &mut b, &rec);
    assert!(same_position(&b, &board));
}

#[test]
fn search_state_push_and_pop() {
    let tables = AttackTables::new();
    let board = BoardState::new(&tables);
    let mut state = SearchState::new(board);
    assert!(!state.unmake_move(&tables));
    assert!(state.make_move(&tables, 52, 36));
    assert!(state.make_move(&tables, 12, 28));
    assert_eq!(state.move_history.len(), 2);
    assert!(!state.make_move(&tables, 12, 20));
    assert!(state.unmake_move(&tables));
    assert!(state.unmake_move(&tables));
    assert!(same_position(&state.board, &board));
}

#[test]
fn evaluation_of_initial_position_is_zero() {
    let tables = AttackTables::new();
    let board = BoardState::new(&tables);
    assert_eq!(evaluate_board_advanced(&board), 0);
}

#[test]
fn removing_black_pawn_gains_its_value_and_bonus() {
    let tables = AttackTables::new();
    let mut board = BoardState::new(&tables);
    // e7 is square 12; the pawn table reads 50 there
    board.bitboards[BP] &= !(1u64 << 12);
    assert_eq!(evaluate_board_advanced(&board), 150);
    let mut board2 = BoardState::new(&tables);
    // a pawn the table rates 0: a black pawn moved to a2 (48) and removed
    board2.bitboards[BP] &= !(1u64 << 8);
    board2.bitboards[BP] |= 1u64 << 48;
    let before = evaluate_board_advanced(&board2);
    board2.bitboards[BP] &= !(1u64 << 48);
    assert_eq!(evaluate_board_advanced(&board2) - before, 100 + 5);
}

#[test]
fn mirrored_material_negates_score() {
    let tables = AttackTables::new();
    // kings on e1/e8 read mirrored table entries, rooks too
    let a = position(&tables, &[(WK, 60), (BK, 4), (WR, 56)], true);
    let b = position(&tables, &[(WK, 60), (BK, 4), (BR, 0)], true);
    assert_eq!(evaluate_board_advanced(&a), -evaluate_board_advanced(&b));
    assert_eq!(evaluate_board_advanced(&a), 500);
}

#[test]
fn checkmate_scores_extreme_for_mated_side() {
    let tables = AttackTables::new();
    let engine = Engine::new(1);
    // black king h8 (7), white queen g7 (14) defended by white king g6 (22); black to move
    let board = position(&tables, &[(BK, 7), (WQ, 14), (WK, 22)], false);
    assert!(board.is_black_king_in_check());
    let mut state = SearchState::new(board);
    assert_eq!(minimax(&engine, &mut state, 2, i32::MIN, i32::MAX, false), i32::MAX - 1);
    // white mated: white king h1 (63), black queen g2 (54), black king g3 (46)
    let board = position(&tables, &[(WK, 63), (BQ, 54), (BK, 46)], true);
    let mut state = SearchState::new(board);
    assert_eq!(minimax(&engine, &mut state, 1, i32::MIN, i32::MAX, true), i32::MIN + 1);
}

#[test]
fn stalemate_scores_zero() {
    let tables = AttackTables::new();
    let engine = Engine::new(1);
    // black king h8 (7), white queen f7 (13), white king g6 (22); black to move, not in check
    let board = position(&tables, &[(BK, 7), (WQ, 13), (WK, 22)], false);
    assert!(!board.is_black_king_in_check());
    assert!(legal_moves(&tables, &board).is_empty());
    let mut state = SearchState::new(board);
    assert_eq!(minimax(&engine, &mut state, 3, i32::MIN, i32::MAX, false), 0);
    assert_eq!(find_best_move(&engine, &board, 2), None);
}

#[test]
fn find_best_move_from_initial_position() {
    let engine = Engine::new(1);
    let board = BoardState::new(&engine.tables);
    let mv = find_best_move(&engine, &board, 1).unwrap();
    let legal = legal_moves(&engine.tables, &board);
    assert!(legal.contains(&mv));
}

#[test]
fn find_best_move_finds_mate_in_one() {
    let engine = Engine::new(1);
    // black king h8 (7), white king g6 (22), white queen e7 (12); white to move
    let board = position(&engine.tables, &[(BK, 7), (WK, 22), (WQ, 12)], true);
    let (f, t) = find_best_move(&engine, &board, 2).unwrap();
    let mut after = board;
    make_move(&engine.tables, &mut after, f, t).unwrap();
    assert!(after.black_king_in_check);
    assert!(legal_moves(&engine.tables, &after).is_empty());
}

#[test]
fn slider_rays_stop_at_blockers() {
    // rook on a8 (0) with a blocker on d8 (3): b8, c8, d8 and the a-file
    let r = get_rook_attacks(0, 1u64 << 3);
    assert!(get_bit(r, 1) && get_bit(r, 2) && get_bit(r, 3));
    assert!(!get_bit(r, 4));
    assert!(get_bit(r, 56));
    assert_eq!(r.count_ones(), 3 + 7);
    // bishop on d4 (35) on an empty board sees 13 squares
    assert_eq!(get_bishop_attacks(35, 0).count_ones(), 13);
    assert_eq!(get_queen_attacks(35, 0).count_ones(), 27);
}

#[test]
fn attack_tables_hold_expected_counts() {
    let tables = AttackTables::new();
    assert_eq!(tables.knight[0].count_ones(), 2);
    assert_eq!(tables.knight[35].count_ones(), 8);
    assert_eq!(tables.king[0].count_ones(), 3);
    assert_eq!(tables.king[35].count_ones(), 8);
    // a white pawn on e2 (52) attacks d3 (43) and f3 (45)
    assert_eq!(tables.white_pawn[52], (1u64 << 43) | (1u64 << 45));
    // a black pawn on e7 (12) attacks d6 (19) and f6 (21)
    assert_eq!(tables.black_pawn[12], (1u64 << 19) | (1u64 << 21));
    assert_eq!(tables.white_pawn[0], 0);
}

#[test]
fn complete_attacks_of_initial_position() {
    let tables = AttackTables::new();
    let board = create_board();
    let white = complete_attacks_bitboard(&tables, &board, true);
    // the whole third rank (40..48) is attacked by White
    for s in 40..48u8 {
        assert!(get_bit(white, s));
    }
    assert!(!get_bit(white, 32));
    let black = complete_attacks_bitboard(&tables, &board, false);
    for s in 16..24u8 {
        assert!(get_bit(black, s));
    }
}

#[test]
fn pawn_captures_and_double_push() {
    let tables = AttackTables::new();
    // white pawn e2 (52), black knight d3 (43), kings far away
    let board = position(&tables, &[(WP, 52), (BN, 43), (WK, 63), (BK, 0)], true);
    let moves = generate_moves(&tables, board.bitboards, true, &board);
    assert!(moves.contains(&(52, 44)));
    assert!(moves.contains(&(52, 36)));
    assert!(moves.contains(&(52, 43)));
    // a blocked pawn has no push
    let blocked = position(&tables, &[(WP, 52), (BN, 44), (WK, 63), (BK, 0)], true);
    let moves = generate_moves(&tables, blocked.bitboards, true, &blocked);
    assert!(!moves.iter().any(|&(f, _)| f == 52));
    assert_eq!(get_piece_at_square(&board.bitboards, 43), Some(BN));
}

#[test]
fn black_pawn_moves() {
    let tables = AttackTables::new();
    let board = position(&tables, &[(BP, 12), (WN, 21), (WK, 63), (BK, 0)], false);
    let moves = generate_moves(&tables, board.bitboards, false, &board);
    assert!(moves.contains(&(12, 20)));
    assert!(moves.contains(&(12, 28)));
    assert!(moves.contains(&(12, 21)));
    assert!(!moves.contains(&(12, 19)));
}

#[test]
fn queen_mate_in_one_from_fen() {
    let engine = Engine::new(0);
    let board = chess::fen::parse_fen_fields(&engine.tables, "7k/8/5K2/8/8/8/8/6Q1", Some("w"), Some("-"), Some("-"))
        .unwrap();
    assert_eq!(find_best_move(&engine, &board, 2), Some((62, 14)));
}

#[test]
fn initial_moves_are_distinct() {
    let tables = AttackTables::new();
    let board = BoardState::new(&tables);
    let moves = generate_moves(&tables, board.bitboards, true, &board);
    for s in 48..56u8 {
        assert!(moves.contains(&(s, s - 8)));
        assert!(moves.contains(&(s, s - 16)));
    }
    for m in [(57u8, 40u8), (57, 42), (62, 45), (62, 47)] {
        assert!(moves.contains(&m));
    }
    let mut sorted = moves.clone();
    sorted.sort();
    sorted.dedup();
    assert_eq!(sorted.len(), 20);
}
