use chess_engine::bitboard::Bitboard;
use chess_engine::board::Board;
use chess_engine::castle_rights::{CastleRights, BLACK, WHITE};
use chess_engine::chess_move::{Move, SpecialMove};
use chess_engine::piece::Piece;
use chess_engine::position::Position;

fn snapshot(b: &Board) -> ([u64; 12], bool, u64, u8, u16, CastleRights, u64) {
    let mut pieces = [0u64; 12];
    for (i, p) in b.piece_boards.iter().enumerate() {
        pieces[i] = p.get_bits();
    }
    (
        pieces,
        b.turn,
        b.en_passant.get_bits(),
        b.halfmove_count,
        b.fullmove_count,
        b.castle_rights,
        b.zobrist_key(),
    )
}

fn has_move(moves: &[Move], text: &str) -> bool {
    moves.iter().any(|m| m.to_string() == text)
}

const KIWIPETE: &str = "r3k2r/p1ppqpb1/bn2pnp1/3PN3/1p2P3/2N2Q1p/PPPBBPPP/R3K2R w KQkq - 0 1";

#[test]
fn apply_then_undo_restores_every_field() {
    let mut board = Board::from_fen(KIWIPETE).unwrap();
    let moves = board.generate_moves(board.turn);
    assert_eq!(moves.len(), 48);
    for m in moves {
        let before = snapshot(&board);
        board.commit_verified_move(m);
        assert_ne!(snapshot(&board), before);
        board.unmake_move();
        assert_eq!(snapshot(&board), before, "move {}", m.to_string());
        assert_eq!(board.history_len(), 0);
    }
}

#[test]
fn hash_matches_recomputation_through_applies_and_undos() {
    let mut board = Board::new_start_pos().unwrap();
    let start_hash = board.zobrist_key();
    assert_eq!(start_hash, board.recompute_hash());
    let line = ["e2e4", "d7d5", "e4d5", "g8f6", "f1b5", "c7c6", "d5c6", "d8a5", "c6b7", "e8d8", "b7a8n"];
    for text in line.iter() {
        assert!(board.play_string_move(text), "{}", text);
        assert_eq!(board.zobrist_key(), board.recompute_hash(), "after {}", text);
    }
    assert_eq!(board.history_len(), line.len());
    for _ in 0..line.len() {
        board.unmake_move();
        assert_eq!(board.zobrist_key(), board.recompute_hash());
    }
    assert_eq!(board.zobrist_key(), start_hash);
}

#[test]
fn en_passant_removes_the_adjacent_pawn() {
    let mut board = Board::from_fen("4k3/8/8/3pP3/8/8/8/4K3 w - d6 0 1").unwrap();
    let moves = board.generate_moves(board.turn);
    let ep: Vec<&Move> = moves
        .iter()
        .filter(|m| m.get_special_move() == SpecialMove::EnPassant)
        .collect();
    assert_eq!(ep.len(), 1);
    assert_eq!(ep[0].to_string(), "e5d6");
    assert!(board.play_string_move("e5d6"));
    // d5 (index 35) is emptied, d6 (index 43) holds the capturing pawn.
    assert_eq!(board.get_piece_at(Position::new(35)), None);
    assert_eq!(board.get_piece_at(Position::new(43)), Some((Piece::Pawn, WHITE)));
    assert_eq!(board.get_piece_at(Position::new(36)), None);
    board.unmake_move();
    assert_eq!(board.get_piece_at(Position::new(35)), Some((Piece::Pawn, BLACK)));
    assert_eq!(board.get_piece_at(Position::new(36)), Some((Piece::Pawn, WHITE)));
}

#[test]
fn double_push_sets_the_passed_cell() {
    let mut board = Board::new_start_pos().unwrap();
    assert!(board.play_string_move("e2e4"));
    assert_eq!(board.en_passant.get_bits(), 1u64 << 20);
    assert!(board.play_string_move("g8f6"));
    assert_eq!(board.en_passant.get_bits(), 0);
}

#[test]
fn castles_generated_when_allowed() {
    let board = Board::from_fen("r3k2r/8/8/8/8/8/8/R3K2R w KQkq - 0 1").unwrap();
    let moves = board.generate_moves(board.turn);
    assert!(has_move(&moves, "e1g1"));
    assert!(has_move(&moves, "e1c1"));
}

#[test]
fn no_castle_while_in_check() {
    let board = Board::from_fen("r3k2r/8/8/4q3/8/8/8/R3K2R w KQkq - 0 1").unwrap();
    assert!(board.in_check(WHITE));
    let moves = board.generate_moves(board.turn);
    assert!(!has_move(&moves, "e1g1"));
    assert!(!has_move(&moves, "e1c1"));
}

#[test]
fn no_castle_through_an_occupied_cell() {
    let board = Board::from_fen("r3k2r/8/8/8/8/8/8/RN2K2R w KQkq - 0 1").unwrap();
    let moves = board.generate_moves(board.turn);
    assert!(!has_move(&moves, "e1c1"));
    assert!(has_move(&moves, "e1g1"));
}

#[test]
fn no_castle_across_an_attacked_transit_cell() {
    let board = Board::from_fen("r3kr2/8/8/8/8/8/8/R3K2R w KQq - 0 1").unwrap();
    let moves = board.generate_moves(board.turn);
    assert!(!has_move(&moves, "e1g1"));
    assert!(has_move(&moves, "e1c1"));
}

#[test]
fn castling_moves_the_rook_and_clears_rights() {
    let mut board = Board::from_fen("r3k2r/8/8/8/8/8/8/R3K2R w KQkq - 0 1").unwrap();
    assert!(board.play_string_move("e1g1"));
    assert_eq!(board.get_piece_at(Position::new(5)), Some((Piece::Rook, WHITE)));
    assert_eq!(board.get_piece_at(Position::new(6)), Some((Piece::King, WHITE)));
    assert_eq!(board.get_piece_at(Position::new(7)), None);
    assert!(!board.castle_rights.can_castle(WHITE, true));
    assert!(!board.castle_rights.can_castle(WHITE, false));
    assert!(board.castle_rights.can_castle(BLACK, true));
}

#[test]
fn capturing_on_a_rook_cell_clears_the_enemy_right() {
    let mut board = Board::from_fen("r3k2r/8/8/8/8/8/8/R3K2R w KQkq - 0 1").unwrap();
    assert!(board.play_string_move("h1h8"));
    assert!(!board.castle_rights.can_castle(BLACK, true));
    assert!(board.castle_rights.can_castle(BLACK, false));
    assert!(!board.castle_rights.can_castle(WHITE, true));
    assert_eq!(board.halfmove_count, 0);
}

#[test]
fn no_destination_on_own_pieces() {
    for fen in [KIWIPETE, "rnbqkbnr/pppppppp/8/8/8/8/PPPPPPPP/RNBQKBNR w KQkq - 0 1"] {
        let board = Board::from_fen(fen).unwrap();
        let own = board.player_boards[0];
        for m in board.generate_moves(board.turn) {
            assert!(!own.is_square_set(m.get_dest().as_usize()), "{}", m.to_string());
        }
    }
}

#[test]
fn legal_moves_never_leave_the_king_attacked() {
    // The white bishop on d2 is pinned against its king by the bishop on b4.
    let board = Board::from_fen("4k3/8/8/8/1b6/8/3B4/4K3 w - - 0 1").unwrap();
    let moves = board.generate_moves(board.turn);
    for m in moves.iter() {
        assert!(!board.would_check(*m));
        let mut copy = board.probe_copy();
        copy.commit_verified_move(*m);
        assert!(!copy.in_check(WHITE), "{}", m.to_string());
    }
    // The pinned bishop may only move along the pin.
    assert!(has_move(&moves, "d2c3"));
    assert!(!has_move(&moves, "d2e3"));
}

#[test]
fn illegal_notation_leaves_the_board_unchanged() {
    let mut board = Board::new_start_pos().unwrap();
    let before = snapshot(&board);
    assert!(!board.play_string_move("e2e5"));
    assert!(!board.play_string_move("e2"));
    assert!(!board.play_string_move("z2e4"));
    assert!(!board.play_string_move("e2e4x"));
    assert!(!board.play_string_move("e7e5"));
    assert_eq!(snapshot(&board), before);
}

#[test]
fn promotion_by_notation() {
    let mut board = Board::from_fen("8/4P3/8/8/8/8/k7/4K3 w - - 0 1").unwrap();
    let moves = board.generate_moves(board.turn);
    assert!(has_move(&moves, "e7e8q"));
    assert!(has_move(&moves, "e7e8n"));
    assert!(board.play_string_move("e7e8n"));
    assert_eq!(board.get_piece_at(Position::new(60)), Some((Piece::Knight, WHITE)));
    board.unmake_move();
    assert_eq!(board.get_piece_at(Position::new(52)), Some((Piece::Pawn, WHITE)));
    assert!(board.play_string_move("e7e8"));
    assert_eq!(board.get_piece_at(Position::new(60)), Some((Piece::Queen, WHITE)));
}

#[test]
fn counters_follow_the_moves() {
    let mut board = Board::new_start_pos().unwrap();
    assert!(board.play_string_move("g1f3"));
    assert_eq!(board.halfmove_count, 1);
    assert_eq!(board.fullmove_count, 2);
    assert!(board.play_string_move("e7e5"));
    assert_eq!(board.halfmove_count, 0);
    assert_eq!(board.turn, WHITE);
}

#[test]
fn fen_errors() {
    assert!(Board::from_fen("8/8/8 w - - 0 1").is_err());
    assert!(Board::from_fen("8/8/8/8/8/8/8/8 x - - 0 1").is_err());
    assert!(Board::from_fen("8/8/8/8/8/8/8/8 w X - 0 1").is_err());
    assert!(Board::from_fen("8/8/8/8/8/8/8/8 w - z9 0 1").is_err());
    assert!(Board::from_fen("8/8/8/8/8/8/8/8 w - - a 1").is_err());
    assert!(Board::from_fen("8/8/8/8/8/8/8/8 w - - 0 b").is_err());
    assert!(Board::from_fen("8/8/8/8/8/8/8/8/8 w - - 0 1").is_err());
    assert!(Board::from_fen("9/8/8/8/8/8/8/8 w - - 0 1").is_err());
    assert!(Board::from_fen("x7/8/8/8/8/8/8/8 w - - 0 1").is_err());
    assert!(Board::from_fen("8/8/8/8/8/8/8/8 w - - 0 1").is_ok());
}

#[test]
fn move_codes_and_text() {
    let m = Move::new_default(Position::new(12), Position::new(28));
    assert_eq!(m.get_raw(), 28 | (12 << 6));
    assert_eq!(m.to_string(), "e2e4");
    assert_eq!(m.get_special_move(), SpecialMove::NormalMove);
    assert_eq!(m.get_promotion(), Piece::Queen);
    let promos = Move::new_promote(Position::new(52), Position::new(60));
    assert_eq!(promos[0].to_string(), "e7e8n");
    assert_eq!(promos[1].to_string(), "e7e8b");
    assert_eq!(promos[2].to_string(), "e7e8r");
    assert_eq!(promos[3].to_string(), "e7e8q");
    let c = Move::new_castle(false, BLACK);
    assert_eq!(c.to_string(), "e8c8");
    assert_eq!(c.get_special_move(), SpecialMove::Castle);
    let raw = Move::make_raw(0xC000 | 0x2000 | (52 << 6) | 60);
    assert_eq!(raw.get_promotion(), Piece::Bishop);
    assert_eq!(raw.get_org_and_dest().0.as_usize(), 52);
}

#[test]
fn positions_and_notation() {
    let p = Position::from_file_and_rank(4, 3);
    assert_eq!(p.as_usize(), 28);
    assert_eq!(p.get_file_and_rank(), (4, 3));
    assert_eq!(p.algebraic_notation(), "e4");
    assert_eq!(Position::new(63).algebraic_notation(), "h8");
    assert_eq!(p.try_offset(8).map(|q| q.as_usize()), Some(36));
    assert_eq!(Position::new(60).try_offset(8), None);
    assert_eq!(p.try_rank_file_offset(4, 0), None);
    assert_eq!(p.try_rank_file_offset(-1, 1).map(|q| q.as_usize()), Some(35));
    assert_eq!(p.bitboard().get_bits(), 1 << 28);
    assert_eq!(Position::from_text(b"a1").map(|q| q.as_usize()), Ok(0));
    assert!(Position::from_text(b"a9").is_err());
    assert!(Position::from_text(b"i1").is_err());
    assert_eq!(Position::generate_all_pos()[17].as_usize(), 17);
    assert_eq!(usize::from(Position::new(9)), 9);
}

#[test]
fn castle_rights_flags() {
    let mut cr = CastleRights::make(true, false, true, false);
    assert!(cr.can_castle(WHITE, true));
    assert!(!cr.can_castle(WHITE, false));
    assert!(cr.castle_at_index(2));
    cr.remove_castle_right(BLACK, true);
    assert!(!cr.can_castle(BLACK, true));
    assert!(cr.can_castle(WHITE, true));
    let all = CastleRights::make_default();
    assert!((0..4).all(|i| all.castle_at_index(i)));
}

#[test]
fn piece_letters() {
    assert_eq!(Piece::Knight.to_notation(), "n");
    assert_eq!(Piece::NoPiece.to_notation(), "-");
    assert_eq!(Piece::from_letter(b'Q'), Ok(Piece::Queen));
    assert!(Piece::from_letter(b'x').is_err());
    assert_eq!(Piece::from(4usize), Piece::King);
    assert_eq!(Piece::from(9usize), Piece::NoPiece);
}

#[test]
fn attack_queries() {
    let board = Board::new_start_pos().unwrap();
    assert!(!board.in_check(WHITE));
    assert!(board.tile_under_attack(Position::new(20), WHITE));
    assert!(!board.tile_under_attack(Position::new(36), WHITE));
    let bb = board.get_piece_bitboard(Piece::Pawn, WHITE);
    assert_eq!(bb, Bitboard::from_u64(0xFF00));
}

#[test]
fn fen_field_count_error_is_descriptive() {
    let r = Board::from_fen("rnbqkbnr/pppppppp/8/8/8/8/PPPPPPPP/RNBQKBNR w KQkq - 0");
    assert_eq!(r.err(), Some("FEN must have 6 fields".to_string()));
}

#[test]
fn fen_dash_castling_gives_no_rights() {
    let b = Board::from_fen("8/2p5/3p4/KP5r/1R3p1k/8/4P1P1/8 w - - 0 1").unwrap();
    assert_eq!(b.turn, WHITE);
    assert!(b.en_passant.is_empty());
    assert!((0..4).all(|i| !b.castle_rights.castle_at_index(i)));
    assert_eq!(b.halfmove_count, 0);
    assert_eq!(b.fullmove_count, 1);
}

#[test]
fn start_position_layout() {
    let b = Board::new_start_pos().unwrap();
    assert_eq!(b.turn, WHITE);
    assert!(b.en_passant.is_empty());
    assert_eq!(b.halfmove_count, 0);
    assert_eq!(b.fullmove_count, 1);
    assert_eq!((!b.empty_tiles).get_bits(), 0xFFFF00000000FFFF);
    assert_eq!(b.get_piece_at(Position::new(4)), Some((Piece::King, WHITE)));
    assert_eq!(b.get_piece_at(Position::new(59)), Some((Piece::Queen, BLACK)));
    assert!((0..4).all(|i| b.castle_rights.castle_at_index(i)));
    let from_text =
        Board::from_fen("rnbqkbnr/pppppppp/8/8/8/8/PPPPPPPP/RNBQKBNR w KQkq - 0 1").unwrap();
    assert_eq!(from_text.zobrist_key(), b.zobrist_key());
}

#[test]
fn legal_moves_are_sorted_and_distinct() {
    let board = Board::from_fen(KIWIPETE).unwrap();
    let moves = board.generate_moves(board.turn);
    for w in moves.windows(2) {
        assert!(w[0].get_raw() < w[1].get_raw());
    }
}
