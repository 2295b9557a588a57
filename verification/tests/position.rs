use chess_core::bitboard::Bitboard;
use chess_core::color::Color;
use chess_core::movegen::generate::{
    all_sliders_at_once, bishop_moves, legal, pseudo_legal, queen_moves, rook_moves,
};
use chess_core::movegen::{Move, MoveKind, MoveList};
use chess_core::perft::{perft, perft_divide};
use chess_core::piece::{Piece, PieceType};
use chess_core::position::{CastleFlag, Position, State};
use chess_core::precompute::Tables;
use chess_core::square::Square;

fn bb(squares: &[Square]) -> Bitboard {
    let mut out = Bitboard::new(0);
    for &s in squares {
        out = out.bitor(Bitboard::from_square(s));
    }
    out
}

fn moves_of(pos: &Position, tables: &Tables) -> Vec<String> {
    let list = legal(pos, tables);
    let mut out = Vec::new();
    for i in 0..list.len() {
        out.push(list.get(i).unwrap().to_uci());
    }
    out.sort();
    out
}

/// Everything that can be seen of a position from outside.
fn snapshot(pos: &Position) -> (String, Color, i32, Vec<u64>, Option<Piece>, Option<Square>, u8, i32) {
    let st: &State = pos.state();
    let mut boards = vec![pos.all().into_inner(), st.checkers.into_inner()];
    for c in [Color::White, Color::Black] {
        boards.push(pos.color(c).into_inner());
        boards.push(pos.pinners(c).into_inner());
        boards.push(pos.blockers(c).into_inner());
    }
    for t in [
        PieceType::Pawn,
        PieceType::Knight,
        PieceType::Bishop,
        PieceType::Rook,
        PieceType::Queen,
        PieceType::King,
    ] {
        boards.push(pos.pieces(t).into_inner());
    }
    (
        pos.render(),
        pos.to_move(),
        pos.ply(),
        boards,
        st.captured,
        st.en_passant,
        st.castle_rights,
        st.halfmoves,
    )
}

/// Walks the tree of legal moves and checks at every node that taking a move back
/// restores the position, and that no more than two pieces give check.
fn walk(pos: &mut Position, tables: &Tables, depth: usize) -> usize {
    assert!(pos.checkers().popcount() <= 2);
    assert_eq!(pos.in_check(), pos.checkers().nonzero());
    if depth == 0 {
        return 1;
    }
    let before = snapshot(pos);
    let list = legal(pos, tables);
    let mut nodes = 0;
    for i in 0..list.len() {
        let m = list.get(i).unwrap();
        assert!(pos.is_pseudo_legal(m, tables));
        assert!(pos.is_legal(m, tables));
        pos.make_move(m, tables);
        assert_eq!(pos.ply(), before.2 + 1);
        assert_eq!(pos.to_move(), before.1.not());
        nodes += walk(pos, tables, depth - 1);
        pos.unmake_move(m);
        assert_eq!(snapshot(pos), before);
    }
    nodes
}

#[test]
fn unmake_restores_the_position_from_the_start() {
    let tables = Tables::new();
    let mut pos = Position::parse_fen(Position::STARTING_FEN, &tables).unwrap();
    assert_eq!(walk(&mut pos, &tables, 3), 8902);
}

#[test]
fn unmake_restores_the_position_with_special_moves() {
    let tables = Tables::new();
    let mut pos = Position::parse_fen(Position::KIWIPETE_FEN, &tables).unwrap();
    assert_eq!(walk(&mut pos, &tables, 2), 2039);
    let promotions = "rnbq1k1r/pp1Pbppp/2p5/8/2B5/8/PPP1NnPP/RNBQK2R w KQ - 1 8";
    let mut pos = Position::parse_fen(promotions, &tables).unwrap();
    assert_eq!(walk(&mut pos, &tables, 3), 62379);
    let en_passant = "8/2p5/3p4/KP5r/1R3p1k/8/4P1P1/8 w - -";
    let mut pos = Position::parse_fen(en_passant, &tables).unwrap();
    assert_eq!(walk(&mut pos, &tables, 4), 43238);
}

#[test]
fn more_perft_positions() {
    let tables = Tables::new();
    let cases = [
        (
            "r3k2r/Pppp1ppp/1b3nbN/nP6/BBP1P3/q4N2/Pp1P2PP/R2Q1RK1 w kq - 0 1",
            [6, 264, 9467],
        ),
        (
            "rnbq1k1r/pp1Pbppp/2p5/8/2B5/8/PPP1NnPP/RNBQK2R w KQ - 1 8",
            [44, 1486, 62379],
        ),
        (
            "r6r/pp1k2pp/3bp1q1/2p2nB1/3p2Q1/1N1P3P/PPP2PP1/R3R1K1 b - - 0 15",
            [43, 1916, 77347],
        ),
        (
            "3r1rk1/1p2b1p1/n2pp1np/4p3/1P2P3/2q1NNB1/Q4PPP/R2R2K1 w - - 0 22",
            [44, 1935, 81291],
        ),
    ];
    for (fen, counts) in cases {
        let mut pos = Position::parse_fen(fen, &tables).unwrap();
        for (i, expected) in counts.iter().enumerate() {
            assert_eq!(perft(&mut pos, &tables, i + 1), *expected, "{fen} at depth {}", i + 1);
        }
    }
}

#[test]
fn perft_of_depth_zero_is_one() {
    let tables = Tables::new();
    let mut pos = Position::parse_fen(Position::STARTING_FEN, &tables).unwrap();
    assert_eq!(perft(&mut pos, &tables, 0), 1);
}

#[test]
fn perft_by_move_adds_up() {
    let tables = Tables::new();
    let mut pos = Position::parse_fen(Position::KIWIPETE_FEN, &tables).unwrap();
    let parts = perft_divide(&mut pos, &tables, 3);
    assert_eq!(parts.len(), 48);
    assert_eq!(parts.iter().map(|p| p.1).sum::<usize>(), 97862);
    let castle = parts.iter().find(|p| p.0.to_uci() == "e1g1").unwrap();
    assert_eq!(castle.0.kind(), MoveKind::Castle);
    assert_eq!(castle.1, 2059);
}

#[test]
fn new_position_is_empty() {
    let pos = Position::new();
    assert_eq!(pos.to_move(), Color::White);
    assert_eq!(pos.ply(), 0);
    assert!(pos.all().zero());
    assert_eq!(pos.ep(), None);
    assert_eq!(pos.rule50(), 0);
    assert!(!pos.in_check());
    assert!(!pos.has_castle(CastleFlag::WhiteShort));
    for i in 0..64u8 {
        assert!(pos.empty(Square::from_index(i)));
        assert_eq!(pos.piece_on(Square::from_index(i)), None);
    }
}

#[test]
fn pieces_are_added_removed_and_moved() {
    let tables = Tables::new();
    let mut pos = Position::new();
    let king = Piece::new(PieceType::King, Color::White);
    let other = Piece::new(PieceType::King, Color::Black);
    let rook = Piece::new(PieceType::Rook, Color::Black);
    pos.add_piece(king, Square::E1);
    pos.add_piece(other, Square::E8);
    pos.add_piece(rook, Square::E5);
    assert_eq!(pos.piece_on(Square::E5), Some(rook));
    assert_eq!(pos.all(), bb(&[Square::E1, Square::E5, Square::E8]));
    assert_eq!(pos.color(Color::Black), bb(&[Square::E5, Square::E8]));
    assert_eq!(pos.pieces(PieceType::King), bb(&[Square::E1, Square::E8]));
    assert_eq!(pos.spec(PieceType::King, Color::White), bb(&[Square::E1]));
    assert_eq!(
        pos.pieces_list(&[PieceType::King, PieceType::Rook]),
        bb(&[Square::E1, Square::E5, Square::E8])
    );
    assert_eq!(
        pos.spec_list(&[PieceType::King, PieceType::Rook], Color::Black),
        bb(&[Square::E5, Square::E8])
    );
    assert_eq!(pos.king(Color::White), Square::E1);
    assert_eq!(pos.king(Color::Black), Square::E8);
    pos.update_state(&tables);
    assert!(pos.in_check());
    assert_eq!(pos.checkers(), bb(&[Square::E5]));
    assert_eq!(pos.attacks_to(Square::E1, Color::Black, &tables), bb(&[Square::E5]));
    assert_eq!(pos.attacks_to(Square::E7, Color::Black, &tables), bb(&[Square::E5, Square::E8]));
    assert_eq!(
        pos.sliders_to(Square::A5, pos.all(), &tables),
        bb(&[Square::E5])
    );

    pos.move_piece(Square::E5, Square::A5);
    assert_eq!(pos.piece_on(Square::E5), None);
    assert_eq!(pos.piece_on(Square::A5), Some(rook));
    pos.update_state(&tables);
    assert!(!pos.in_check());
    assert_eq!(pos.remove_piece(Square::A5), Some(rook));
    assert_eq!(pos.remove_piece(Square::A5), None);
    assert_eq!(pos.all(), bb(&[Square::E1, Square::E8]));
}

#[test]
fn a_board_built_by_hand_is_set_up() {
    let tables = Tables::new();
    let mut pos = Position::new();
    pos.add_piece(Piece::new(PieceType::King, Color::White), Square::E1);
    pos.add_piece(Piece::new(PieceType::Rook, Color::White), Square::H1);
    // Without the black king the position cannot be played from.
    assert!(!pos.set_up(Color::White, CastleFlag::WhiteShort.bits(), None, &tables));
    assert_eq!(pos.to_move(), Color::White);
    assert!(!pos.has_castle(CastleFlag::WhiteShort));
    pos.add_piece(Piece::new(PieceType::King, Color::Black), Square::E8);
    // A right to castle long does not fit: no rook on a1.
    assert!(!pos.set_up(Color::White, CastleFlag::WhiteAll.bits(), None, &tables));
    // Black to move with the white king in check from nothing is fine; with White's
    // rook on h1 and the black king on h8 it would not be.
    assert!(pos.set_up(Color::Black, CastleFlag::WhiteShort.bits(), None, &tables));
    assert_eq!(pos.to_move(), Color::Black);
    assert!(pos.has_castle(CastleFlag::WhiteShort));
    assert!(!pos.in_check());
    assert_eq!(moves_of(&pos, &tables), vec!["e8d7", "e8d8", "e8e7", "e8f7", "e8f8"]);
    let same = Position::parse_fen("4k3/8/8/8/8/8/8/4K2R b K - 0 1", &tables).unwrap();
    assert_eq!(same.render(), pos.render());
}

#[test]
fn pins_and_blockers() {
    let tables = Tables::new();
    // The knight on e4 shields the white king from the rook on e8; the bishop on d2
    // does not, for the bishop on a5 has the c3 pawn in its way too.
    let fen = "4r2k/8/8/b7/4N3/2P5/3B4/4K3 w - -";
    let pos = Position::parse_fen(fen, &tables).unwrap();
    assert!(!pos.in_check());
    assert_eq!(pos.blockers(Color::White), bb(&[Square::E4]));
    assert_eq!(pos.pinners(Color::Black), bb(&[Square::E8]));
    assert_eq!(pos.blockers(Color::Black), Bitboard::new(0));
    assert_eq!(pos.pinners(Color::White), Bitboard::new(0));
    let moves = moves_of(&pos, &tables);
    // The pinned knight cannot move at all.
    assert!(moves.iter().all(|m| !m.starts_with("e4")));
    assert!(moves.contains(&"d2e3".to_string()));
}

#[test]
fn double_check_leaves_only_king_moves() {
    let tables = Tables::new();
    let fen = "4k3/8/8/8/8/5n2/4r3/4K3 w - -";
    let pos = Position::parse_fen(fen, &tables).unwrap();
    assert_eq!(pos.checkers(), bb(&[Square::E2, Square::F3]));
    assert_eq!(pos.checkers().popcount(), 2);
    // Only the king moves: it steps aside or takes the rook, which nothing guards.
    assert_eq!(moves_of(&pos, &tables), vec!["e1d1", "e1e2", "e1f1"]);
    // With the bishop on b5 guarding the rook, the king can only step aside.
    let guarded = "4k3/8/8/1b6/8/5n2/4r3/4K3 w - -";
    let pos = Position::parse_fen(guarded, &tables).unwrap();
    assert_eq!(moves_of(&pos, &tables), vec!["e1d1", "e1f1"]);
}

#[test]
fn king_may_not_step_back_along_the_line_of_check() {
    let tables = Tables::new();
    let fen = "4k3/8/8/8/8/8/8/r3K3 w - -";
    let pos = Position::parse_fen(fen, &tables).unwrap();
    assert_eq!(moves_of(&pos, &tables), vec!["e1d2", "e1e2", "e1f2"]);
}

#[test]
fn castling_needs_rights_an_empty_way_and_safe_squares() {
    let tables = Tables::new();
    let pos = Position::parse_fen("r3k2r/8/8/8/8/8/8/R3K2R w KQkq - 0 1", &tables).unwrap();
    assert!(pos.has_castle(CastleFlag::WhiteShort));
    assert!(pos.has_castle(CastleFlag::WhiteAll));
    assert!(pos.has_castle(CastleFlag::All));
    assert!(pos.can_castle(CastleFlag::WhiteShort, &tables));
    assert!(pos.can_castle(CastleFlag::WhiteLong, &tables));
    let moves = moves_of(&pos, &tables);
    assert!(moves.contains(&"e1g1".to_string()));
    assert!(moves.contains(&"e1c1".to_string()));

    let pos = Position::parse_fen("r3k2r/8/8/8/8/8/8/R3K2R w Qk - 0 1", &tables).unwrap();
    assert!(!pos.has_castle(CastleFlag::WhiteShort));
    assert!(pos.has_castle(CastleFlag::WhiteLong));
    assert!(!pos.has_castle(CastleFlag::WhiteAll));
    let moves = moves_of(&pos, &tables);
    assert!(!moves.contains(&"e1g1".to_string()));
    assert!(moves.contains(&"e1c1".to_string()));

    // A knight in the way.
    let pos = Position::parse_fen("r3k2r/8/8/8/8/8/8/RN2K2R w KQkq - 0 1", &tables).unwrap();
    assert!(!pos.can_castle(CastleFlag::WhiteLong, &tables));
    assert!(!moves_of(&pos, &tables).contains(&"e1c1".to_string()));

    // The rook on f8 attacks f1: the king may not pass.
    let pos = Position::parse_fen("4kr2/8/8/8/8/8/8/R3K2R w KQ - 0 1", &tables).unwrap();
    let moves = moves_of(&pos, &tables);
    assert!(!moves.contains(&"e1g1".to_string()));
    assert!(moves.contains(&"e1c1".to_string()));

    // In check: no castling at all.
    let pos = Position::parse_fen("4r1k1/8/8/8/8/8/8/R3K2R w KQ - 0 1", &tables).unwrap();
    let moves = moves_of(&pos, &tables);
    assert!(!moves.contains(&"e1g1".to_string()));
    assert!(!moves.contains(&"e1c1".to_string()));
}

#[test]
fn castle_flag_squares() {
    assert_eq!(CastleFlag::WhiteShort.color(), Color::White);
    assert_eq!(CastleFlag::BlackAll.color(), Color::Black);
    assert_eq!(CastleFlag::WhiteLong.from_square(), Square::E1);
    assert_eq!(CastleFlag::BlackShort.from_square(), Square::E8);
    assert_eq!(CastleFlag::WhiteShort.to_square(), Square::G1);
    assert_eq!(CastleFlag::WhiteLong.to_square(), Square::C1);
    assert_eq!(CastleFlag::BlackShort.to_square(), Square::G8);
    assert_eq!(CastleFlag::BlackLong.to_square(), Square::C8);
    assert_eq!(CastleFlag::WhiteShort.rook_from_square(), Square::H1);
    assert_eq!(CastleFlag::WhiteLong.rook_from_square(), Square::A1);
    assert_eq!(CastleFlag::BlackShort.rook_from_square(), Square::H8);
    assert_eq!(CastleFlag::BlackLong.rook_from_square(), Square::A8);
    assert_eq!(CastleFlag::WhiteShort.rook_to_square(), Square::F1);
    assert_eq!(CastleFlag::WhiteLong.rook_to_square(), Square::D1);
    assert_eq!(CastleFlag::BlackShort.rook_to_square(), Square::F8);
    assert_eq!(CastleFlag::BlackLong.rook_to_square(), Square::D8);
    assert_eq!(
        CastleFlag::variants_for(Color::White),
        [CastleFlag::WhiteShort, CastleFlag::WhiteLong]
    );
    assert_eq!(
        CastleFlag::variants_for(Color::Black),
        [CastleFlag::BlackShort, CastleFlag::BlackLong]
    );
    assert_eq!(CastleFlag::short_for(Color::Black), CastleFlag::BlackShort);
    assert_eq!(CastleFlag::long_for(Color::White), CastleFlag::WhiteLong);
    assert_eq!(u8::from(CastleFlag::All), 0xF);
    assert_eq!(u8::from(CastleFlag::WhiteAll), 0x3);
    assert_eq!(u8::from(CastleFlag::BlackAll), 0xC);
    assert_eq!(CastleFlag::BlackLong.bits(), 0x8);
}

#[test]
fn castling_moves_the_rook_and_loses_the_rights() {
    let tables = Tables::new();
    let mut pos = Position::parse_fen("r3k2r/8/8/8/8/8/8/R3K2R w KQkq - 0 1", &tables).unwrap();
    let castle = Move::new_with_kind(Square::E1, Square::G1, MoveKind::Castle);
    assert!(pos.try_move(castle, &tables));
    assert_eq!(pos.piece_on(Square::G1), Some(Piece::new(PieceType::King, Color::White)));
    assert_eq!(pos.piece_on(Square::F1), Some(Piece::new(PieceType::Rook, Color::White)));
    assert!(pos.empty(Square::E1));
    assert!(pos.empty(Square::H1));
    assert!(!pos.has_castle(CastleFlag::WhiteShort));
    assert!(!pos.has_castle(CastleFlag::WhiteLong));
    assert!(pos.has_castle(CastleFlag::BlackAll));
    assert_eq!(pos.rule50(), 1);
    // The rook on f1 now gives check along the open file? No: f8 is empty, the king is on e8.
    assert!(!pos.in_check());

    // Black's rook takes the rook on a1: White has no right left anyway, Black loses
    // the long one because its rook has left a8.
    assert!(pos.try_move(Move::new(Square::A8, Square::A1), &tables));
    assert!(!pos.has_castle(CastleFlag::BlackLong));
    assert!(pos.has_castle(CastleFlag::BlackShort));
    assert_eq!(pos.state().captured, Some(Piece::new(PieceType::Rook, Color::White)));
    assert_eq!(pos.rule50(), 0);

    pos.unmake_move(Move::new(Square::A8, Square::A1));
    pos.unmake_move(castle);
    assert_eq!(pos.piece_on(Square::E1), Some(Piece::new(PieceType::King, Color::White)));
    assert_eq!(pos.piece_on(Square::H1), Some(Piece::new(PieceType::Rook, Color::White)));
    assert!(pos.has_castle(CastleFlag::All));
    assert_eq!(pos.ply(), 0);
}

#[test]
fn capturing_a_rook_at_home_loses_its_right() {
    let tables = Tables::new();
    let mut pos =
        Position::parse_fen("r3k2r/8/8/8/8/8/6B1/R3K2R w KQkq - 0 1", &tables).unwrap();
    assert!(pos.try_move(Move::new(Square::G2, Square::A8), &tables));
    assert!(!pos.has_castle(CastleFlag::BlackLong));
    assert!(pos.has_castle(CastleFlag::BlackShort));
    assert!(pos.has_castle(CastleFlag::WhiteAll));
}

#[test]
fn double_push_sets_the_en_passant_square() {
    let tables = Tables::new();
    let mut pos = Position::parse_fen(Position::STARTING_FEN, &tables).unwrap();
    assert!(pos.try_move(Move::new(Square::E2, Square::E4), &tables));
    assert_eq!(pos.ep(), Some(Square::E3));
    assert_eq!(pos.to_move(), Color::Black);
    assert_eq!(pos.rule50(), 0);
    assert!(pos.try_move(Move::new(Square::G8, Square::F6), &tables));
    assert_eq!(pos.ep(), None);
    assert_eq!(pos.rule50(), 1);
    assert_eq!(pos.ply(), 2);
}

#[test]
fn en_passant_takes_the_pawn_that_passed() {
    let tables = Tables::new();
    let fen = "4k3/8/8/3pP3/8/8/8/4K3 w - d6 0 1";
    let mut pos = Position::parse_fen(fen, &tables).unwrap();
    assert_eq!(pos.ep(), Some(Square::D6));
    let m = Move::new_from_uci(b"e5d6", &pos).unwrap();
    assert_eq!(m.kind(), MoveKind::EnPassant);
    assert!(moves_of(&pos, &tables).contains(&"e5d6".to_string()));
    assert!(pos.try_move(m, &tables));
    assert!(pos.empty(Square::D5));
    assert!(pos.empty(Square::E5));
    assert_eq!(pos.piece_on(Square::D6), Some(Piece::new(PieceType::Pawn, Color::White)));
    assert_eq!(pos.state().captured, Some(Piece::new(PieceType::Pawn, Color::Black)));
    pos.unmake_move(m);
    assert_eq!(pos.piece_on(Square::D5), Some(Piece::new(PieceType::Pawn, Color::Black)));
    assert_eq!(pos.piece_on(Square::E5), Some(Piece::new(PieceType::Pawn, Color::White)));
    assert!(pos.empty(Square::D6));
    assert_eq!(pos.ep(), Some(Square::D6));
}

#[test]
fn en_passant_may_not_lay_the_king_open() {
    let tables = Tables::new();
    // Both pawns leave the fifth rank at once; the rook on h5 would then attack the king.
    let fen = "4k3/8/8/K2pP2r/8/8/8/8 w - d6 0 1";
    let pos = Position::parse_fen(fen, &tables).unwrap();
    let m = Move::new_from_uci(b"e5d6", &pos).unwrap();
    assert_eq!(m.kind(), MoveKind::EnPassant);
    assert!(pos.is_pseudo_legal(m, &tables));
    assert!(!pos.is_legal(m, &tables));
    assert!(!moves_of(&pos, &tables).contains(&"e5d6".to_string()));
}

#[test]
fn promotion_gives_four_moves() {
    let tables = Tables::new();
    let fen = "1n2k3/P7/8/8/8/8/8/4K3 w - - 0 1";
    let mut pos = Position::parse_fen(fen, &tables).unwrap();
    let moves = moves_of(&pos, &tables);
    for text in ["a7a8n", "a7a8b", "a7a8r", "a7a8q", "a7b8n", "a7b8b", "a7b8r", "a7b8q"] {
        assert!(moves.contains(&text.to_string()), "{text}");
    }
    let m = Move::new_from_uci(b"a7b8q", &pos).unwrap();
    assert_eq!(m.kind(), MoveKind::Promotion(PieceType::Queen));
    assert!(pos.try_move(m, &tables));
    assert_eq!(pos.piece_on(Square::B8), Some(Piece::new(PieceType::Queen, Color::White)));
    assert_eq!(pos.state().captured, Some(Piece::new(PieceType::Knight, Color::Black)));
    assert!(pos.in_check());
    pos.unmake_move(m);
    assert_eq!(pos.piece_on(Square::A7), Some(Piece::new(PieceType::Pawn, Color::White)));
    assert_eq!(pos.piece_on(Square::B8), Some(Piece::new(PieceType::Knight, Color::Black)));
}

#[test]
fn pseudo_legal_moves_of_the_start() {
    let tables = Tables::new();
    let pos = Position::parse_fen(Position::STARTING_FEN, &tables).unwrap();
    let list = pseudo_legal(&pos, &tables);
    assert_eq!(list.len(), 20);
    // Pawn pushes of one square come first, from the a-file on.
    assert_eq!(list.get(0).unwrap().to_uci(), "a2a3");
    assert_eq!(list.get(8).unwrap().to_uci(), "a2a4");
    assert_eq!(list.get(16).unwrap().to_uci(), "b1a3");
    assert!(pos.is_pseudo_legal(Move::new(Square::G1, Square::F3), &tables));
    assert!(!pos.is_pseudo_legal(Move::new(Square::G1, Square::G3), &tables));
    assert!(!pos.is_pseudo_legal(Move::new(Square::E7, Square::E5), &tables));
}

#[test]
fn moves_from_text() {
    let tables = Tables::new();
    let pos = Position::parse_fen(Position::KIWIPETE_FEN, &tables).unwrap();
    assert_eq!(
        Move::new_from_uci(b"e1g1", &pos),
        Some(Move::new_with_kind(Square::E1, Square::G1, MoveKind::Castle))
    );
    assert_eq!(
        Move::new_from_uci(b"e1c1", &pos),
        Some(Move::new_with_kind(Square::E1, Square::C1, MoveKind::Castle))
    );
    assert_eq!(
        Move::new_from_uci(b"a2a4", &pos),
        Some(Move::new(Square::A2, Square::A4))
    );
    assert_eq!(Move::new_from_uci(b"a2a", &pos), None);
    assert_eq!(Move::new_from_uci(b"a2a4qq", &pos), None);
    assert_eq!(Move::new_from_uci(b"a2a4q", &pos), None);
    assert_eq!(Move::new_from_uci(b"e1g1q", &pos), None);
    assert_eq!(Move::new_from_uci(b"a2a9", &pos), None);
    assert_eq!(Move::new_from_uci(b"i2a4", &pos), None);
    assert_eq!(Move::new_from_uci(b"a2a4k", &pos), None);
    assert_eq!(Move::new_from_uci(b"a3a4", &pos), None);
    assert_eq!(Move::new_from_uci(b"a2a2", &pos), None);
    assert_eq!(Move::new_from_uci(b"", &pos), None);

    let pos = Position::parse_fen("1n2k3/P7/8/8/8/8/8/4K3 w - - 0 1", &tables).unwrap();
    assert_eq!(Move::new_from_uci(b"a7a8", &pos), None);
    assert_eq!(Move::new_from_uci(b"a7a8p", &pos), None);
    assert_eq!(
        Move::new_from_uci(b"a7a8r", &pos),
        Some(Move::new_with_kind(
            Square::A7,
            Square::A8,
            MoveKind::Promotion(PieceType::Rook)
        ))
    );
}

#[test]
fn lines_of_moves() {
    let tables = Tables::new();
    let mut pos = Position::parse_fen(Position::STARTING_FEN, &tables).unwrap();
    let line = [
        Move::new(Square::E2, Square::E4),
        Move::new(Square::E7, Square::E5),
        Move::new(Square::G1, Square::F3),
    ];
    assert_eq!(pos.make_moves(&line, &tables), Ok(()));
    assert_eq!(pos.ply(), 3);
    assert_eq!(pos.to_move(), Color::Black);

    // The knight cannot go to e5: its own pawn stands there.
    let bad = Move::new(Square::B8, Square::E5);
    let line = [Move::new(Square::B8, Square::C6), bad, Move::new(Square::A2, Square::A3)];
    let mut pos = Position::parse_fen(Position::STARTING_FEN, &tables).unwrap();
    assert_eq!(pos.make_moves(&[Move::new(Square::E2, Square::E4)], &tables), Ok(()));
    assert_eq!(pos.make_moves(&line, &tables), Err(bad));
    assert_eq!(pos.ply(), 2);
    assert_eq!(pos.piece_on(Square::C6), Some(Piece::new(PieceType::Knight, Color::Black)));
    assert!(!pos.can_make(Move::new(Square::A7, Square::A6), &tables));
    assert!(pos.can_make(Move::new(Square::A2, Square::A3), &tables));
}

#[test]
fn lines_of_moves_from_text() {
    let tables = Tables::new();
    let mut pos = Position::parse_fen(Position::STARTING_FEN, &tables).unwrap();
    let line: [&[u8]; 7] = [b"e2e4", b"e7e5", b"g1f3", b"b8c6", b"f1c4", b"g8f6", b"e1g1"];
    assert_eq!(pos.make_uci_moves(&line, &tables), Ok(()));
    assert_eq!(pos.piece_on(Square::G1), Some(Piece::new(PieceType::King, Color::White)));
    assert_eq!(pos.piece_on(Square::F1), Some(Piece::new(PieceType::Rook, Color::White)));
    assert_eq!(pos.ply(), 7);

    let mut pos = Position::parse_fen(Position::STARTING_FEN, &tables).unwrap();
    let line: [&[u8]; 3] = [b"e2e4", b"e2e4", b"e7e5"];
    let second: &[u8] = b"e2e4";
    assert_eq!(pos.make_uci_moves(&line, &tables), Err(second));
    assert_eq!(pos.ply(), 1);
    let line: [&[u8]; 2] = [b"e7e5", b"zz"];
    let bad: &[u8] = b"zz";
    assert_eq!(pos.make_uci_moves(&line, &tables), Err(bad));
    assert_eq!(pos.ply(), 2);
}

#[test]
fn a_move_that_leaves_the_king_in_check_is_not_made() {
    let tables = Tables::new();
    let fen = "4r2k/8/8/8/4N3/8/8/4K3 w - -";
    let mut pos = Position::parse_fen(fen, &tables).unwrap();
    let m = Move::new(Square::E4, Square::C5);
    assert!(pos.is_pseudo_legal(m, &tables));
    assert!(!pos.is_legal(m, &tables));
    assert!(!pos.try_move(m, &tables));
    assert_eq!(pos.ply(), 0);
    assert_eq!(pos.make_moves(&[m], &tables), Err(m));
}

#[test]
fn descriptions_are_read() {
    let tables = Tables::new();
    let pos = Position::parse_fen(Position::STARTING_FEN, &tables).unwrap();
    assert_eq!(pos.to_move(), Color::White);
    assert_eq!(pos.ply(), 0);
    assert_eq!(pos.rule50(), 0);
    assert_eq!(pos.ep(), None);
    assert!(pos.has_castle(CastleFlag::All));
    assert_eq!(pos.all().into_inner(), 0xffff_0000_0000_ffff);
    assert_eq!(pos.color(Color::White).into_inner(), 0xffff);
    assert_eq!(pos.pieces(PieceType::Pawn).into_inner(), 0x00ff_0000_0000_ff00);
    assert_eq!(pos.piece_on(Square::A1), Some(Piece::new(PieceType::Rook, Color::White)));
    assert_eq!(pos.piece_on(Square::D8), Some(Piece::new(PieceType::Queen, Color::Black)));
    assert_eq!(pos.piece_on(Square::E4), None);
    assert_eq!(pos.king(Color::White), Square::E1);
    assert_eq!(pos.king(Color::Black), Square::E8);

    let pos = Position::parse_fen("4k3/8/8/8/4Pp2/8/8/4K3 b - e3 0 1", &tables).unwrap();
    assert_eq!(pos.to_move(), Color::Black);
    assert_eq!(pos.ep(), Some(Square::E3));
    assert!(!pos.has_castle(CastleFlag::WhiteShort));
    let same = Position::new_from_fen("4k3/8/8/8/4Pp2/8/8/4K3 b - e3 0 1", &tables);
    assert_eq!(same.render(), pos.render());
}

#[test]
fn malformed_descriptions_are_refused() {
    let tables = Tables::new();
    let bad = [
        "",
        "rnbqkbnr/pppppppp/8/8/8/8/PPPPPPPP/RNBQKBNR",
        "rnbqkbnr/pppppppp/8/8/8/8/PPPPPPPP/RNBQKBNR w",
        "rnbqkbnr/pppppppp/8/8/8/8/PPPPPPPP/RNBQKBNR w KQkq",
        "rnbqkbnr/pppppppp/8/8/8/8/PPPPPPPP/RNBQKBNR w KQkq ",
        "rnbqkbnr/pppppppp/8/8/8/8/PPPPPPPP/RNBQKBNR x KQkq - 0 1",
        "rnbqkbnr/pppppppp/8/8/8/8/PPPPPPPP/RNBQKBNR - KQkq - 0 1",
        "rnbqkbnr/pppppppp/8/8/8/8/PPPPPPPP/RNBQKBNR w KQxq - 0 1",
        "rnbqkbnr/pppppppp/8/8/8/8/PPPPPPPP/RNBQKBNR w  - 0 1",
        "rnbqkbnr/pppppppp/8/8/8/8/PPPPPPPP/RNBQKBNR w KQkq e9 0 1",
        "rnbqkbnr/pppppppp/8/8/8/8/PPPPPPPP/RNBQKBNR w KQkq e 0",
        "rnbqkbnr/pppppppp/8/8/8/8/PPPPPPPP w KQkq - 0 1",
        "rnbqkbnr/pppppppp/8/8/8/8/PPPPPPPP/RNBQKBNR/8 w KQkq - 0 1",
        "rnbqkbnr/pppppppp/9/8/8/8/PPPPPPPP/RNBQKBNR w KQkq - 0 1",
        "rnbqkbnr/pppppppp/7/8/8/8/PPPPPPPP/RNBQKBNR w KQkq - 0 1",
        "rnbqkbnr/ppppppppp/8/8/8/8/PPPPPPPP/RNBQKBNR w KQkq - 0 1",
        "rnbqkbnr/pppppppp/8/8/8/8/PPPPPPPP/RNBQKBNX w KQkq - 0 1",
        "rnbqkbnr/pppppppp//8/8/8/PPPPPPPP/RNBQKBNR w KQkq - 0 1",
        "rnbqkbnr/pppppppp/8/8/8/8/PPPPPPPP/RNBQKBNR/ w KQkq - 0 1",
    ];
    for fen in bad {
        assert!(Position::parse_fen(fen, &tables).is_none(), "{fen:?}");
    }
}

#[test]
fn positions_that_cannot_be_played_are_refused() {
    let tables = Tables::new();
    let bad = [
        // No black king.
        "8/8/8/8/8/8/8/4K3 w - - 0 1",
        // No king at all.
        "8/8/8/8/8/8/8/8 w - - 0 1",
        // A right to castle without the rook at home.
        "4k3/8/8/8/8/8/8/4K3 w K - 0 1",
        // A right to castle without the king at home.
        "4k3/8/8/8/8/8/8/3K3R w K - 0 1",
        // An en-passant square without the pawn that passed it.
        "4k3/8/8/8/8/8/8/4K3 w - e6 0 1",
        // An en-passant square behind a pawn of the side to move.
        "4k3/8/8/4p3/8/8/8/4K3 b - e6 0 1",
        // An en-passant square that is occupied.
        "4k3/8/4n3/4p3/8/8/8/4K3 w - e6 0 1",
        // Two white kings.
        "4k3/8/8/8/8/8/8/3KK3 w - - 0 1",
        // The side that is not to move is in check.
        "4k3/8/8/8/8/8/8/4K2r b - - 0 1",
        "4k3/8/8/8/8/8/3p4/4K3 b - - 0 1",
    ];
    for fen in bad {
        assert!(Position::parse_fen(fen, &tables).is_none(), "{fen:?}");
    }
    assert!(Position::parse_fen("4k3/8/8/4p3/8/8/8/4K3 w - e6 0 1", &tables).is_some());
    assert!(Position::parse_fen("4k3/8/8/8/8/8/8/4K2R w K -", &tables).is_some());
    assert!(Position::parse_fen("4k3/8/8/8/8/8/8/4K2R w KK -", &tables).is_some());
}

#[test]
fn after_a_legal_move_the_mover_is_not_in_check() {
    let tables = Tables::new();
    let mut pos = Position::parse_fen(Position::KIWIPETE_FEN, &tables).unwrap();
    let list = legal(&pos, &tables);
    for i in 0..list.len() {
        let m = list.get(i).unwrap();
        let us = pos.to_move();
        assert!(pos.try_move(m, &tables));
        let king = pos.king(us);
        assert!(pos.attacks_to(king, us.not(), &tables).zero(), "{}", m.to_uci());
        pos.unmake_move(m);
    }
    assert_eq!(list.len(), 48);
}

#[test]
fn position_picture() {
    let tables = Tables::new();
    let pos = Position::parse_fen(Position::STARTING_FEN, &tables).unwrap();
    let frame = "+---+---+---+---+---+---+---+---+\n";
    let expected = [
        frame,
        "| r | n | b | q | k | b | n | r |\n",
        frame,
        "| p | p | p | p | p | p | p | p |\n",
        frame,
        "|   |   |   |   |   |   |   |   |\n",
        frame,
        "|   |   |   |   |   |   |   |   |\n",
        frame,
        "|   |   |   |   |   |   |   |   |\n",
        frame,
        "|   |   |   |   |   |   |   |   |\n",
        frame,
        "| P | P | P | P | P | P | P | P |\n",
        frame,
        "| R | N | B | Q | K | B | N | R |\n",
        frame,
        "EP: n/a",
    ]
    .concat();
    assert_eq!(pos.render(), expected);

    let pos = Position::parse_fen("4k3/8/8/8/4Pp2/8/8/4K3 b - e3 0 1", &tables).unwrap();
    assert!(pos.render().ends_with("EP: e3"));
}

#[test]
fn castling_rights_are_added_and_removed() {
    let mut pos = Position::new();
    pos.add_castle_right(CastleFlag::WhiteShort);
    pos.add_castle_right(CastleFlag::BlackAll);
    assert!(pos.has_castle(CastleFlag::WhiteShort));
    assert!(!pos.has_castle(CastleFlag::WhiteLong));
    assert!(pos.has_castle(CastleFlag::BlackShort));
    assert!(pos.has_castle(CastleFlag::BlackLong));
    assert_eq!(pos.state().castle_rights, 0xD);
    pos.remove_castle_right(CastleFlag::BlackShort);
    assert!(!pos.has_castle(CastleFlag::BlackAll));
    assert!(pos.has_castle(CastleFlag::BlackLong));
    pos.remove_castle_right(CastleFlag::All);
    assert_eq!(pos.state().castle_rights, 0);
}

#[test]
fn sliders_at_once_are_the_sliders_one_by_one() {
    let tables = Tables::new();
    let pos = Position::parse_fen(Position::KIWIPETE_FEN, &tables).unwrap();
    let mut together = MoveList::new();
    all_sliders_at_once(&pos, &tables, &mut together);
    let mut apart = MoveList::new();
    bishop_moves(&pos, &tables, &mut apart);
    rook_moves(&pos, &tables, &mut apart);
    queen_moves(&pos, &tables, &mut apart);
    assert_eq!(together.len(), apart.len());
    for i in 0..together.len() {
        assert_eq!(together.get(i), apart.get(i));
    }
    // Two bishops with 11 moves, two rooks with 5 and the queen with 9.
    assert_eq!(together.len(), 25);
}

#[test]
fn state_starts_blank() {
    let st = State::new();
    assert!(st.checkers.zero());
    assert_eq!(st.captured, None);
    assert_eq!(st.en_passant, None);
    assert_eq!(st.castle_rights, 0);
    assert_eq!(st.halfmoves, 0);
    let mut moved = st;
    moved.castle_rights = 5;
    moved.halfmoves = 3;
    moved.en_passant = Some(Square::E3);
    let next = moved.carry();
    assert_eq!(next.castle_rights, 5);
    assert_eq!(next.halfmoves, 3);
    assert_eq!(next.en_passant, None);
}
