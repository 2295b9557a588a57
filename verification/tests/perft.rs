use chess_core::perft::perft;
use chess_core::position::Position;
use chess_core::precompute::Tables;

fn count(fen: &str, depth: usize) -> usize {
    let tables = Tables::new();
    let mut pos = Position::parse_fen(fen, &tables).expect("the description is well formed");
    perft(&mut pos, &tables, depth)
}

const POSITION_3: &str = "8/2p5/3p4/KP5r/1R3p1k/8/4P1P1/8 w - -";

#[test]
fn startpos_depth_1() {
    assert_eq!(count(Position::STARTING_FEN, 1), 20);
}

#[test]
fn startpos_depth_2() {
    assert_eq!(count(Position::STARTING_FEN, 2), 400);
}

#[test]
fn startpos_depth_3() {
    assert_eq!(count(Position::STARTING_FEN, 3), 8902);
}

#[test]
fn startpos_depth_4() {
    assert_eq!(count(Position::STARTING_FEN, 4), 197281);
}

#[test]
fn startpos_depth_5() {
    assert_eq!(count(Position::STARTING_FEN, 5), 4865609);
}

#[test]
fn kiwipete_depth_1() {
    assert_eq!(count(Position::KIWIPETE_FEN, 1), 48);
}

#[test]
fn kiwipete_depth_2() {
    assert_eq!(count(Position::KIWIPETE_FEN, 2), 2039);
}

#[test]
fn kiwipete_depth_3() {
    assert_eq!(count(Position::KIWIPETE_FEN, 3), 97862);
}

#[test]
fn kiwipete_depth_4() {
    assert_eq!(count(Position::KIWIPETE_FEN, 4), 4085603);
}

#[test]
fn cpw_pos_3_depth_1() {
    assert_eq!(count(POSITION_3, 1), 14);
}

#[test]
fn cpw_pos_3_depth_2() {
    assert_eq!(count(POSITION_3, 2), 191);
}

#[test]
fn cpw_pos_3_depth_3() {
    assert_eq!(count(POSITION_3, 3), 2812);
}

#[test]
fn cpw_pos_3_depth_4() {
    assert_eq!(count(POSITION_3, 4), 43238);
}

#[test]
fn cpw_pos_3_depth_5() {
    assert_eq!(count(POSITION_3, 5), 674624);
}

#[test]
fn startpos_depth_6() {
    assert_eq!(count(Position::STARTING_FEN, 6), 119060324);
}
