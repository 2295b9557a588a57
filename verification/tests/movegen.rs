use chess_core::movegen::Move;
use chess_core::movegen::MoveKind::{Castle, EnPassant, Normal, Promotion};
use chess_core::piece::PieceType::{Knight, Queen};
use chess_core::square::Square::{A1, A2, A5, A7, E8, F4, H8};

#[test]
fn created_moves_have_expected_squares() {
    let m1 = Move::new(A1, A2);
    assert_eq!(m1.from(), A1);
    assert_eq!(m1.to(), A2);
    assert_eq!(m1.kind(), Normal);

    let m2 = Move::new(A5, H8);
    assert_eq!(m2.from(), A5);
    assert_eq!(m2.to(), H8);
    assert_eq!(m2.kind(), Normal);
}

#[test]
fn promotion_type_encodes() {
    let m1 = Move::new_with_kind(A1, A2, Promotion(Knight));
    assert_eq!(m1.from(), A1);
    assert_eq!(m1.to(), A2);
    assert_eq!(m1.kind(), Promotion(Knight));

    let m2 = Move::new_with_kind(A1, E8, Promotion(Queen));
    assert_eq!(m2.from(), A1);
    assert_eq!(m2.to(), E8);
    assert_eq!(m2.kind(), Promotion(Queen));

    assert_eq!(m1.is_promo(), true);
    assert_eq!(m2.is_promo(), true);

    assert_eq!(m1.get_promo(), Some(Knight));
    assert_eq!(m2.get_promo(), Some(Queen));
}

#[test]
fn kind_encodes() {
    let m1 = Move::new(A2, A5);
    let m2 = Move::new_with_kind(A2, A5, Normal);
    let m3 = Move::new_with_kind(A1, A7, Castle);
    let m4 = Move::new_with_kind(A1, F4, EnPassant);
    let m5 = Move::new_with_kind(A1, F4, Promotion(Queen));

    assert_eq!(m1.kind(), Normal);
    assert_eq!(m2.kind(), Normal);
    assert_eq!(m3.kind(), Castle);
    assert_eq!(m4.kind(), EnPassant);
    assert_eq!(m5.kind(), Promotion(Queen));
}
