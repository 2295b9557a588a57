use chess_core::movegen::{Move, MoveKind, MoveList, MoveListIter};
use chess_core::piece::PieceType;
use chess_core::square::Square;

#[test]
fn packing_and_unpacking_round_trip() {
    let kinds = [
        MoveKind::Normal,
        MoveKind::Castle,
        MoveKind::EnPassant,
        MoveKind::Promotion(PieceType::Knight),
        MoveKind::Promotion(PieceType::Bishop),
        MoveKind::Promotion(PieceType::Rook),
        MoveKind::Promotion(PieceType::Queen),
    ];
    for a in 0..64u8 {
        for b in 0..64u8 {
            if a == b {
                continue;
            }
            for kind in kinds {
                let from = Square::from_index(a);
                let to = Square::from_index(b);
                let m = Move::new_with_kind(from, to, kind);
                assert_eq!(m.from(), from);
                assert_eq!(m.to(), to);
                assert_eq!(m.kind(), kind);
                assert_eq!(m.is_promo(), matches!(kind, MoveKind::Promotion(_)));
            }
        }
    }
}

#[test]
fn promotable_kinds() {
    assert_eq!(
        PieceType::promotable(),
        [
            PieceType::Knight,
            PieceType::Bishop,
            PieceType::Rook,
            PieceType::Queen
        ]
    );
    assert_eq!(Move::new(Square::A2, Square::A3).get_promo(), None);
    assert!(!Move::new(Square::A2, Square::A3).is_promo());
}

#[test]
fn moves_as_text() {
    assert_eq!(Move::new(Square::E2, Square::E4).to_uci(), "e2e4");
    assert_eq!(
        Move::new_with_kind(Square::A7, Square::B8, MoveKind::Promotion(PieceType::Queen)).to_uci(),
        "a7b8q"
    );
    assert_eq!(
        Move::new_with_kind(Square::H2, Square::H1, MoveKind::Promotion(PieceType::Knight))
            .to_uci(),
        "h2h1n"
    );
    assert_eq!(
        Move::new_with_kind(Square::E1, Square::G1, MoveKind::Castle).to_uci(),
        "e1g1"
    );
}

#[test]
fn move_list_keeps_the_order() {
    let a = Move::new(Square::A1, Square::A2);
    let b = Move::new(Square::B1, Square::B2);
    let c = Move::new(Square::C1, Square::C2);
    let d = Move::new(Square::D1, Square::D2);
    let mut list = MoveList::new();
    assert_eq!(list.len(), 0);
    assert_eq!(list.get(0), None);
    list.push(a);
    list.push(b);
    list.push(c);
    list.push(d);
    assert_eq!(list.len(), 4);
    assert_eq!(list.get(0), Some(a));
    assert_eq!(list.get(3), Some(d));
    assert_eq!(list.get(4), None);

    let mut it = MoveListIter::new(&list);
    assert_eq!(it.next(), Some(a));
    assert_eq!(it.next(), Some(b));
    assert_eq!(it.next(), Some(c));
    assert_eq!(it.next(), Some(d));
    assert_eq!(it.next(), None);
    assert_eq!(it.next(), None);
}

#[test]
fn move_list_remove_puts_the_last_in_place() {
    let a = Move::new(Square::A1, Square::A2);
    let b = Move::new(Square::B1, Square::B2);
    let c = Move::new(Square::C1, Square::C2);
    let mut list = MoveList::new();
    list.push(a);
    list.push(b);
    list.push(c);
    list.remove(0);
    assert_eq!(list.len(), 2);
    assert_eq!(list.get(0), Some(c));
    assert_eq!(list.get(1), Some(b));
    list.remove(1);
    assert_eq!(list.len(), 1);
    assert_eq!(list.get(0), Some(c));
    list.remove(0);
    assert_eq!(list.len(), 0);
}
