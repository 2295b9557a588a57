use chess_core::bitboard::Bitboard;
use chess_core::color::Color;
use chess_core::square::{Direction, File, Rank, Square};

fn bb(squares: &[Square]) -> Bitboard {
    let mut out = Bitboard::new(0);
    for &s in squares {
        out = out.bitor(Bitboard::from_square(s));
    }
    out
}

#[test]
fn square_is_file_plus_eight_times_rank() {
    assert_eq!(Square::A1.idx(), 0);
    assert_eq!(Square::H1.idx(), 7);
    assert_eq!(Square::A2.idx(), 8);
    assert_eq!(Square::E4.idx(), 28);
    assert_eq!(Square::H8.idx(), 63);
    for i in 0..64u8 {
        let s = Square::from_index(i);
        assert_eq!(s.idx(), i);
        assert_eq!(s.file() as u8, i % 8);
        assert_eq!(s.rank() as u8, i / 8);
        assert_eq!(Square::new(s.file(), s.rank()), s);
    }
    assert_eq!(Square::new(File::C, Rank::Six), Square::C6);
}

#[test]
fn directions_partition_and_reverse() {
    let all = Direction::all();
    assert_eq!(all.len(), 8);
    assert_eq!(all[0], Direction::North);
    assert_eq!(all[7], Direction::SouthWest);
    for (i, d) in all.iter().enumerate() {
        assert_eq!(Direction::from_index(i as u8), *d);
    }
    for d in all {
        assert_ne!(d.not(), d);
        assert_eq!(d.not().not(), d);
        let orthogonal = Direction::orthogonal().contains(&d);
        let diagonal = Direction::diagonal().contains(&d);
        assert!(orthogonal != diagonal);
    }
    assert_eq!(Direction::North.not(), Direction::South);
    assert_eq!(Direction::NorthEast.not(), Direction::SouthWest);
    assert_eq!(Direction::NorthWest.not(), Direction::SouthEast);
    assert_eq!(Direction::East.not(), Direction::West);
    assert!(Direction::North.is_forward());
    assert!(Direction::East.is_forward());
    assert!(Direction::NorthWest.is_forward());
    assert!(Direction::NorthEast.is_forward());
    assert!(!Direction::South.is_forward());
    assert!(!Direction::West.is_forward());
    assert!(!Direction::SouthEast.is_forward());
    assert!(!Direction::SouthWest.is_forward());
}

#[test]
fn distance_is_the_number_of_king_steps() {
    assert_eq!(Square::A1.distance(Square::A1), 0);
    assert_eq!(Square::A1.distance(Square::H8), 7);
    assert_eq!(Square::E1.distance(Square::G1), 2);
    assert_eq!(Square::B2.distance(Square::C4), 2);
    assert_eq!(Square::H1.distance(Square::A2), 7);
}

#[test]
fn direction_to_another_square() {
    assert_eq!(Square::E4.dir_to(Square::E8), Some(Direction::North));
    assert_eq!(Square::E4.dir_to(Square::E1), Some(Direction::South));
    assert_eq!(Square::E4.dir_to(Square::H4), Some(Direction::East));
    assert_eq!(Square::E4.dir_to(Square::A4), Some(Direction::West));
    assert_eq!(Square::E4.dir_to(Square::H7), Some(Direction::NorthEast));
    assert_eq!(Square::E4.dir_to(Square::B1), Some(Direction::SouthWest));
    assert_eq!(Square::E4.dir_to(Square::A8), Some(Direction::NorthWest));
    assert_eq!(Square::E4.dir_to(Square::H1), Some(Direction::SouthEast));
    assert_eq!(Square::E4.dir_to(Square::F6), None);
    assert_eq!(Square::E4.dir_to(Square::E4), None);
    assert!(Square::A1.same_line(Square::H8));
    assert!(!Square::A1.same_line(Square::A1));
    assert!(!Square::A1.same_line(Square::B3));
    // H1 and A2 are neighbours by number but share no line.
    assert!(!Square::H1.same_line(Square::A2));
}

#[test]
fn square_shift_stops_at_the_edge() {
    assert_eq!(Square::E4.shift(Direction::North), Some(Square::E5));
    assert_eq!(Square::E4.shift(Direction::SouthWest), Some(Square::D3));
    assert_eq!(Square::H4.shift(Direction::East), None);
    assert_eq!(Square::A4.shift(Direction::West), None);
    assert_eq!(Square::A4.shift(Direction::NorthWest), None);
    assert_eq!(Square::E8.shift(Direction::North), None);
    assert_eq!(Square::E1.shift(Direction::SouthEast), None);
    assert_eq!(Square::E4.shift_unchecked(Direction::NorthWest), Square::D5);
}

#[test]
fn relative_squares_and_ranks() {
    assert_eq!(Square::A1.relative(Color::White), Square::A1);
    assert_eq!(Square::A1.relative(Color::Black), Square::A8);
    assert_eq!(Square::H8.relative(Color::Black), Square::H1);
    assert_eq!(Square::C3.relative(Color::Black), Square::C6);
    assert_eq!(Color::White.relative_rank(Rank::Three), Rank::Three);
    assert_eq!(Color::Black.relative_rank(Rank::Three), Rank::Six);
    assert_eq!(Color::Black.relative_rank(Rank::Eight), Rank::One);
    assert_eq!(Color::White.forward(), Direction::North);
    assert_eq!(Color::Black.forward(), Direction::South);
    assert_eq!(Color::White.not(), Color::Black);
    assert_eq!(Color::Black.not(), Color::White);
}

#[test]
fn squares_from_text() {
    assert_eq!(Square::from_bytes(b'a', b'1'), Some(Square::A1));
    assert_eq!(Square::from_bytes(b'e', b'4'), Some(Square::E4));
    assert_eq!(Square::from_bytes(b'h', b'8'), Some(Square::H8));
    assert_eq!(Square::from_bytes(b'i', b'1'), None);
    assert_eq!(Square::from_bytes(b'a', b'9'), None);
    assert_eq!(Square::from_bytes(b'a', b'0'), None);
    assert_eq!(Square::from_bytes(b'A', b'1'), None);
    assert_eq!(Square::E4.name(), ('e', '4'));
    assert_eq!(Square::E4.text(), "e4");
    assert_eq!(File::C.to_char(), 'c');
    assert_eq!(Rank::Eight.to_char(), '8');
    assert_eq!(File::try_from(7), Ok(File::H));
    assert_eq!(File::try_from(8), Err(()));
    assert_eq!(Rank::try_from(0), Ok(Rank::One));
    assert_eq!(Rank::try_from(200), Err(()));
}

#[test]
fn bitboard_set_algebra() {
    let a = bb(&[Square::A1, Square::B2, Square::C3]);
    let b = bb(&[Square::B2, Square::C3, Square::D4]);
    assert_eq!(a.bitand(b), bb(&[Square::B2, Square::C3]));
    assert_eq!(a.bitor(b), bb(&[Square::A1, Square::B2, Square::C3, Square::D4]));
    assert_eq!(a.bitxor(b), bb(&[Square::A1, Square::D4]));
    assert_eq!(a.not().bitand(b), bb(&[Square::D4]));
    assert_eq!(Bitboard::new(0).not().into_inner(), u64::MAX);
    let mut c = a;
    c.bitor_assign(b);
    assert_eq!(c, a.bitor(b));
    c.bitand_assign(b);
    assert_eq!(c, b);
    c.bitxor_assign(b);
    assert!(c.zero());
    assert!(!c.nonzero());
    assert!(a.has(Square::B2));
    assert!(!a.has(Square::D4));
    assert_eq!(Bitboard::from_square(Square::E4).into_inner(), 1u64 << 28);
    assert_eq!(Bitboard::from_option(None), Bitboard::new(0));
    assert_eq!(Bitboard::from_option(Some(Square::H8)).into_inner(), 1u64 << 63);
}

#[test]
fn bitboard_ranks_and_files() {
    assert_eq!(Bitboard::from_rank(Rank::One).into_inner(), 0xff);
    assert_eq!(Bitboard::from_rank(Rank::Eight).into_inner(), 0xff00_0000_0000_0000);
    assert_eq!(Bitboard::from_file(File::A).into_inner(), 0x0101_0101_0101_0101);
    assert_eq!(Bitboard::from_file(File::H).into_inner(), 0x8080_8080_8080_8080);
    assert_eq!(
        Bitboard::from_ranks([Rank::One, Rank::Eight]).into_inner(),
        0xff00_0000_0000_00ff
    );
    assert_eq!(
        Bitboard::from_files([File::A, File::H]).into_inner(),
        0x8181_8181_8181_8181
    );
    assert_eq!(
        Bitboard::from_squares([Square::A1, Square::H8, Square::A1]),
        bb(&[Square::A1, Square::H8])
    );
    assert_eq!(Bitboard::from_squares::<0>([]), Bitboard::new(0));
}

#[test]
fn bitboard_shift_masks_the_edges() {
    let corners = bb(&[Square::A1, Square::H1, Square::A8, Square::H8]);
    assert_eq!(corners.shift(Direction::East), bb(&[Square::B1, Square::B8]));
    assert_eq!(corners.shift(Direction::West), bb(&[Square::G1, Square::G8]));
    assert_eq!(corners.shift(Direction::North), bb(&[Square::A2, Square::H2]));
    assert_eq!(corners.shift(Direction::South), bb(&[Square::A7, Square::H7]));
    assert_eq!(corners.shift(Direction::NorthEast), bb(&[Square::B2]));
    assert_eq!(corners.shift(Direction::NorthWest), bb(&[Square::G2]));
    assert_eq!(corners.shift(Direction::SouthEast), bb(&[Square::B7]));
    assert_eq!(corners.shift(Direction::SouthWest), bb(&[Square::G7]));
    for i in 0..64u8 {
        let s = Square::from_index(i);
        for d in Direction::all() {
            let moved = Bitboard::from_square(s).shift(d);
            assert_eq!(moved, Bitboard::from_option(s.shift(d)));
        }
    }
    assert_eq!(Bitboard::new(1).shl(8).into_inner(), 256);
    assert_eq!(Bitboard::new(256).shr(8).into_inner(), 1);
}

#[test]
fn bitboard_lowest_highest_and_count() {
    let a = bb(&[Square::C3, Square::F6, Square::H8]);
    assert_eq!(a.lsb(), Square::C3);
    assert_eq!(a.msb(), Square::H8);
    assert_eq!(a.without_lsb(), bb(&[Square::F6, Square::H8]));
    assert_eq!(Bitboard::new(0).without_lsb(), Bitboard::new(0));
    assert_eq!(a.popcount(), 3);
    assert_eq!(Bitboard::new(0).popcount(), 0);
    assert_eq!(Bitboard::new(u64::MAX).popcount(), 64);
    assert!(a.more_than_one());
    assert!(!Bitboard::from_square(Square::H8).more_than_one());
    assert!(!Bitboard::new(0).more_than_one());
    assert_eq!(Bitboard::from_square(Square::A1).lsb(), Square::A1);
    assert_eq!(Bitboard::from_square(Square::A1).msb(), Square::A1);
    assert_eq!(a.lsb_unchecked(), Square::C3);
}

#[test]
fn bitboard_iteration_is_in_order() {
    let a = bb(&[Square::H8, Square::C3, Square::F6, Square::A1]);
    assert_eq!(
        a.squares(),
        vec![Square::A1, Square::C3, Square::F6, Square::H8]
    );
    let mut it = a.into_iter();
    assert_eq!(it.next(), Some(Square::A1));
    assert_eq!(it.next_back(), Some(Square::H8));
    assert_eq!(it.next_back(), Some(Square::F6));
    assert_eq!(it.next(), Some(Square::C3));
    assert_eq!(it.next(), None);
    assert_eq!(it.next_back(), None);
    assert_eq!(Bitboard::new(0).squares(), Vec::<Square>::new());
}

#[test]
fn bitboard_wrapping_arithmetic() {
    let a = Bitboard::new(5);
    let b = Bitboard::new(7);
    assert_eq!(a.sub(b).into_inner(), u64::MAX - 1);
    assert_eq!(b.sub(a).into_inner(), 2);
    assert_eq!(a.add(Bitboard::new(u64::MAX)).into_inner(), 4);
    assert_eq!(a.mul(b).into_inner(), 35);
    assert_eq!(
        Bitboard::new(1 << 63).mul(Bitboard::new(2)).into_inner(),
        0
    );
}

#[test]
fn bitboard_picture() {
    let a = bb(&[Square::A1, Square::H8]);
    let expected = ". . . . . . . X\n\
                    . . . . . . . .\n\
                    . . . . . . . .\n\
                    . . . . . . . .\n\
                    . . . . . . . .\n\
                    . . . . . . . .\n\
                    . . . . . . . .\n\
                    X . . . . . . .\n";
    assert_eq!(a.render(), expected);
}

#[test]
fn operators_and_conversions() {
    let a = bb(&[Square::A1, Square::B2]);
    let b = bb(&[Square::B2, Square::C3]);
    assert_eq!(a & b, bb(&[Square::B2]));
    assert_eq!(a | b, bb(&[Square::A1, Square::B2, Square::C3]));
    assert_eq!(a ^ b, bb(&[Square::A1, Square::C3]));
    assert_eq!(!a & b, bb(&[Square::C3]));
    assert_eq!(a << Direction::North, bb(&[Square::A2, Square::B3]));
    assert_eq!(a << Direction::West, bb(&[Square::A2]));
    assert_eq!(!Color::White, Color::Black);
    assert_eq!(!Direction::SouthEast, Direction::NorthWest);
    assert_eq!(Bitboard::from(5u64).into_inner(), 5);
    assert_eq!(u64::from(Bitboard::new(7)), 7);
    assert!(bool::from(a));
    assert!(!bool::from(Bitboard::new(0)));
    assert_eq!(Bitboard::from(Square::E4), Bitboard::from_square(Square::E4));
    assert_eq!(Bitboard::from(Some(Square::E4)), Bitboard::from_square(Square::E4));
    assert_eq!(Bitboard::from(None::<Square>), Bitboard::new(0));
    assert_eq!(Bitboard::from(File::B), Bitboard::from_file(File::B));
    assert_eq!(Bitboard::from(Rank::Two), Bitboard::from_rank(Rank::Two));
    assert_eq!(u8::from(Square::H8), 63);
    assert_eq!(char::from(File::H), 'h');
    assert_eq!(char::from(Rank::One), '1');
    assert_eq!(Square::try_from([b'e', b'4']), Ok(Square::E4));
    assert_eq!(Square::try_from([b'e', b'9']), Err(()));
}
