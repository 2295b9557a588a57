use chess_core::bitboard::Bitboard;
use chess_core::color::Color;
use chess_core::magic::{
    init_magics, init_pext, pext, relevant_mask, slider_gen, subsets_of, SeededPRNG,
};
use chess_core::precompute::{initialize, Tables};
use chess_core::square::{Direction, Square};

fn bb(squares: &[Square]) -> Bitboard {
    let mut out = Bitboard::new(0);
    for &s in squares {
        out = out.bitor(Bitboard::from_square(s));
    }
    out
}

#[test]
fn every_square_has_a_multiplier() {
    let tables = initialize();
    assert_eq!(tables.magic_counts(), (64, 64));
}

#[test]
fn magic_lookup_equals_ray_cast() {
    let tables = Tables::new();
    let mut prng = SeededPRNG::new(0x9E37_79B9_7F4A_7C15);
    for round in 0..2000 {
        let occupancy = if round % 2 == 0 {
            Bitboard::new(prng.get())
        } else {
            Bitboard::new(prng.roll())
        };
        for i in 0..64u8 {
            let sq = Square::from_index(i);
            let bishop = tables.bishop_magics().attack(sq, occupancy);
            let rook = tables.rook_magics().attack(sq, occupancy);
            assert_eq!(bishop, Some(tables.ray_bishop_attacks(sq, occupancy)));
            assert_eq!(rook, Some(tables.ray_rook_attacks(sq, occupancy)));
            assert_eq!(bishop, Some(slider_gen(sq, occupancy, false)));
            assert_eq!(rook, Some(slider_gen(sq, occupancy, true)));
            assert_eq!(
                tables.queen_attacks(sq, occupancy),
                bishop.unwrap().bitor(rook.unwrap())
            );
        }
    }
}

#[test]
fn rook_attacks_stop_at_the_first_blocker() {
    let tables = Tables::new();
    let occupancy = bb(&[Square::D4, Square::D6, Square::F4, Square::D7, Square::A4]);
    let expected = bb(&[
        Square::D5,
        Square::D6,
        Square::E4,
        Square::F4,
        Square::C4,
        Square::B4,
        Square::A4,
        Square::D3,
        Square::D2,
        Square::D1,
    ]);
    assert_eq!(tables.rook_attacks(Square::D4, occupancy), expected);
    assert_eq!(tables.ray_rook_attacks(Square::D4, occupancy), expected);
    assert_eq!(
        tables.slide(Square::D4, occupancy, Direction::North),
        bb(&[Square::D5, Square::D6])
    );
}

#[test]
fn bishop_attacks_on_an_empty_board() {
    let tables = Tables::new();
    let expected = bb(&[
        Square::B2,
        Square::C3,
        Square::D4,
        Square::E5,
        Square::F6,
        Square::G7,
        Square::H8,
    ]);
    assert_eq!(tables.bishop_attacks(Square::A1, Bitboard::new(0)), expected);
}

#[test]
fn rays_and_lines() {
    let tables = Tables::new();
    assert_eq!(
        tables.ray(Square::E4, Direction::NorthEast),
        bb(&[Square::F5, Square::G6, Square::H7])
    );
    assert_eq!(tables.ray(Square::H4, Direction::East), Bitboard::new(0));
    assert_eq!(
        tables.line(Square::A1, Square::C3),
        bb(&[
            Square::A1,
            Square::B2,
            Square::C3,
            Square::D4,
            Square::E5,
            Square::F6,
            Square::G7,
            Square::H8
        ])
    );
    assert_eq!(tables.line(Square::A1, Square::B3), Bitboard::new(0));
}

#[test]
fn knight_king_and_pawn_attacks() {
    let tables = Tables::new();
    assert_eq!(tables.knight_attacks(Square::A1), bb(&[Square::B3, Square::C2]));
    assert_eq!(
        tables.king_attacks(Square::H8),
        bb(&[Square::G8, Square::G7, Square::H7])
    );
    assert_eq!(
        tables.pawn_attacks(Square::E4, Color::White),
        bb(&[Square::D5, Square::F5])
    );
    assert_eq!(
        tables.pawn_attacks(Square::E4, Color::Black),
        bb(&[Square::D3, Square::F3])
    );
    assert_eq!(tables.pawn_attacks(Square::A2, Color::White), bb(&[Square::B3]));
    assert_eq!(tables.pawn_attacks(Square::E8, Color::White), Bitboard::new(0));
}

#[test]
fn interval_is_symmetric_and_open() {
    let tables = Tables::new();
    for a in 0..64u8 {
        for b in 0..64u8 {
            let x = Square::from_index(a);
            let y = Square::from_index(b);
            let between = Bitboard::interval(x, y, &tables);
            assert_eq!(between, Bitboard::interval(y, x, &tables));
            assert!(!between.has(x));
            assert!(!between.has(y));
            if !x.same_line(y) {
                assert!(between.zero());
            }
        }
    }
    assert_eq!(
        Bitboard::interval(Square::A1, Square::D4, &tables),
        bb(&[Square::B2, Square::C3])
    );
    assert_eq!(
        Bitboard::interval(Square::E1, Square::H1, &tables),
        bb(&[Square::F1, Square::G1])
    );
    assert_eq!(Bitboard::interval(Square::E1, Square::F1, &tables), Bitboard::new(0));
}

#[test]
fn subsets_are_counted_up() {
    assert_eq!(subsets_of(0), vec![0]);
    assert_eq!(subsets_of(0b101), vec![0, 1, 4, 5]);
    assert_eq!(subsets_of(0b1110).len(), 8);
    let all = subsets_of(0x0001_0100_0000_8001);
    assert_eq!(all.len(), 16);
    assert!(all.windows(2).all(|w| w[0] < w[1]));
    assert!(all.iter().all(|s| s & !0x0001_0100_0000_8001u64 == 0));
}

#[test]
fn generator_gives_the_same_words_for_the_same_seed() {
    let mut a = SeededPRNG::new(728);
    let mut b = SeededPRNG::new(728);
    let first = a.get();
    assert_eq!(first, b.get());
    assert_ne!(first, a.get());
    let mut c = SeededPRNG::new(1);
    // One step from 1: 1 ^ (1 << 25), then folded down by 27 places.
    assert_eq!(c.get(), 0x0200_0001u64.wrapping_mul(2685821657736338717));
}

#[test]
fn bits_are_extracted_through_a_mask() {
    assert_eq!(pext(0, 0), 0);
    assert_eq!(pext(u64::MAX, 0), 0);
    assert_eq!(pext(0b1011_0101, 0b0110_1100), 0b0101);
    assert_eq!(pext(0b1011_0101, 0b1111_1111), 0b1011_0101);
    assert_eq!(pext(u64::MAX, 0x8000_0000_0000_0001), 0b11);
    assert_eq!(pext(1 << 63, 0x8000_0000_0000_0001), 0b10);
    assert_eq!(pext(0x00ff_0000, 0x0101_0100), 0b010);
}

#[test]
fn tables_by_extraction_equal_magic_tables() {
    let tables = Tables::new();
    let (bishops, rooks) = init_pext();
    assert_eq!(bishops.found_count(), 64);
    assert_eq!(rooks.found_count(), 64);
    let mut prng = SeededPRNG::new(0x2545_F491_4F6C_DD1D);
    for round in 0..500 {
        let occupancy = if round % 2 == 0 {
            Bitboard::new(prng.get())
        } else {
            Bitboard::new(prng.roll())
        };
        for i in 0..64u8 {
            let sq = Square::from_index(i);
            assert_eq!(
                bishops.attack(sq, occupancy),
                tables.bishop_magics().attack(sq, occupancy)
            );
            assert_eq!(
                rooks.attack(sq, occupancy),
                tables.rook_magics().attack(sq, occupancy)
            );
        }
    }
}

#[test]
fn slots_follow_one_another() {
    let tables = Tables::new();
    for (table, total) in [(tables.bishop_magics(), 0x1480), (tables.rook_magics(), 0x19000)] {
        assert_eq!(table.span(Square::A1).0, 0);
        let mut end = 0;
        for i in 0..64u8 {
            let (offset, size) = table.span(Square::from_index(i));
            assert_eq!(offset, end);
            assert!(size.is_power_of_two());
            end = offset + size;
        }
        assert_eq!(end, total);
    }
    // A rook in the corner has twelve squares that matter, a bishop there six.
    assert_eq!(tables.rook_magics().span(Square::A1).1, 4096);
    assert_eq!(tables.bishop_magics().span(Square::A1).1, 64);
    assert_eq!(tables.rook_magics().span(Square::D4).1, 1024);
    assert_eq!(tables.bishop_magics().span(Square::D4).1, 512);
    let (bishops, rooks) = init_pext();
    for i in 0..64u8 {
        let sq = Square::from_index(i);
        assert_eq!(bishops.span(sq), tables.bishop_magics().span(sq));
        assert_eq!(rooks.span(sq), tables.rook_magics().span(sq));
    }
}

#[test]
fn a_roll_keeps_the_bits_that_three_words_share() {
    let mut rolling = SeededPRNG::new(10316);
    let mut plain = SeededPRNG::new(10316);
    for _ in 0..100 {
        let expected = plain.get() & plain.get() & plain.get();
        assert_eq!(rolling.roll(), expected);
    }
}

#[test]
fn both_kinds_of_tables_share_the_masks() {
    let (bishops, rooks) = init_magics();
    let (bishops_by_bits, rooks_by_bits) = init_pext();
    for i in 0..64u8 {
        let sq = Square::from_index(i);
        let (mask, multiplier) = rooks.mask_and_multiplier(sq);
        assert_eq!(mask, relevant_mask(sq, true));
        assert_eq!(rooks_by_bits.mask_and_multiplier(sq), (mask, 0));
        assert_eq!(rooks.span(sq).1, 1usize << mask.popcount());
        assert!((multiplier.wrapping_mul(mask.into_inner()) >> 56).count_ones() >= 6);
        let (mask, multiplier) = bishops.mask_and_multiplier(sq);
        assert_eq!(mask, relevant_mask(sq, false));
        assert_eq!(bishops_by_bits.mask_and_multiplier(sq), (mask, 0));
        assert_eq!(bishops.span(sq).1, 1usize << mask.popcount());
        assert!((multiplier.wrapping_mul(mask.into_inner()) >> 56).count_ones() >= 6);
        assert!(1 <= mask.popcount() && mask.popcount() <= 12);
    }
    // The mask of a rook on a1: the rest of its rank and file without the far ends.
    assert_eq!(relevant_mask(Square::A1, true).into_inner(), 0x0001_0101_0101_017e);
    assert_eq!(relevant_mask(Square::D4, false).into_inner(), 0x0040_2214_0014_2200);
}

#[test]
fn the_first_word_that_serves_is_the_multiplier() {
    // The search for the rook on a1 is done again by hand: the words rolled from the
    // seed of the first rank are tried in turn until one spreads the mask well and
    // sends no two subsets with different attacks to one slot.
    let (_, rooks) = init_magics();
    let sq = Square::A1;
    let (mask, multiplier) = rooks.mask_and_multiplier(sq);
    let subsets = subsets_of(mask.into_inner());
    let mut prng = SeededPRNG::new(728);
    let found = loop {
        let magic = prng.roll();
        if (magic.wrapping_mul(mask.into_inner()) >> 56).count_ones() < 6 {
            continue;
        }
        let mut slots: Vec<Option<Bitboard>> = vec![None; 4096];
        let mut clash = false;
        for s in &subsets {
            let index = (s.wrapping_mul(magic) >> 52) as usize;
            let attacks = slider_gen(sq, Bitboard::new(*s), true);
            match slots[index] {
                None => slots[index] = Some(attacks),
                Some(held) => {
                    if held != attacks {
                        clash = true;
                        break;
                    }
                }
            }
        }
        if !clash {
            break magic;
        }
    };
    assert_eq!(found, multiplier);
}
