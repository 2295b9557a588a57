use vstd::prelude::*;
use vstd::std_specs::convert::FromSpecImpl;
use vstd::std_specs::convert::TryFromSpecImpl;
use vstd::std_specs::ops::{BitAndSpecImpl, BitOrSpecImpl, BitXorSpecImpl, NotSpecImpl, ShlSpecImpl};

use crate::bitboard::Bitboard;
use crate::color::Color;
use crate::square::{Direction, File, Rank, Square};

verus! {

impl core::ops::Not for Bitboard {
    type Output = Self;

    fn not(self) -> (r: Self) {
        Bitboard(!self.0)
    }
}

impl NotSpecImpl for Bitboard {
    open spec fn obeys_not_spec() -> bool {
        true
    }

    open spec fn not_req(self) -> bool {
        true
    }

    open spec fn not_spec(self) -> Self {
        self.complement()
    }
}

impl core::ops::BitAnd for Bitboard {
    type Output = Bitboard;

    fn bitand(self, rhs: Self) -> (r: Bitboard) {
        Bitboard(self.0 & rhs.0)
    }
}

impl BitAndSpecImpl for Bitboard {
    open spec fn obeys_bitand_spec() -> bool {
        true
    }

    open spec fn bitand_req(self, rhs: Self) -> bool {
        true
    }

    open spec fn bitand_spec(self, rhs: Self) -> Bitboard {
        self.and(rhs)
    }
}

impl core::ops::BitOr for Bitboard {
    type Output = Bitboard;

    fn bitor(self, rhs: Self) -> (r: Bitboard) {
        Bitboard(self.0 | rhs.0)
    }
}

impl BitOrSpecImpl for Bitboard {
    open spec fn obeys_bitor_spec() -> bool {
        true
    }

    open spec fn bitor_req(self, rhs: Self) -> bool {
        true
    }

    open spec fn bitor_spec(self, rhs: Self) -> Bitboard {
        self.or(rhs)
    }
}

impl core::ops::BitXor for Bitboard {
    type Output = Bitboard;

    fn bitxor(self, rhs: Self) -> (r: Bitboard) {
        Bitboard(self.0 ^ rhs.0)
    }
}

impl BitXorSpecImpl for Bitboard {
    open spec fn obeys_bitxor_spec() -> bool {
        true
    }

    open spec fn bitxor_req(self, rhs: Self) -> bool {
        true
    }

    open spec fn bitxor_spec(self, rhs: Self) -> Bitboard {
        self.xor(rhs)
    }
}

impl core::ops::Shl<Direction> for Bitboard {
    type Output = Self;

    fn shl(self, rhs: Direction) -> (r: Self) {
        self.shift(rhs)
    }
}

impl ShlSpecImpl<Direction> for Bitboard {
    open spec fn obeys_shl_spec() -> bool {
        true
    }

    open spec fn shl_req(self, rhs: Direction) -> bool {
        true
    }

    open spec fn shl_spec(self, rhs: Direction) -> Self {
        self.shifted(rhs)
    }
}

impl core::ops::Not for Color {
    type Output = Self;

    fn not(self) -> (r: Self) {
        match self {
            Color::White => Color::Black,
            Color::Black => Color::White,
        }
    }
}

impl NotSpecImpl for Color {
    open spec fn obeys_not_spec() -> bool {
        true
    }

    open spec fn not_req(self) -> bool {
        true
    }

    open spec fn not_spec(self) -> Self {
        self.opposite()
    }
}

impl core::ops::Not for Direction {
    type Output = Self;

    fn not(self) -> (r: Self) {
        match self {
            Direction::North => Direction::South,
            Direction::South => Direction::North,
            Direction::East => Direction::West,
            Direction::West => Direction::East,
            Direction::NorthEast => Direction::SouthWest,
            Direction::SouthWest => Direction::NorthEast,
            Direction::NorthWest => Direction::SouthEast,
            Direction::SouthEast => Direction::NorthWest,
        }
    }
}

impl NotSpecImpl for Direction {
    open spec fn obeys_not_spec() -> bool {
        true
    }

    open spec fn not_req(self) -> bool {
        true
    }

    open spec fn not_spec(self) -> Self {
        self.opposite()
    }
}

impl From<u64> for Bitboard {
    fn from(value: u64) -> (r: Self) {
        Bitboard(value)
    }
}

impl FromSpecImpl<u64> for Bitboard {
    open spec fn obeys_from_spec() -> bool {
        true
    }

    open spec fn from_spec(value: u64) -> Self {
        Bitboard(value)
    }
}

impl From<Bitboard> for u64 {
    fn from(value: Bitboard) -> (r: Self) {
        value.0
    }
}

impl FromSpecImpl<Bitboard> for u64 {
    open spec fn obeys_from_spec() -> bool {
        true
    }

    open spec fn from_spec(value: Bitboard) -> Self {
        value.0
    }
}

impl From<Bitboard> for bool {
    fn from(value: Bitboard) -> (r: Self) {
        value.0 != 0
    }
}

impl FromSpecImpl<Bitboard> for bool {
    open spec fn obeys_from_spec() -> bool {
        true
    }

    open spec fn from_spec(value: Bitboard) -> Self {
        !value.is_empty()
    }
}

impl From<Square> for Bitboard {
    fn from(value: Square) -> (r: Self) {
        Bitboard::from_square(value)
    }
}

impl FromSpecImpl<Square> for Bitboard {
    open spec fn obeys_from_spec() -> bool {
        true
    }

    open spec fn from_spec(value: Square) -> Self {
        Bitboard::single(value)
    }
}

impl From<Option<Square>> for Bitboard {
    fn from(value: Option<Square>) -> (r: Self) {
        Bitboard::from_option(value)
    }
}

impl FromSpecImpl<Option<Square>> for Bitboard {
    open spec fn obeys_from_spec() -> bool {
        true
    }

    open spec fn from_spec(value: Option<Square>) -> Self {
        Bitboard::of_option(value)
    }
}

impl From<File> for Bitboard {
    fn from(value: File) -> (r: Self) {
        Bitboard::from_file(value)
    }
}

impl FromSpecImpl<File> for Bitboard {
    open spec fn obeys_from_spec() -> bool {
        true
    }

    open spec fn from_spec(value: File) -> Self {
        Bitboard::file_mask(value as int)
    }
}

impl From<Rank> for Bitboard {
    fn from(value: Rank) -> (r: Self) {
        Bitboard::from_rank(value)
    }
}

impl FromSpecImpl<Rank> for Bitboard {
    open spec fn obeys_from_spec() -> bool {
        true
    }

    open spec fn from_spec(value: Rank) -> Self {
        Bitboard::rank_mask(value as int)
    }
}

impl From<Square> for u8 {
    fn from(value: Square) -> (r: Self) {
        value.idx()
    }
}

impl FromSpecImpl<Square> for u8 {
    open spec fn obeys_from_spec() -> bool {
        true
    }

    open spec fn from_spec(value: Square) -> Self {
        value.index() as u8
    }
}

impl From<File> for char {
    fn from(value: File) -> (r: Self) {
        value.to_char()
    }
}

impl FromSpecImpl<File> for char {
    open spec fn obeys_from_spec() -> bool {
        true
    }

    open spec fn from_spec(value: File) -> Self {
        (97 + value as int) as u8 as char
    }
}

impl From<Rank> for char {
    fn from(value: Rank) -> (r: Self) {
        value.to_char()
    }
}

impl FromSpecImpl<Rank> for char {
    open spec fn obeys_from_spec() -> bool {
        true
    }

    open spec fn from_spec(value: Rank) -> Self {
        (49 + value as int) as u8 as char
    }
}

impl TryFrom<[u8; 2]> for Square {
    type Error = ();

    fn try_from(value: [u8; 2]) -> (r: Result<Self, Self::Error>) {
        match Square::from_bytes(value[0], value[1]) {
            Some(s) => Ok(s),
            None => Err(()),
        }
    }
}

impl TryFromSpecImpl<[u8; 2]> for Square {
    open spec fn obeys_try_from_spec() -> bool {
        true
    }

    open spec fn try_from_spec(value: [u8; 2]) -> Result<Self, Self::Error> {
        match Square::parse(value@[0], value@[1]) {
            Some(s) => Ok(s),
            None => Err(()),
        }
    }
}

} // verus!
