use vstd::prelude::*;

use crate::bits::{
    bits_below, count_ones_below, get_bit, lemma_bit_masks, lemma_bit_ops, lemma_bit_shift_file,
    lemma_bit_shift_rank, lemma_bit_single, lemma_bit_test, lemma_bits_below, lemma_bits_equal,
    lemma_clear_bit, lemma_clear_lowest, lemma_count_ones_below, FILE_A, FILE_H, RANK_1,
};
use crate::square::{
    lemma_square_at, lemma_square_at_xy, lemma_square_index, on_board, Direction, File, Rank,
    Square,
};

verus! {

/// A set of squares, held as one bit for each square: bit `i` stands for the square
/// with number `i`.
#[derive(Debug, PartialEq, PartialOrd, Eq, Ord, Clone, Copy, Structural)]
pub struct Bitboard(pub u64);

/// A cursor over the squares of a bitboard that can be advanced from either end.
#[derive(Debug)]
pub struct BitboardIter(Bitboard);

impl View for Bitboard {
    type V = Set<Square>;

    open spec fn view(&self) -> Set<Square> {
        Set::new(|s: Square| self.contains(s))
    }
}

impl Bitboard {
    /// Whether bit `i` is set; false for a number that names no square.
    pub open spec fn bit(self, i: int) -> bool {
        0 <= i < 64 && get_bit(self.0, i as u64)
    }

    /// Whether the square belongs to the set.
    pub open spec fn contains(self, s: Square) -> bool {
        self.bit(s.index())
    }

    /// Whether the set holds the square on file number `x` and rank number `y`; false
    /// where the board has no such square.
    pub open spec fn has_xy(self, x: int, y: int) -> bool {
        on_board(x, y) && self.bit(x + 8 * y)
    }

    /// Whether the set is empty.
    pub open spec fn is_empty(self) -> bool {
        self.0 == 0
    }

    /// The set without any square.
    pub open spec fn empty() -> Bitboard {
        Bitboard(0)
    }

    /// The set of all squares.
    pub open spec fn full() -> Bitboard {
        Bitboard(0xffff_ffff_ffff_ffff)
    }

    /// The set that holds `s` alone.
    pub open spec fn single(s: Square) -> Bitboard {
        Bitboard(1u64 << (s.index() as u64))
    }

    /// The set that holds `s`, if there is one, and nothing else.
    pub open spec fn of_option(s: Option<Square>) -> Bitboard {
        match s {
            Some(q) => Bitboard::single(q),
            None => Bitboard::empty(),
        }
    }

    /// The squares of the rank with number `k`.
    pub open spec fn rank_mask(k: int) -> Bitboard {
        Bitboard(RANK_1 << ((k * 8) as u64))
    }

    /// The squares of the file with number `k`.
    pub open spec fn file_mask(k: int) -> Bitboard {
        Bitboard(FILE_A << (k as u64))
    }

    /// The intersection of two sets.
    pub open spec fn and(self, other: Bitboard) -> Bitboard {
        Bitboard(self.0 & other.0)
    }

    /// The union of two sets.
    pub open spec fn or(self, other: Bitboard) -> Bitboard {
        Bitboard(self.0 | other.0)
    }

    /// The squares that belong to exactly one of two sets.
    pub open spec fn xor(self, other: Bitboard) -> Bitboard {
        Bitboard(self.0 ^ other.0)
    }

    /// The squares that do not belong to the set.
    pub open spec fn complement(self) -> Bitboard {
        Bitboard(!self.0)
    }

    /// The set without the square `s`.
    pub open spec fn without(self, s: Square) -> Bitboard {
        self.and(Bitboard::single(s).complement())
    }

    /// The set moved one step in direction `d`; what would leave the board is dropped.
    pub open spec fn shifted(self, d: Direction) -> Bitboard {
        match d {
            Direction::North => Bitboard(self.0 << 8),
            Direction::South => Bitboard(self.0 >> 8),
            Direction::East => Bitboard((self.0 << 1) & !FILE_A),
            Direction::West => Bitboard((self.0 >> 1) & !FILE_H),
            Direction::NorthEast => Bitboard(((self.0 << 8) << 1) & !FILE_A),
            Direction::NorthWest => Bitboard(((self.0 << 8) >> 1) & !FILE_H),
            Direction::SouthEast => Bitboard(((self.0 >> 8) << 1) & !FILE_A),
            Direction::SouthWest => Bitboard(((self.0 >> 8) >> 1) & !FILE_H),
        }
    }

    /// The square with the lowest number in a set that is not empty.
    pub open spec fn lowest(self) -> Square {
        Square::at(vstd::std_specs::bits::u64_trailing_zeros(self.0) as int)
    }

    /// The square with the highest number in a set that is not empty.
    pub open spec fn highest(self) -> Square {
        Square::at(63 - vstd::std_specs::bits::u64_leading_zeros(self.0))
    }

    /// The number of squares in the set.
    pub open spec fn count(self) -> nat {
        count_ones_below(self.0, 64)
    }

    /// Whether the set holds two different squares.
    pub open spec fn has_two(self) -> bool {
        exists|a: Square, b: Square| a != b && self.contains(a) && self.contains(b)
    }

    /// The bitboard of a set of squares.
    pub closed spec fn from_set(s: Set<Square>) -> Bitboard {
        Bitboard(bits_below(|i: int| s.contains(Square::at(i)), 64))
    }

    /// The squares of the set in the order of their numbers, lowest first.
    pub open spec fn to_seq(self) -> Seq<Square>
        decreases self.0,
    {
        if self.0 == 0 {
            Seq::empty()
        } else if self.without(self.lowest()).0 < self.0 {
            seq![self.lowest()] + self.without(self.lowest()).to_seq()
        } else {
            Seq::empty()
        }
    }

    /// The set whose bits are those of `value`.
    pub fn new(value: u64) -> (r: Self)
        ensures
            r.0 == value,
    {
        Self(value)
    }

    /// The bits of the set.
    pub fn into_inner(self) -> (r: u64)
        ensures
            r == self.0,
    {
        self.0
    }

    /// The square with the lowest number in the set.
    pub fn lsb(self) -> (r: Square)
        requires
            !self.is_empty(),
        ensures
            r == self.lowest(),
            self.contains(r),
            forall|s: Square| self.contains(s) ==> r.index() <= s.index(),
    {
        proof {
            lemma_lowest(self);
            vstd::std_specs::bits::axiom_u64_trailing_zeros(self.0);
        }
        let index: u8 = self.0.trailing_zeros() as u8;
        Square::from_index(index)
    }

    /// The square with the lowest number in the set, for callers that know the set to
    /// hold a square.
    #[inline]
    pub fn lsb_unchecked(self) -> (r: Square)
        requires
            !self.is_empty(),
        ensures
            r == self.lowest(),
            self.contains(r),
            forall|s: Square| self.contains(s) ==> r.index() <= s.index(),
    {
        self.lsb()
    }

    /// The set without its square of lowest number; the empty set stays empty.
    pub fn without_lsb(self) -> (r: Self)
        ensures
            self.is_empty() ==> r.is_empty(),
            !self.is_empty() ==> r == self.without(self.lowest()) && r.0 < self.0,
    {
        if self.0 == 0 {
            Self(0)
        } else {
            proof {
                lemma_lowest(self);
            }
            Self(self.0 & (self.0 - 1))
        }
    }

    /// The square with the highest number in the set.
    pub fn msb(self) -> (r: Square)
        requires
            !self.is_empty(),
        ensures
            r == self.highest(),
            self.contains(r),
            forall|s: Square| self.contains(s) ==> r.index() >= s.index(),
    {
        proof {
            lemma_highest(self);
            vstd::std_specs::bits::axiom_u64_leading_zeros(self.0);
        }
        let index: u8 = self.0.leading_zeros() as u8;
        Square::from_index(63 - index)
    }

    /// Whether the square belongs to the set.
    pub fn has(self, sq: Square) -> (r: bool)
        ensures
            r == self.contains(sq),
    {
        proof {
            lemma_square_index(sq);
            lemma_bit_test(self.0, sq.index() as u64);
        }
        (self.0 & (1u64 << (sq.idx() as u64))) != 0
    }

    /// Whether the set is empty.
    pub fn zero(self) -> (r: bool)
        ensures
            r == self.is_empty(),
    {
        self.0 == 0
    }

    /// Whether the set holds a square.
    pub fn nonzero(self) -> (r: bool)
        ensures
            r == !self.is_empty(),
    {
        !self.zero()
    }

    /// Whether the set holds at least two squares.
    pub fn more_than_one(self) -> (r: bool)
        ensures
            r == self.has_two(),
            r ==> !self.is_empty(),
    {
        if self.0 == 0 {
            proof {
                lemma_empty(self);
            }
            false
        } else {
            proof {
                lemma_lowest(self);
                let rest = self.without(self.lowest());
                lemma_empty(rest);
                if rest.0 != 0 {
                    let b = choose|b: Square| rest.contains(b);
                    lemma_without(self, self.lowest(), b);
                    assert(self.contains(self.lowest()) && self.contains(b) && b
                        != self.lowest());
                } else {
                    assert forall|a: Square, b: Square|
                        a != b && self.contains(a) && self.contains(b) implies false by {
                        lemma_without(self, self.lowest(), a);
                        lemma_without(self, self.lowest(), b);
                    }
                }
            }
            (self.0 & (self.0 - 1)) != 0
        }
    }

    /// The number of squares in the set.
    pub fn popcount(self) -> (r: i32)
        ensures
            r == self.count(),
            0 <= r <= 64,
    {
        proof {
            lemma_count_ones_below(self.0, 64);
        }
        self.0.count_ones() as i32
    }

    /// The union of two sets.
    pub fn bitor(self, other: Self) -> (r: Self)
        ensures
            r == self.or(other),
    {
        Self(self.0 | other.0)
    }

    /// The intersection of two sets.
    pub fn bitand(self, other: Self) -> (r: Self)
        ensures
            r == self.and(other),
    {
        Self(self.0 & other.0)
    }

    /// The squares that belong to exactly one of two sets.
    pub fn bitxor(self, other: Self) -> (r: Self)
        ensures
            r == self.xor(other),
    {
        Self(self.0 ^ other.0)
    }

    /// Adds the squares of `other` to the set.
    pub fn bitor_assign(&mut self, other: Self)
        ensures
            *final(self) == old(self).or(other),
    {
        self.0 = self.0 | other.0;
    }

    /// Keeps the squares that `other` holds too.
    pub fn bitand_assign(&mut self, other: Self)
        ensures
            *final(self) == old(self).and(other),
    {
        self.0 = self.0 & other.0;
    }

    /// Takes out the squares that `other` holds and adds those it alone holds.
    pub fn bitxor_assign(&mut self, other: Self)
        ensures
            *final(self) == old(self).xor(other),
    {
        self.0 = self.0 ^ other.0;
    }

    /// The squares that do not belong to the set.
    pub fn not(self) -> (r: Self)
        ensures
            r == self.complement(),
    {
        Self(!self.0)
    }

    /// The squares of a rank.
    pub fn from_rank(rank: Rank) -> (r: Self)
        ensures
            r == Bitboard::rank_mask(rank as int),
            forall|s: Square| #[trigger] r.contains(s) == (s.rank_index() == rank as int),
    {
        proof {
            let k = rank as int;
            assert forall|s: Square| #[trigger]
                Bitboard::rank_mask(k).contains(s) == (s.rank_index() == k) by {
                lemma_masks(s, k);
            }
        }
        let k: u64 = rank as u64 * 8;
        Self(RANK_1 << k)
    }

    /// The squares of a file.
    pub fn from_file(file: File) -> (r: Self)
        ensures
            r == Bitboard::file_mask(file as int),
            forall|s: Square| #[trigger] r.contains(s) == (s.file_index() == file as int),
    {
        proof {
            let k = file as int;
            assert forall|s: Square| #[trigger]
                Bitboard::file_mask(k).contains(s) == (s.file_index() == k) by {
                lemma_masks(s, k);
            }
        }
        let k: u64 = file as u64;
        Self(FILE_A << k)
    }

    /// The set that holds one square.
    pub fn from_square(square: Square) -> (r: Self)
        ensures
            r == Bitboard::single(square),
            forall|s: Square| #[trigger] r.contains(s) == (s == square),
    {
        let r = Self(1u64 << (square.idx() as u64));
        proof {
            assert(r == Bitboard::single(square));
            assert forall|s: Square| #[trigger] r.contains(s) == (s == square) by {
                lemma_single(square, s);
            }
        }
        r
    }

    /// The set that holds the square, if there is one.
    pub fn from_option(square: Option<Square>) -> (r: Self)
        ensures
            r == Bitboard::of_option(square),
            forall|s: Square| #[trigger] r.contains(s) == (square == Some(s)),
    {
        match square {
            Some(s) => Self::from_square(s),
            None => {
                proof {
                    lemma_empty(Bitboard(0));
                }
                Self(0)
            },
        }
    }

    /// The squares of all the given ranks.
    pub fn from_ranks<const N: usize>(ranks: [Rank; N]) -> (r: Self)
        ensures
            forall|s: Square| #[trigger]
                r.contains(s) == (exists|i: int|
                    0 <= i < N && (#[trigger] ranks@[i]) as int == s.rank_index()),
    {
        let mut rv = Self(0);
        let mut i: usize = 0;
        proof {
            lemma_empty(rv);
        }
        while i < N
            invariant
                i <= N,
                forall|s: Square| #[trigger]
                    rv.contains(s) == (exists|j: int|
                        0 <= j < i && (#[trigger] ranks@[j]) as int == s.rank_index()),
            decreases N - i,
        {
            let m = Self::from_rank(ranks[i]);
            let ghost before = rv;
            rv.bitor_assign(m);
            proof {
                assert forall|s: Square| #[trigger]
                    rv.contains(s) == (exists|j: int|
                        0 <= j < i + 1 && (#[trigger] ranks@[j]) as int == s.rank_index()) by {
                    lemma_algebra(before, m, s);
                    if m.contains(s) {
                        assert(ranks@[i as int] as int == s.rank_index());
                    }
                }
            }
            i += 1;
        }
        rv
    }

    /// The squares of all the given files.
    pub fn from_files<const N: usize>(files: [File; N]) -> (r: Self)
        ensures
            forall|s: Square| #[trigger]
                r.contains(s) == (exists|i: int|
                    0 <= i < N && (#[trigger] files@[i]) as int == s.file_index()),
    {
        let mut rv = Self(0);
        let mut i: usize = 0;
        proof {
            lemma_empty(rv);
        }
        while i < N
            invariant
                i <= N,
                forall|s: Square| #[trigger]
                    rv.contains(s) == (exists|j: int|
                        0 <= j < i && (#[trigger] files@[j]) as int == s.file_index()),
            decreases N - i,
        {
            let m = Self::from_file(files[i]);
            let ghost before = rv;
            rv.bitor_assign(m);
            proof {
                assert forall|s: Square| #[trigger]
                    rv.contains(s) == (exists|j: int|
                        0 <= j < i + 1 && (#[trigger] files@[j]) as int == s.file_index()) by {
                    lemma_algebra(before, m, s);
                    if m.contains(s) {
                        assert(files@[i as int] as int == s.file_index());
                    }
                }
            }
            i += 1;
        }
        rv
    }

    /// The set of the given squares.
    pub fn from_squares<const N: usize>(squares: [Square; N]) -> (r: Self)
        ensures
            forall|s: Square| #[trigger] r.contains(s) == squares@.contains(s),
    {
        let mut rv = Self(0);
        let mut i: usize = 0;
        proof {
            lemma_empty(rv);
        }
        while i < N
            invariant
                i <= N,
                forall|s: Square| #[trigger]
                    rv.contains(s) == (exists|j: int| 0 <= j < i && #[trigger] squares@[j] == s),
            decreases N - i,
        {
            let m = Self::from_square(squares[i]);
            let ghost before = rv;
            rv.bitor_assign(m);
            proof {
                assert forall|s: Square| #[trigger]
                    rv.contains(s) == (exists|j: int|
                        0 <= j < i + 1 && #[trigger] squares@[j] == s) by {
                    lemma_algebra(before, m, s);
                    if m.contains(s) {
                        assert(squares@[i as int] == s);
                    }
                }
            }
            i += 1;
        }
        rv
    }

    /// The bits moved towards the higher numbers by `shift` places.
    pub fn shl(self, shift: i32) -> (r: Self)
        requires
            0 <= shift < 64,
        ensures
            r.0 == self.0 << (shift as u64),
    {
        let k: u64 = shift as u64;
        Self(self.0 << k)
    }

    /// The bits moved towards the lower numbers by `shift` places.
    pub fn shr(self, shift: i32) -> (r: Self)
        requires
            0 <= shift < 64,
        ensures
            r.0 == self.0 >> (shift as u64),
    {
        let k: u64 = shift as u64;
        Self(self.0 >> k)
    }

    /// Every square of the set moved one step in direction `dir`; a square that would
    /// leave the board, or wrap round its edge, is dropped.
    pub fn shift(self, dir: Direction) -> (r: Self)
        ensures
            r == self.shifted(dir),
            forall|t: Square| #[trigger]
                r.contains(t) == match t.neighbor(dir.opposite()) {
                    Some(u) => self.contains(u),
                    None => false,
                },
    {
        proof {
            assert forall|t: Square| #[trigger]
                self.shifted(dir).contains(t) == match t.neighbor(dir.opposite()) {
                    Some(u) => self.contains(u),
                    None => false,
                } by {
                lemma_shifted(self, dir, t);
            }
        }
        match dir {
            Direction::East => Self((self.0 << 1) & !FILE_A),
            Direction::West => Self((self.0 >> 1) & !FILE_H),
            Direction::North => Self(self.0 << 8),
            Direction::South => Self(self.0 >> 8),
            Direction::NorthEast => Self(((self.0 << 8) << 1) & !FILE_A),
            Direction::NorthWest => Self(((self.0 << 8) >> 1) & !FILE_H),
            Direction::SouthEast => Self(((self.0 >> 8) << 1) & !FILE_A),
            Direction::SouthWest => Self(((self.0 >> 8) >> 1) & !FILE_H),
        }
    }

    /// The difference of the two words, modulo 2^64.
    pub fn sub(self, other: Self) -> (r: Self)
        ensures
            r.0 == vstd::wrapping::u64_specs::wrapping_sub(self.0, other.0),
    {
        Self(self.0.wrapping_sub(other.0))
    }

    /// The product of the two words, modulo 2^64.
    pub fn mul(self, other: Self) -> (r: Self)
        ensures
            r.0 == vstd::wrapping::u64_specs::wrapping_mul(self.0, other.0),
    {
        Self(self.0.wrapping_mul(other.0))
    }

    /// The sum of the two words, modulo 2^64.
    pub fn add(self, other: Self) -> (r: Self)
        ensures
            r.0 == vstd::wrapping::u64_specs::wrapping_add(self.0, other.0),
    {
        Self(self.0.wrapping_add(other.0))
    }

    /// A cursor over the squares of the set.
    pub fn into_iter(self) -> (r: BitboardIter)
        ensures
            r.remaining() == self,
    {
        BitboardIter(self)
    }

    /// The squares of the set, lowest number first.
    pub fn squares(self) -> (r: Vec<Square>)
        ensures
            r@ == self.to_seq(),
    {
        let mut out: Vec<Square> = Vec::new();
        let mut rest = self;
        while rest.0 != 0
            invariant
                out@ + rest.to_seq() == self.to_seq(),
            decreases rest.0,
        {
            let s = rest.lsb();
            let next = rest.without_lsb();
            proof {
                assert(rest.to_seq() == seq![s] + next.to_seq());
                assert(out@.push(s) + next.to_seq() =~= out@ + rest.to_seq());
            }
            out.push(s);
            rest = next;
        }
        proof {
            assert(out@ + rest.to_seq() =~= out@);
        }
        out
    }
}

impl BitboardIter {
    /// The squares that the cursor has not handed out yet.
    pub closed spec fn remaining(&self) -> Bitboard {
        self.0
    }

    /// Hands out the remaining square of lowest number.
    pub fn next(&mut self) -> (r: Option<Square>)
        ensures
            match r {
                Some(s) => !old(self).remaining().is_empty() && s == old(self).remaining().lowest()
                    && final(self).remaining() == old(self).remaining().without(s)
                    && final(self).remaining().0 < old(self).remaining().0,
                None => old(self).remaining().is_empty() && final(self).remaining().is_empty(),
            },
    {
        if self.0.0 == 0 {
            None
        } else {
            let s = self.0.lsb();
            self.0 = self.0.without_lsb();
            Some(s)
        }
    }

    /// Hands out the remaining square of highest number.
    pub fn next_back(&mut self) -> (r: Option<Square>)
        ensures
            match r {
                Some(s) => !old(self).remaining().is_empty() && s
                    == old(self).remaining().highest() && final(self).remaining()
                    == old(self).remaining().without(s) && final(self).remaining().0 < old(
                    self,
                ).remaining().0,
                None => old(self).remaining().is_empty() && final(self).remaining().is_empty(),
            },
    {
        if self.0.0 == 0 {
            None
        } else {
            let s = self.0.msb();
            proof {
                lemma_square_index(s);
                lemma_clear_bit(self.0.0, s.index() as u64);
            }
            self.0 = Bitboard(self.0.0 ^ (1u64 << (s.idx() as u64)));
            Some(s)
        }
    }
}

/// Two bitboards that hold the same squares are equal.
pub proof fn lemma_ext(a: Bitboard, b: Bitboard)
    requires
        forall|s: Square| a.contains(s) == b.contains(s),
    ensures
        a == b,
{
    assert forall|i: u64| i < 64 implies get_bit(a.0, i) == get_bit(b.0, i) by {
        let s = Square::at(i as int);
        lemma_square_at(i as int);
        assert(a.contains(s) == b.contains(s));
    }
    lemma_bits_equal(a.0, b.0);
}

/// The empty bitboard is the one that holds no square.
pub proof fn lemma_empty(a: Bitboard)
    ensures
        a.is_empty() <==> (forall|s: Square| !a.contains(s)),
        !a.is_empty() ==> exists|s: Square| a.contains(s),
{
    if a.0 == 0 {
        assert forall|s: Square| !a.contains(s) by {
            lemma_square_index(s);
            lemma_bit_ops(0, 0, s.index() as u64);
        }
    } else {
        lemma_lowest(a);
        assert(a.contains(a.lowest()));
    }
}

/// What the set operations do to membership.
pub proof fn lemma_algebra(a: Bitboard, b: Bitboard, s: Square)
    ensures
        a.and(b).contains(s) == (a.contains(s) && b.contains(s)),
        a.or(b).contains(s) == (a.contains(s) || b.contains(s)),
        a.xor(b).contains(s) == (a.contains(s) != b.contains(s)),
        a.complement().contains(s) == !a.contains(s),
        !Bitboard::empty().contains(s),
        Bitboard::full().contains(s),
{
    lemma_square_index(s);
    lemma_bit_ops(a.0, b.0, s.index() as u64);
}

/// The bitboard of one square holds that square alone.
pub proof fn lemma_single(q: Square, s: Square)
    ensures
        Bitboard::single(q).contains(s) == (s == q),
{
    lemma_square_index(s);
    lemma_square_index(q);
    lemma_bit_single(q.index() as u64, s.index() as u64);
}

/// Taking a square away leaves the other squares of the set.
pub proof fn lemma_without(a: Bitboard, q: Square, s: Square)
    ensures
        a.without(q).contains(s) == (a.contains(s) && s != q),
{
    lemma_algebra(a, Bitboard::single(q).complement(), s);
    lemma_algebra(Bitboard::single(q), a, s);
    lemma_single(q, s);
}

/// The squares of a rank mask and of a file mask.
pub proof fn lemma_masks(s: Square, k: int)
    requires
        0 <= k < 8,
    ensures
        Bitboard::rank_mask(k).contains(s) == (s.rank_index() == k),
        Bitboard::file_mask(k).contains(s) == (s.file_index() == k),
{
    lemma_square_index(s);
    lemma_bit_masks(k as u64, s.index() as u64);
}

/// A shifted set holds a square exactly when the set held the square one step back.
pub proof fn lemma_shifted(b: Bitboard, d: Direction, t: Square)
    ensures
        b.shifted(d).contains(t) == match t.neighbor(d.opposite()) {
            Some(u) => b.contains(u),
            None => false,
        },
{
    lemma_square_index(t);
    let i = t.index() as u64;
    let x = t.file_index() - d.dx();
    let y = t.rank_index() - d.dy();
    if on_board(x, y) {
        lemma_square_at_xy(x, y);
    }
    match d {
        Direction::North => {
            lemma_bit_shift_rank(b.0, i);
        },
        Direction::South => {
            lemma_bit_shift_rank(b.0, i);
        },
        Direction::East => {
            lemma_bit_shift_file(b.0, i);
        },
        Direction::West => {
            lemma_bit_shift_file(b.0, i);
        },
        Direction::NorthEast => {
            lemma_bit_shift_file(b.0 << 8, i);
            if i % 8 != 0 {
                lemma_bit_shift_rank(b.0, (i - 1) as u64);
            }
        },
        Direction::NorthWest => {
            lemma_bit_shift_file(b.0 << 8, i);
            if i % 8 != 7 {
                lemma_bit_shift_rank(b.0, (i + 1) as u64);
            }
        },
        Direction::SouthEast => {
            lemma_bit_shift_file(b.0 >> 8, i);
            if i % 8 != 0 {
                lemma_bit_shift_rank(b.0, (i - 1) as u64);
            }
        },
        Direction::SouthWest => {
            lemma_bit_shift_file(b.0 >> 8, i);
            if i % 8 != 7 {
                lemma_bit_shift_rank(b.0, (i + 1) as u64);
            }
        },
    }
}

/// Membership by square and membership by file and rank numbers agree.
pub proof fn lemma_has_xy(b: Bitboard, s: Square)
    ensures
        b.contains(s) == b.has_xy(s.file_index(), s.rank_index()),
{
    lemma_square_index(s);
}

/// Membership by file and rank numbers is membership of the square they name.
pub proof fn lemma_has_xy_at(b: Bitboard, x: int, y: int)
    requires
        on_board(x, y),
    ensures
        b.has_xy(x, y) == b.contains(Square::at_xy(x, y)),
{
    lemma_square_at_xy(x, y);
}

/// A shifted set holds a square exactly when the set held the square one step back.
pub proof fn lemma_shifted_xy(b: Bitboard, d: Direction, x: int, y: int)
    ensures
        b.shifted(d).has_xy(x, y) == (on_board(x, y) && b.has_xy(
            x - d.dx(),
            y - d.dy(),
        )),
{
    if on_board(x, y) {
        let t = Square::at_xy(x, y);
        lemma_square_at_xy(x, y);
        lemma_shifted(b, d, t);
        if on_board(x - d.dx(), y - d.dy()) {
            lemma_square_at_xy(x - d.dx(), y - d.dy());
        }
    }
}

/// Membership by file and rank numbers in a one-square set, a union and an
/// intersection.
pub proof fn lemma_algebra_xy(a: Bitboard, b: Bitboard, x: int, y: int)
    ensures
        a.and(b).has_xy(x, y) == (a.has_xy(x, y) && b.has_xy(x, y)),
        a.or(b).has_xy(x, y) == (a.has_xy(x, y) || b.has_xy(x, y)),
        a.xor(b).has_xy(x, y) == (a.has_xy(x, y) != b.has_xy(x, y)),
        !Bitboard(0).has_xy(x, y),
{
    if on_board(x, y) {
        lemma_square_at_xy(x, y);
        lemma_algebra(a, b, Square::at_xy(x, y));
    }
}

/// A one-square set holds the file and rank of its square and no other.
pub proof fn lemma_single_xy(q: Square, x: int, y: int)
    ensures
        Bitboard::single(q).has_xy(x, y) == (x == q.file_index() && y == q.rank_index()),
{
    lemma_square_index(q);
    if on_board(x, y) {
        lemma_square_at_xy(x, y);
        lemma_single(q, Square::at_xy(x, y));
        if x == q.file_index() && y == q.rank_index() {
            crate::square::lemma_square_eq(q, Square::at_xy(x, y));
        }
    }
}

/// The lowest square of a set that is not empty belongs to it, no square of the set
/// has a lower number, and taking it away makes the word smaller.
pub proof fn lemma_lowest(a: Bitboard)
    requires
        !a.is_empty(),
    ensures
        a.contains(a.lowest()),
        a.lowest().index() == vstd::std_specs::bits::u64_trailing_zeros(a.0),
        forall|s: Square| a.contains(s) ==> a.lowest().index() <= s.index(),
        a.without(a.lowest()).0 == a.0 & ((a.0 - 1) as u64),
        a.without(a.lowest()).0 < a.0,
{
    vstd::std_specs::bits::axiom_u64_trailing_zeros(a.0);
    let t = vstd::std_specs::bits::u64_trailing_zeros(a.0) as u64;
    lemma_square_at(t as int);
    assert(get_bit(a.0, t));
    assert forall|s: Square| a.contains(s) implies a.lowest().index() <= s.index() by {
        lemma_square_index(s);
        let j = s.index() as u64;
        if j < t {
            assert((a.0 >> j) & 1u64 == 0u64);
        }
    }
    lemma_clear_lowest(a.0, t);
}

/// The highest square of a set that is not empty belongs to it, and no square of the
/// set has a higher number.
pub proof fn lemma_highest(a: Bitboard)
    requires
        !a.is_empty(),
    ensures
        a.contains(a.highest()),
        a.highest().index() == 63 - vstd::std_specs::bits::u64_leading_zeros(a.0),
        forall|s: Square| a.contains(s) ==> a.highest().index() >= s.index(),
{
    vstd::std_specs::bits::axiom_u64_leading_zeros(a.0);
    let z = vstd::std_specs::bits::u64_leading_zeros(a.0);
    let t = (63 - z) as u64;
    lemma_square_at(t as int);
    lemma_bit_ops(a.0, a.0, t);
    assert(get_bit(a.0, t));
    assert forall|s: Square| a.contains(s) implies a.highest().index() >= s.index() by {
        lemma_square_index(s);
        let j = s.index() as u64;
        if j > t {
            assert((a.0 >> j) & 1u64 == 0u64);
        }
    }
}

/// The bitboard of a set holds the squares of the set and no others.
pub proof fn lemma_from_set(set: Set<Square>, s: Square)
    ensures
        Bitboard::from_set(set).contains(s) == set.contains(s),
{
    lemma_square_index(s);
    lemma_bits_below(|i: int| set.contains(Square::at(i)), 64, s.index() as u64);
}

} // verus!
