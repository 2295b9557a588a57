use vstd::prelude::*;

use crate::color::Color;

verus! {

/// A square of the board; its number is `file + 8 * rank`.
#[derive(Debug, Clone, Copy, PartialEq, Eq, PartialOrd, Ord, Structural)]
pub enum Square {
    A1, B1, C1, D1, E1, F1, G1, H1,
    A2, B2, C2, D2, E2, F2, G2, H2,
    A3, B3, C3, D3, E3, F3, G3, H3,
    A4, B4, C4, D4, E4, F4, G4, H4,
    A5, B5, C5, D5, E5, F5, G5, H5,
    A6, B6, C6, D6, E6, F6, G6, H6,
    A7, B7, C7, D7, E7, F7, G7, H7,
    A8, B8, C8, D8, E8, F8, G8, H8,
}

/// A file (column) of the board, `A` being number 0.
#[derive(Debug, Clone, Copy, PartialEq, Eq, PartialOrd, Ord, Structural)]
pub enum File {
    A,
    B,
    C,
    D,
    E,
    F,
    G,
    H,
}

/// A rank (row) of the board, `One` being number 0.
#[derive(Debug, Clone, Copy, PartialEq, Eq, PartialOrd, Ord, Structural)]
pub enum Rank {
    One,
    Two,
    Three,
    Four,
    Five,
    Six,
    Seven,
    Eight,
}

/// One of the eight compass directions in which a piece can slide.
#[derive(Debug, Clone, Copy, PartialEq, Eq, Structural)]
pub enum Direction {
    North,
    South,
    East,
    West,
    NorthEast,
    SouthEast,
    NorthWest,
    SouthWest,
}

impl File {
    /// The file whose number is `i`; `H` for any number past 6.
    pub open spec fn at(i: int) -> File {
        if i == 0 {
            File::A
        } else if i == 1 {
            File::B
        } else if i == 2 {
            File::C
        } else if i == 3 {
            File::D
        } else if i == 4 {
            File::E
        } else if i == 5 {
            File::F
        } else if i == 6 {
            File::G
        } else {
            File::H
        }
    }

    /// The file with number `i`.
    pub fn from_index(i: u8) -> (r: File)
        requires
            i < 8,
        ensures
            r as int == i,
            r == File::at(i as int),
    {
        match i {
            0 => File::A,
            1 => File::B,
            2 => File::C,
            3 => File::D,
            4 => File::E,
            5 => File::F,
            6 => File::G,
            _ => File::H,
        }
    }

    /// The lower-case letter that names the file.
    pub fn to_char(self) -> (r: char)
        ensures
            r as int == 'a' as int + self as int,
    {
        let code: u8 = 97u8 + self as u8;
        code as char
    }
}

impl Rank {
    /// The rank whose number is `i`; `Eight` for any number past 6.
    pub open spec fn at(i: int) -> Rank {
        if i == 0 {
            Rank::One
        } else if i == 1 {
            Rank::Two
        } else if i == 2 {
            Rank::Three
        } else if i == 3 {
            Rank::Four
        } else if i == 4 {
            Rank::Five
        } else if i == 5 {
            Rank::Six
        } else if i == 6 {
            Rank::Seven
        } else {
            Rank::Eight
        }
    }

    /// The rank with number `i`.
    pub fn from_index(i: u8) -> (r: Rank)
        requires
            i < 8,
        ensures
            r as int == i,
            r == Rank::at(i as int),
    {
        match i {
            0 => Rank::One,
            1 => Rank::Two,
            2 => Rank::Three,
            3 => Rank::Four,
            4 => Rank::Five,
            5 => Rank::Six,
            6 => Rank::Seven,
            _ => Rank::Eight,
        }
    }

    /// The digit that names the rank.
    pub fn to_char(self) -> (r: char)
        ensures
            r as int == '1' as int + self as int,
    {
        let code: u8 = 49u8 + self as u8;
        code as char
    }
}

impl TryFrom<u8> for File {
    type Error = ();

    fn try_from(value: u8) -> (r: Result<Self, Self::Error>) {
        if value < 8 {
            Ok(File::from_index(value))
        } else {
            Err(())
        }
    }
}

impl vstd::std_specs::convert::TryFromSpecImpl<u8> for File {
    open spec fn obeys_try_from_spec() -> bool {
        true
    }

    open spec fn try_from_spec(value: u8) -> Result<Self, Self::Error> {
        if value < 8 {
            Ok(File::at(value as int))
        } else {
            Err(())
        }
    }
}

impl TryFrom<u8> for Rank {
    type Error = ();

    fn try_from(value: u8) -> (r: Result<Self, Self::Error>) {
        if value < 8 {
            Ok(Rank::from_index(value))
        } else {
            Err(())
        }
    }
}

impl vstd::std_specs::convert::TryFromSpecImpl<u8> for Rank {
    open spec fn obeys_try_from_spec() -> bool {
        true
    }

    open spec fn try_from_spec(value: u8) -> Result<Self, Self::Error> {
        if value < 8 {
            Ok(Rank::at(value as int))
        } else {
            Err(())
        }
    }
}

impl Direction {
    /// The change of the file number made by one step in this direction.
    pub open spec fn dx(self) -> int {
        match self {
            Direction::East | Direction::NorthEast | Direction::SouthEast => 1,
            Direction::West | Direction::NorthWest | Direction::SouthWest => -1,
            Direction::North | Direction::South => 0,
        }
    }

    /// The change of the rank number made by one step in this direction.
    pub open spec fn dy(self) -> int {
        match self {
            Direction::North | Direction::NorthEast | Direction::NorthWest => 1,
            Direction::South | Direction::SouthEast | Direction::SouthWest => -1,
            Direction::East | Direction::West => 0,
        }
    }

    /// The direction that undoes a step in this one.
    pub open spec fn opposite(self) -> Direction {
        match self {
            Direction::North => Direction::South,
            Direction::South => Direction::North,
            Direction::East => Direction::West,
            Direction::West => Direction::East,
            Direction::NorthEast => Direction::SouthWest,
            Direction::SouthWest => Direction::NorthEast,
            Direction::NorthWest => Direction::SouthEast,
            Direction::SouthEast => Direction::NorthWest,
        }
    }

    /// The number of the direction, 0 to 7.
    pub open spec fn index(self) -> int {
        self as int
    }

    /// The direction with number `i`; `SouthWest` for any number past 6.
    pub open spec fn at(i: int) -> Direction {
        if i == 0 {
            Direction::North
        } else if i == 1 {
            Direction::South
        } else if i == 2 {
            Direction::East
        } else if i == 3 {
            Direction::West
        } else if i == 4 {
            Direction::NorthEast
        } else if i == 5 {
            Direction::SouthEast
        } else if i == 6 {
            Direction::NorthWest
        } else {
            Direction::SouthWest
        }
    }

    /// The direction with number `i`.
    pub fn from_index(i: u8) -> (r: Direction)
        requires
            i < 8,
        ensures
            r == Direction::at(i as int),
            r.index() == i,
    {
        match i {
            0 => Direction::North,
            1 => Direction::South,
            2 => Direction::East,
            3 => Direction::West,
            4 => Direction::NorthEast,
            5 => Direction::SouthEast,
            6 => Direction::NorthWest,
            _ => Direction::SouthWest,
        }
    }

    /// Whether the direction is one of the four along ranks and files.
    pub open spec fn is_orthogonal(self) -> bool {
        self.dx() == 0 || self.dy() == 0
    }

    /// Whether the direction is one of the four along diagonals.
    pub open spec fn is_diagonal(self) -> bool {
        self.dx() != 0 && self.dy() != 0
    }

    /// All eight directions.
    #[inline]
    pub fn all() -> (r: [Self; 8])
        ensures
            forall|d: Direction| #[trigger] r@.contains(d),
            r@.no_duplicates(),
            forall|i: int| 0 <= i < 8 ==> r@[i] == Direction::at(i),
    {
        let r = [
            Direction::North,
            Direction::South,
            Direction::East,
            Direction::West,
            Direction::NorthEast,
            Direction::SouthEast,
            Direction::NorthWest,
            Direction::SouthWest,
        ];
        proof {
            assert forall|d: Direction| #[trigger] r@.contains(d) by {
                let i: int = d as int;
                assert(r@[i] == d);
            }
        }
        r
    }

    /// The four directions along ranks and files.
    #[inline]
    pub fn orthogonal() -> (r: [Self; 4])
        ensures
            forall|d: Direction| #[trigger] r@.contains(d) <==> d.is_orthogonal(),
            r@.no_duplicates(),
            r@ == seq![Direction::North, Direction::South, Direction::East, Direction::West],
    {
        let r = [Direction::North, Direction::South, Direction::East, Direction::West];
        proof {
            assert(r@ =~= seq![
                Direction::North,
                Direction::South,
                Direction::East,
                Direction::West,
            ]);
            assert forall|d: Direction| d.is_orthogonal() implies #[trigger] r@.contains(d) by {
                let i: int = d as int;
                assert(r@[i] == d);
            }
        }
        r
    }

    /// The four directions along diagonals.
    #[inline]
    pub fn diagonal() -> (r: [Self; 4])
        ensures
            forall|d: Direction| #[trigger] r@.contains(d) <==> d.is_diagonal(),
            r@.no_duplicates(),
            r@ == seq![
                Direction::NorthEast,
                Direction::SouthEast,
                Direction::NorthWest,
                Direction::SouthWest,
            ],
    {
        let r = [
            Direction::NorthEast,
            Direction::SouthEast,
            Direction::NorthWest,
            Direction::SouthWest,
        ];
        proof {
            assert(r@ =~= seq![
                Direction::NorthEast,
                Direction::SouthEast,
                Direction::NorthWest,
                Direction::SouthWest,
            ]);
            assert forall|d: Direction| d.is_diagonal() implies #[trigger] r@.contains(d) by {
                let i: int = d as int - 4;
                assert(r@[i] == d);
            }
        }
        r
    }

    /// Whether a step in this direction leads to a square with a higher number.
    #[inline]
    pub fn is_forward(self) -> (r: bool)
        ensures
            r == (self.dx() + 8 * self.dy() > 0),
    {
        match self {
            Direction::North | Direction::NorthEast | Direction::NorthWest | Direction::East => true,
            _ => false,
        }
    }

    /// The reverse direction.
    #[inline]
    pub fn not(self) -> (r: Self)
        ensures
            r == self.opposite(),
            r.dx() == -self.dx(),
            r.dy() == -self.dy(),
    {
        match self {
            Direction::North => Direction::South,
            Direction::South => Direction::North,
            Direction::East => Direction::West,
            Direction::West => Direction::East,
            Direction::NorthEast => Direction::SouthWest,
            Direction::SouthWest => Direction::NorthEast,
            Direction::NorthWest => Direction::SouthEast,
            Direction::SouthEast => Direction::NorthWest,
        }
    }
}

/// The distance between two numbers.
pub open spec fn abs_diff(a: int, b: int) -> int {
    if a > b {
        a - b
    } else {
        b - a
    }
}

/// Whether `(x, y)` are the file and rank numbers of a square of the board.
pub open spec fn on_board(x: int, y: int) -> bool {
    0 <= x < 8 && 0 <= y < 8
}

/// `k` steps along one axis, of which `c` is the step in the direction taken.
pub open spec fn scale(c: int, k: int) -> int {
    if c > 0 {
        k
    } else if c < 0 {
        -k
    } else {
        0
    }
}

/// Whether `(x, y)` is reached from `(ax, ay)` by exactly `k` steps in direction `d`.
pub open spec fn is_kth(ax: int, ay: int, d: Direction, k: int, x: int, y: int) -> bool {
    x == ax + scale(d.dx(), k) && y == ay + scale(d.dy(), k)
}

/// Whether `t` lies on the ray that leaves `a` in direction `d`: `a` itself is not on it.
pub open spec fn on_ray(a: Square, d: Direction, t: Square) -> bool {
    ray_xy(a.file_index(), a.rank_index(), d, t.file_index(), t.rank_index())
}

/// Whether one or more steps in direction `d` lead from `(ax, ay)` to `(tx, ty)`.
pub open spec fn ray_xy(ax: int, ay: int, d: Direction, tx: int, ty: int) -> bool {
    let x = tx - ax;
    let y = ty - ay;
    match d {
        Direction::North => x == 0 && y > 0,
        Direction::South => x == 0 && y < 0,
        Direction::East => y == 0 && x > 0,
        Direction::West => y == 0 && x < 0,
        Direction::NorthEast => x == y && x > 0,
        Direction::SouthWest => x == y && x < 0,
        Direction::SouthEast => x == -y && x > 0,
        Direction::NorthWest => x == -y && x < 0,
    }
}

/// Whether `t` is the neighbour of `a` one step away in direction `d`.
pub open spec fn is_step(a: Square, d: Direction, t: Square) -> bool {
    t.file_index() == a.file_index() + d.dx() && t.rank_index() == a.rank_index() + d.dy()
}

/// Whether `s` lies strictly between `a` and `b` on a rank, file or diagonal that they share.
pub open spec fn between(a: Square, b: Square, s: Square) -> bool {
    exists|d: Direction| on_ray(a, d, s) && #[trigger] on_ray(s, d, b)
}

/// Whether two distinct squares share a rank, a file or a diagonal.
pub open spec fn aligned(a: Square, b: Square) -> bool {
    exists|d: Direction| #[trigger] on_ray(a, d, b)
}

/// The number of king steps between two squares.
pub open spec fn king_distance(a: Square, b: Square) -> int {
    let x = abs_diff(a.file_index(), b.file_index());
    let y = abs_diff(a.rank_index(), b.rank_index());
    if x > y {
        x
    } else {
        y
    }
}

impl Square {
    /// The square whose number is `i`; `H8` for any number past 62.
    #[verifier::opaque]
    pub open spec fn at(i: int) -> Square {
        if i == 0 {
            Square::A1
        } else if i == 1 {
            Square::B1
        } else if i == 2 {
            Square::C1
        } else if i == 3 {
            Square::D1
        } else if i == 4 {
            Square::E1
        } else if i == 5 {
            Square::F1
        } else if i == 6 {
            Square::G1
        } else if i == 7 {
            Square::H1
        } else if i == 8 {
            Square::A2
        } else if i == 9 {
            Square::B2
        } else if i == 10 {
            Square::C2
        } else if i == 11 {
            Square::D2
        } else if i == 12 {
            Square::E2
        } else if i == 13 {
            Square::F2
        } else if i == 14 {
            Square::G2
        } else if i == 15 {
            Square::H2
        } else if i == 16 {
            Square::A3
        } else if i == 17 {
            Square::B3
        } else if i == 18 {
            Square::C3
        } else if i == 19 {
            Square::D3
        } else if i == 20 {
            Square::E3
        } else if i == 21 {
            Square::F3
        } else if i == 22 {
            Square::G3
        } else if i == 23 {
            Square::H3
        } else if i == 24 {
            Square::A4
        } else if i == 25 {
            Square::B4
        } else if i == 26 {
            Square::C4
        } else if i == 27 {
            Square::D4
        } else if i == 28 {
            Square::E4
        } else if i == 29 {
            Square::F4
        } else if i == 30 {
            Square::G4
        } else if i == 31 {
            Square::H4
        } else if i == 32 {
            Square::A5
        } else if i == 33 {
            Square::B5
        } else if i == 34 {
            Square::C5
        } else if i == 35 {
            Square::D5
        } else if i == 36 {
            Square::E5
        } else if i == 37 {
            Square::F5
        } else if i == 38 {
            Square::G5
        } else if i == 39 {
            Square::H5
        } else if i == 40 {
            Square::A6
        } else if i == 41 {
            Square::B6
        } else if i == 42 {
            Square::C6
        } else if i == 43 {
            Square::D6
        } else if i == 44 {
            Square::E6
        } else if i == 45 {
            Square::F6
        } else if i == 46 {
            Square::G6
        } else if i == 47 {
            Square::H6
        } else if i == 48 {
            Square::A7
        } else if i == 49 {
            Square::B7
        } else if i == 50 {
            Square::C7
        } else if i == 51 {
            Square::D7
        } else if i == 52 {
            Square::E7
        } else if i == 53 {
            Square::F7
        } else if i == 54 {
            Square::G7
        } else if i == 55 {
            Square::H7
        } else if i == 56 {
            Square::A8
        } else if i == 57 {
            Square::B8
        } else if i == 58 {
            Square::C8
        } else if i == 59 {
            Square::D8
        } else if i == 60 {
            Square::E8
        } else if i == 61 {
            Square::F8
        } else if i == 62 {
            Square::G8
        } else {
            Square::H8
        }
    }

    /// The square on file number `x` and rank number `y`.
    pub open spec fn at_xy(x: int, y: int) -> Square {
        Square::at(x + 8 * y)
    }

    /// The number of the square, 0 for `A1` to 63 for `H8`.
    #[verifier::opaque]
    pub open spec fn index(self) -> int {
        self as int
    }

    /// The number of the square's file, 0 to 7.
    pub open spec fn file_index(self) -> int {
        self.index() % 8
    }

    /// The number of the square's rank, 0 to 7.
    pub open spec fn rank_index(self) -> int {
        self.index() / 8
    }

    /// The neighbour one step away in direction `d`, where the board has one.
    pub open spec fn neighbor(self, d: Direction) -> Option<Square> {
        let x = self.file_index() + d.dx();
        let y = self.rank_index() + d.dy();
        if on_board(x, y) {
            Some(Square::at_xy(x, y))
        } else {
            None
        }
    }

    /// The square as seen from `color`'s side: Black sees the ranks reversed.
    pub open spec fn relative_spec(self, color: Color) -> Square {
        match color {
            Color::White => self,
            Color::Black => Square::at_xy(self.file_index(), 7 - self.rank_index()),
        }
    }

    /// The number of the square.
    #[inline]
    pub fn idx(self) -> (r: u8)
        ensures
            r == self.index(),
            r < 64,
    {
        proof {
            reveal(Square::index);
        }
        self as u8
    }

    /// The square with number `i`.
    pub fn from_index(i: u8) -> (r: Square)
        requires
            i < 64,
        ensures
            r.index() == i,
            r == Square::at(i as int),
    {
        proof {
            reveal(Square::index);
            reveal(Square::at);
        }
        match i {
            0 => Square::A1,
            1 => Square::B1,
            2 => Square::C1,
            3 => Square::D1,
            4 => Square::E1,
            5 => Square::F1,
            6 => Square::G1,
            7 => Square::H1,
            8 => Square::A2,
            9 => Square::B2,
            10 => Square::C2,
            11 => Square::D2,
            12 => Square::E2,
            13 => Square::F2,
            14 => Square::G2,
            15 => Square::H2,
            16 => Square::A3,
            17 => Square::B3,
            18 => Square::C3,
            19 => Square::D3,
            20 => Square::E3,
            21 => Square::F3,
            22 => Square::G3,
            23 => Square::H3,
            24 => Square::A4,
            25 => Square::B4,
            26 => Square::C4,
            27 => Square::D4,
            28 => Square::E4,
            29 => Square::F4,
            30 => Square::G4,
            31 => Square::H4,
            32 => Square::A5,
            33 => Square::B5,
            34 => Square::C5,
            35 => Square::D5,
            36 => Square::E5,
            37 => Square::F5,
            38 => Square::G5,
            39 => Square::H5,
            40 => Square::A6,
            41 => Square::B6,
            42 => Square::C6,
            43 => Square::D6,
            44 => Square::E6,
            45 => Square::F6,
            46 => Square::G6,
            47 => Square::H6,
            48 => Square::A7,
            49 => Square::B7,
            50 => Square::C7,
            51 => Square::D7,
            52 => Square::E7,
            53 => Square::F7,
            54 => Square::G7,
            55 => Square::H7,
            56 => Square::A8,
            57 => Square::B8,
            58 => Square::C8,
            59 => Square::D8,
            60 => Square::E8,
            61 => Square::F8,
            62 => Square::G8,
            _ => Square::H8,
        }
    }

    /// The square on the given file and rank.
    #[inline]
    pub fn new(file: File, rank: Rank) -> (r: Self)
        ensures
            r.file_index() == file as int,
            r.rank_index() == rank as int,
            r == Square::at_xy(file as int, rank as int),
    {
        let i: u8 = rank as u8 * 8 + file as u8;
        proof {
            lemma_square_at(i as int);
        }
        Square::from_index(i)
    }

    /// The file of the square.
    #[inline]
    pub fn file(self) -> (r: File)
        ensures
            r as int == self.file_index(),
    {
        File::from_index(self.idx() % 8)
    }

    /// The rank of the square.
    #[inline]
    pub fn rank(self) -> (r: Rank)
        ensures
            r as int == self.rank_index(),
    {
        Rank::from_index(self.idx() / 8)
    }

    /// The number of king steps from here to `other`.
    #[inline]
    pub fn distance(self, other: Square) -> (r: i32)
        ensures
            r == king_distance(self, other),
            0 <= r <= 7,
    {
        let a: u8 = self.idx();
        let b: u8 = other.idx();
        let rank_dist: u8 = if a / 8 > b / 8 {
            a / 8 - b / 8
        } else {
            b / 8 - a / 8
        };
        let file_dist: u8 = if a % 8 > b % 8 {
            a % 8 - b % 8
        } else {
            b % 8 - a % 8
        };
        if rank_dist > file_dist {
            rank_dist as i32
        } else {
            file_dist as i32
        }
    }

    /// The direction of the rank, file or diagonal that leads from here to `other`.
    pub fn dir_to(self, other: Square) -> (r: Option<Direction>)
        ensures
            match r {
                Some(d) => on_ray(self, d, other),
                None => !aligned(self, other),
            },
    {
        if !self.same_line(other) {
            return None;
        }
        let a: u8 = self.idx();
        let b: u8 = other.idx();
        if a / 8 == b / 8 {
            if a > b {
                return Some(Direction::West);
            } else {
                return Some(Direction::East);
            }
        } else if a % 8 == b % 8 {
            if a > b {
                return Some(Direction::South);
            } else {
                return Some(Direction::North);
            }
        }
        Some(
            match (a / 8 > b / 8, a % 8 > b % 8) {
                (true, true) => Direction::SouthWest,
                (true, false) => Direction::SouthEast,
                (false, true) => Direction::NorthWest,
                (false, false) => Direction::NorthEast,
            },
        )
    }

    /// Whether the two squares are distinct and share a rank, a file or a diagonal.
    pub fn same_line(self, other: Square) -> (r: bool)
        ensures
            r == aligned(self, other),
            r == (self != other && (self.rank_index() == other.rank_index() || self.file_index()
                == other.file_index() || abs_diff(self.file_index(), other.file_index())
                == abs_diff(self.rank_index(), other.rank_index()))),
    {
        let a: u8 = self.idx();
        let b: u8 = other.idx();
        proof {
            lemma_aligned(self, other);
        }
        if a == b {
            return false;
        }
        if a / 8 == b / 8 || a % 8 == b % 8 {
            return true;
        }
        let file_diff: u8 = if a % 8 > b % 8 {
            a % 8 - b % 8
        } else {
            b % 8 - a % 8
        };
        let rank_diff: u8 = if a / 8 > b / 8 {
            a / 8 - b / 8
        } else {
            b / 8 - a / 8
        };
        file_diff == rank_diff
    }

    /// The neighbour one step away in direction `dir`, or nothing at the edge of the board.
    #[inline]
    pub fn shift(self, dir: Direction) -> (r: Option<Self>)
        ensures
            r == self.neighbor(dir),
            r is Some ==> is_step(self, dir, r->0),
    {
        let x: u8 = self.idx() % 8;
        let y: u8 = self.idx() / 8;
        let (ok_x, nx): (bool, u8) = match dir {
            Direction::East | Direction::NorthEast | Direction::SouthEast => (x < 7, x + 1),
            Direction::West | Direction::NorthWest | Direction::SouthWest => (
                x > 0,
                if x > 0 {
                    (x - 1) as u8
                } else {
                    0
                },
            ),
            Direction::North | Direction::South => (true, x),
        };
        let (ok_y, ny): (bool, u8) = match dir {
            Direction::North | Direction::NorthEast | Direction::NorthWest => (y < 7, y + 1),
            Direction::South | Direction::SouthEast | Direction::SouthWest => (
                y > 0,
                if y > 0 {
                    (y - 1) as u8
                } else {
                    0
                },
            ),
            Direction::East | Direction::West => (true, y),
        };
        if ok_x && ok_y {
            Some(Square::from_index(nx + 8 * ny))
        } else {
            None
        }
    }

    /// The neighbour one step away in direction `dir`, for callers that know the board
    /// to have one.
    #[inline]
    pub fn shift_unchecked(self, dir: Direction) -> (r: Self)
        requires
            self.neighbor(dir) is Some,
        ensures
            Some(r) == self.neighbor(dir),
            is_step(self, dir, r),
    {
        self.shift(dir).unwrap()
    }

    /// The square as seen from `color`'s side of the board.
    #[inline]
    pub fn relative(self, color: Color) -> (r: Self)
        ensures
            r == self.relative_spec(color),
    {
        match color {
            Color::White => self,
            Color::Black => {
                let i: u8 = self.idx();
                Square::from_index(i % 8 + 8 * (7 - i / 8))
            },
        }
    }

    /// The square that two bytes name, a file letter and a rank digit.
    pub open spec fn parse(file: u8, rank: u8) -> Option<Square> {
        if 97 <= file <= 104 && 49 <= rank <= 56 {
            Some(Square::at_xy(file - 97, rank - 49))
        } else {
            None
        }
    }

    /// Reads a square from a file letter `a` to `h` and a rank digit `1` to `8`.
    pub fn from_bytes(file: u8, rank: u8) -> (r: Option<Square>)
        ensures
            r == Square::parse(file, rank),
    {
        if file < 97 || file > 104 || rank < 49 || rank > 56 {
            return None;
        }
        let f: u8 = file - 97;
        let k: u8 = rank - 49;
        Some(Square::from_index(f + 8 * k))
    }

    /// The two characters that name the square, file letter first.
    pub fn name(self) -> (r: (char, char))
        ensures
            r.0 as int == 'a' as int + self.file_index(),
            r.1 as int == '1' as int + self.rank_index(),
    {
        (self.file().to_char(), self.rank().to_char())
    }
}

/// The number of a square determines it.
pub proof fn lemma_square_index(s: Square)
    ensures
        0 <= s.index() < 64,
        Square::at(s.index()) == s,
        Square::at_xy(s.file_index(), s.rank_index()) == s,
        on_board(s.file_index(), s.rank_index()),
{
    reveal(Square::index);
    reveal(Square::at);
}

/// Every number from 0 to 63 is the number of a square.
pub proof fn lemma_square_at(i: int)
    requires
        0 <= i < 64,
    ensures
        Square::at(i).index() == i,
{
    reveal(Square::index);
    reveal(Square::at);
}

/// Every pair of a file number and a rank number on the board is a square.
pub proof fn lemma_square_at_xy(x: int, y: int)
    requires
        on_board(x, y),
    ensures
        Square::at_xy(x, y).index() == x + 8 * y,
        Square::at_xy(x, y).file_index() == x,
        Square::at_xy(x, y).rank_index() == y,
{
    lemma_square_at(x + 8 * y);
}

/// Two squares with the same file and rank are the same square.
pub proof fn lemma_square_eq(a: Square, b: Square)
    requires
        a.file_index() == b.file_index(),
        a.rank_index() == b.rank_index(),
    ensures
        a == b,
{
    lemma_square_index(a);
    lemma_square_index(b);
}

/// Two squares are aligned exactly when they differ and share a rank, a file or a diagonal.
pub proof fn lemma_aligned(a: Square, b: Square)
    ensures
        aligned(a, b) == (a != b && (a.rank_index() == b.rank_index() || a.file_index()
            == b.file_index() || abs_diff(a.file_index(), b.file_index())
            == abs_diff(a.rank_index(), b.rank_index()))),
{
    lemma_square_index(a);
    lemma_square_index(b);
    let x = b.file_index() - a.file_index();
    let y = b.rank_index() - a.rank_index();
    if a != b {
        if x == 0 && y == 0 {
            lemma_square_eq(a, b);
        }
        if x == 0 {
            if y > 0 {
                assert(on_ray(a, Direction::North, b));
            } else {
                assert(on_ray(a, Direction::South, b));
            }
        } else if y == 0 {
            if x > 0 {
                assert(on_ray(a, Direction::East, b));
            } else {
                assert(on_ray(a, Direction::West, b));
            }
        } else if x == y {
            if x > 0 {
                assert(on_ray(a, Direction::NorthEast, b));
            } else {
                assert(on_ray(a, Direction::SouthWest, b));
            }
        } else if x == -y {
            if x > 0 {
                assert(on_ray(a, Direction::SouthEast, b));
            } else {
                assert(on_ray(a, Direction::NorthWest, b));
            }
        }
    }
}

} // verus!
