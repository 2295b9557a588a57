use vstd::prelude::*;

use crate::color::Color;

verus! {

/// The six kinds of chessmen.
#[derive(Debug, PartialEq, PartialOrd, Eq, Ord, Clone, Copy, Structural)]
pub enum PieceType {
    Pawn,
    Knight,
    Bishop,
    Rook,
    Queen,
    King,
}

/// A chessman: its kind and the side that owns it.
#[derive(Debug, PartialEq, PartialOrd, Eq, Ord, Clone, Copy, Structural)]
pub struct Piece {
    kind: PieceType,
    color: Color,
}

impl PieceType {
    /// The kinds that a pawn may be promoted to.
    pub open spec fn is_promotable(self) -> bool {
        self != PieceType::Pawn && self != PieceType::King
    }

    /// The lower-case letter that stands for the kind.
    pub open spec fn letter(self) -> char {
        match self {
            PieceType::Pawn => 'p',
            PieceType::Knight => 'n',
            PieceType::Bishop => 'b',
            PieceType::Rook => 'r',
            PieceType::Queen => 'q',
            PieceType::King => 'k',
        }
    }

    /// The kinds that a pawn may be promoted to, in the order in which promotions are listed.
    pub fn promotable() -> (r: [Self; 4])
        ensures
            r@ == seq![PieceType::Knight, PieceType::Bishop, PieceType::Rook, PieceType::Queen],
            forall|t: PieceType| #[trigger] r@.contains(t) <==> t.is_promotable(),
    {
        let r = [PieceType::Knight, PieceType::Bishop, PieceType::Rook, PieceType::Queen];
        proof {
            assert(r@ =~= seq![
                PieceType::Knight,
                PieceType::Bishop,
                PieceType::Rook,
                PieceType::Queen,
            ]);
            assert forall|t: PieceType| t.is_promotable() implies #[trigger] r@.contains(t) by {
                let i: int = t as int - 1;
                assert(r@[i] == t);
            }
        }
        r
    }
}

impl Piece {
    /// The kind of the piece.
    pub closed spec fn kind_spec(self) -> PieceType {
        self.kind
    }

    /// The side that owns the piece.
    pub closed spec fn color_spec(self) -> Color {
        self.color
    }

    /// The piece of the given kind and side.
    pub closed spec fn of(kind: PieceType, color: Color) -> Piece {
        Piece { kind, color }
    }

    /// The letter that stands for the piece: upper case for White, lower case for Black.
    pub open spec fn letter(self) -> char {
        match (self.color_spec(), self.kind_spec()) {
            (Color::Black, k) => k.letter(),
            (Color::White, PieceType::Pawn) => 'P',
            (Color::White, PieceType::Knight) => 'N',
            (Color::White, PieceType::Bishop) => 'B',
            (Color::White, PieceType::Rook) => 'R',
            (Color::White, PieceType::Queen) => 'Q',
            (Color::White, PieceType::King) => 'K',
        }
    }

    /// The piece that a letter stands for, if it stands for one.
    pub open spec fn from_letter(c: char) -> Option<Piece> {
        if c == 'p' {
            Some(Piece::of(PieceType::Pawn, Color::Black))
        } else if c == 'n' {
            Some(Piece::of(PieceType::Knight, Color::Black))
        } else if c == 'b' {
            Some(Piece::of(PieceType::Bishop, Color::Black))
        } else if c == 'r' {
            Some(Piece::of(PieceType::Rook, Color::Black))
        } else if c == 'q' {
            Some(Piece::of(PieceType::Queen, Color::Black))
        } else if c == 'k' {
            Some(Piece::of(PieceType::King, Color::Black))
        } else if c == 'P' {
            Some(Piece::of(PieceType::Pawn, Color::White))
        } else if c == 'N' {
            Some(Piece::of(PieceType::Knight, Color::White))
        } else if c == 'B' {
            Some(Piece::of(PieceType::Bishop, Color::White))
        } else if c == 'R' {
            Some(Piece::of(PieceType::Rook, Color::White))
        } else if c == 'Q' {
            Some(Piece::of(PieceType::Queen, Color::White))
        } else if c == 'K' {
            Some(Piece::of(PieceType::King, Color::White))
        } else {
            None
        }
    }

    /// The piece of the given kind and side.
    pub fn new(kind: PieceType, color: Color) -> (r: Self)
        ensures
            r == Piece::of(kind, color),
            r.kind_spec() == kind,
            r.color_spec() == color,
    {
        Self { kind, color }
    }

    /// The kind of the piece.
    pub fn kind(&self) -> (r: PieceType)
        ensures
            r == self.kind_spec(),
    {
        self.kind
    }

    /// The side that owns the piece.
    pub fn color(&self) -> (r: Color)
        ensures
            r == self.color_spec(),
    {
        self.color
    }
}

/// A piece is the piece of its kind and side.
pub proof fn lemma_piece_of(p: Piece)
    ensures
        Piece::of(p.kind_spec(), p.color_spec()) == p,
{
}

/// The kind and the side of a piece are those it was made of.
pub proof fn lemma_piece_parts(kind: PieceType, color: Color)
    ensures
        Piece::of(kind, color).kind_spec() == kind,
        Piece::of(kind, color).color_spec() == color,
{
}

impl From<PieceType> for char {
    fn from(value: PieceType) -> (r: Self) {
        match value {
            PieceType::Pawn => 'p',
            PieceType::Knight => 'n',
            PieceType::Bishop => 'b',
            PieceType::Rook => 'r',
            PieceType::Queen => 'q',
            PieceType::King => 'k',
        }
    }
}

impl vstd::std_specs::convert::FromSpecImpl<PieceType> for char {
    open spec fn obeys_from_spec() -> bool {
        true
    }

    open spec fn from_spec(value: PieceType) -> Self {
        value.letter()
    }
}

impl From<Piece> for char {
    fn from(value: Piece) -> (r: Self) {
        match (value.color(), value.kind()) {
            (Color::Black, PieceType::Pawn) => 'p',
            (Color::Black, PieceType::Knight) => 'n',
            (Color::Black, PieceType::Bishop) => 'b',
            (Color::Black, PieceType::Rook) => 'r',
            (Color::Black, PieceType::Queen) => 'q',
            (Color::Black, PieceType::King) => 'k',
            (Color::White, PieceType::Pawn) => 'P',
            (Color::White, PieceType::Knight) => 'N',
            (Color::White, PieceType::Bishop) => 'B',
            (Color::White, PieceType::Rook) => 'R',
            (Color::White, PieceType::Queen) => 'Q',
            (Color::White, PieceType::King) => 'K',
        }
    }
}

impl vstd::std_specs::convert::FromSpecImpl<Piece> for char {
    open spec fn obeys_from_spec() -> bool {
        true
    }

    open spec fn from_spec(value: Piece) -> Self {
        value.letter()
    }
}

impl TryFrom<char> for Piece {
    type Error = ();

    fn try_from(value: char) -> (r: Result<Self, Self::Error>) {
        let (kind, color) = match value {
            'p' => (PieceType::Pawn, Color::Black),
            'n' => (PieceType::Knight, Color::Black),
            'b' => (PieceType::Bishop, Color::Black),
            'r' => (PieceType::Rook, Color::Black),
            'q' => (PieceType::Queen, Color::Black),
            'k' => (PieceType::King, Color::Black),
            'P' => (PieceType::Pawn, Color::White),
            'N' => (PieceType::Knight, Color::White),
            'B' => (PieceType::Bishop, Color::White),
            'R' => (PieceType::Rook, Color::White),
            'Q' => (PieceType::Queen, Color::White),
            'K' => (PieceType::King, Color::White),
            _ => {
                return Err(());
            },
        };
        Ok(Piece::new(kind, color))
    }
}

impl vstd::std_specs::convert::TryFromSpecImpl<char> for Piece {
    open spec fn obeys_try_from_spec() -> bool {
        true
    }

    open spec fn try_from_spec(value: char) -> Result<Self, Self::Error> {
        match Piece::from_letter(value) {
            Some(p) => Ok(p),
            None => Err(()),
        }
    }
}

} // verus!
