use vstd::prelude::*;

use crate::piece::PieceType;
use crate::square::{lemma_square_at, lemma_square_index, Square};

pub mod generate;
pub mod members;

verus! {

/// A move, packed into 16 bits: the number of the square it leaves, then the number of
/// the square it reaches, six bits each, then a three-bit tag for its kind. No move
/// is packed as zero.
#[derive(Debug, Clone, Copy, PartialEq, Eq, Structural)]
pub struct Move(u16);

/// What kind of move it is: an ordinary one, castling, a capture en passant, or a
/// promotion to the given kind of piece.
#[derive(Debug, Clone, Copy, PartialEq, Eq, PartialOrd, Ord, Structural)]
pub enum MoveKind {
    Normal,
    Castle,
    EnPassant,
    Promotion(PieceType),
}

impl MoveKind {
    /// Whether the kind can be packed: a promotion is to a knight, bishop, rook or queen.
    pub open spec fn valid(self) -> bool {
        match self {
            MoveKind::Promotion(t) => t.is_promotable(),
            _ => true,
        }
    }

    /// The tag that stands for the kind in a packed move.
    pub open spec fn tag(self) -> int {
        match self {
            MoveKind::Normal => 0,
            MoveKind::Promotion(PieceType::Knight) => 1,
            MoveKind::Promotion(PieceType::Bishop) => 2,
            MoveKind::Promotion(PieceType::Rook) => 3,
            MoveKind::Promotion(PieceType::Queen) => 4,
            MoveKind::Promotion(_) => 5,
            MoveKind::Castle => 6,
            MoveKind::EnPassant => 7,
        }
    }

    /// The kind that a tag stands for.
    pub open spec fn of_tag(tag: int) -> MoveKind {
        if tag == 0 {
            MoveKind::Normal
        } else if tag == 1 {
            MoveKind::Promotion(PieceType::Knight)
        } else if tag == 2 {
            MoveKind::Promotion(PieceType::Bishop)
        } else if tag == 3 {
            MoveKind::Promotion(PieceType::Rook)
        } else if tag == 4 {
            MoveKind::Promotion(PieceType::Queen)
        } else if tag == 6 {
            MoveKind::Castle
        } else {
            MoveKind::EnPassant
        }
    }
}

impl Move {
    /// Whether the bits are those of a move: the tag stands for a kind, and the two
    /// squares differ.
    #[verifier::type_invariant]
    pub closed spec fn wf(self) -> bool {
        &&& self.0 < 0x8000
        &&& self.0 / 4096 != 5
        &&& self.0 % 64 != (self.0 / 64) % 64
    }

    /// The move from `from` to `to` of the given kind.
    pub closed spec fn of(from: Square, to: Square, kind: MoveKind) -> Move {
        Move((from.index() + 64 * to.index() + 4096 * kind.tag()) as u16)
    }

    /// The square that the move leaves.
    pub closed spec fn from_spec(self) -> Square {
        Square::at((self.0 % 64) as int)
    }

    /// The square that the move reaches.
    pub closed spec fn to_spec(self) -> Square {
        Square::at(((self.0 / 64) % 64) as int)
    }

    /// The kind of the move.
    pub closed spec fn kind_spec(self) -> MoveKind {
        MoveKind::of_tag((self.0 / 4096) as int)
    }

    /// The 16 bits that the move is packed into.
    pub closed spec fn bits(self) -> u16 {
        self.0
    }

    /// An ordinary move from `from` to `to`.
    #[inline]
    pub fn new(from: Square, to: Square) -> (r: Self)
        requires
            from != to,
        ensures
            r == Move::of(from, to, MoveKind::Normal),
            r.wf(),
            r.from_spec() == from,
            r.to_spec() == to,
            r.kind_spec() == MoveKind::Normal,
    {
        Self::new_with_kind(from, to, MoveKind::Normal)
    }

    /// The move from `from` to `to` of the given kind. Unpacking it gives back the
    /// three parts.
    #[inline]
    pub fn new_with_kind(from: Square, to: Square, kind: MoveKind) -> (r: Self)
        requires
            from != to,
            kind.valid(),
        ensures
            r == Move::of(from, to, kind),
            r.wf(),
            r.from_spec() == from,
            r.to_spec() == to,
            r.kind_spec() == kind,
            r.bits() != 0,
    {
        proof {
            lemma_move_round_trip(from, to, kind);
        }
        let tag: u16 = match kind {
            MoveKind::Normal => 0,
            MoveKind::Castle => 6,
            MoveKind::EnPassant => 7,
            MoveKind::Promotion(typ) => match typ {
                PieceType::Knight => 1,
                PieceType::Bishop => 2,
                PieceType::Rook => 3,
                _ => 4,
            },
        };
        let f: u16 = from.idx() as u16;
        let t: u16 = to.idx() as u16;
        Self(f + 64 * t + 4096 * tag)
    }

    /// The square that the move leaves.
    #[inline]
    pub fn from(self) -> (r: Square)
        ensures
            r == self.from_spec(),
    {
        Square::from_index((self.0 % 64) as u8)
    }

    /// The square that the move reaches.
    #[inline]
    pub fn to(self) -> (r: Square)
        ensures
            r == self.to_spec(),
    {
        Square::from_index(((self.0 / 64) % 64) as u8)
    }

    /// The kind of the move.
    #[inline]
    pub fn kind(self) -> (r: MoveKind)
        ensures
            r == self.kind_spec(),
            r.valid(),
    {
        proof {
            use_type_invariant(&self);
        }
        let tag: u16 = self.0 / 4096;
        match tag {
            0 => MoveKind::Normal,
            1 => MoveKind::Promotion(PieceType::Knight),
            2 => MoveKind::Promotion(PieceType::Bishop),
            3 => MoveKind::Promotion(PieceType::Rook),
            4 => MoveKind::Promotion(PieceType::Queen),
            6 => MoveKind::Castle,
            _ => MoveKind::EnPassant,
        }
    }

    /// Whether the move is a promotion.
    #[inline]
    pub fn is_promo(self) -> (r: bool)
        ensures
            r == (self.kind_spec() is Promotion),
    {
        match self.kind() {
            MoveKind::Promotion(_) => true,
            _ => false,
        }
    }

    /// The kind of piece that the move promotes to, if it is a promotion.
    #[inline]
    pub fn get_promo(self) -> (r: Option<PieceType>)
        ensures
            r == match self.kind_spec() {
                MoveKind::Promotion(t) => Some(t),
                _ => None,
            },
    {
        match self.kind() {
            MoveKind::Promotion(t) => Some(t),
            _ => None,
        }
    }

    /// Makes known, of a move at hand, that it is well formed.
    #[inline]
    pub fn check(self)
        ensures
            self.wf(),
            self.from_spec() != self.to_spec(),
            self.kind_spec().valid(),
            Move::of(self.from_spec(), self.to_spec(), self.kind_spec()) == self,
    {
        proof {
            use_type_invariant(&self);
            lemma_move_parts(self);
        }
    }
}

/// Packing a move and unpacking it gives back the squares and the kind.
pub proof fn lemma_move_round_trip(from: Square, to: Square, kind: MoveKind)
    requires
        from != to,
        kind.valid(),
    ensures
        Move::of(from, to, kind).wf(),
        Move::of(from, to, kind).from_spec() == from,
        Move::of(from, to, kind).to_spec() == to,
        Move::of(from, to, kind).kind_spec() == kind,
        Move::of(from, to, kind).bits() != 0,
{
    lemma_square_index(from);
    lemma_square_index(to);
    let code = from.index() + 64 * to.index() + 4096 * kind.tag();
    assert(0 <= kind.tag() <= 7);
    assert(0 <= code < 0x8000);
    assert(code % 64 == from.index());
    assert((code / 64) % 64 == to.index());
    assert(code / 4096 == kind.tag());
}

/// The kind of a packed move is the kind that it was packed with.
pub proof fn lemma_move_kind(from: Square, to: Square, kind: MoveKind)
    requires
        kind.valid(),
    ensures
        Move::of(from, to, kind).kind_spec() == kind,
{
    lemma_square_index(from);
    lemma_square_index(to);
    let code = from.index() + 64 * to.index() + 4096 * kind.tag();
    assert(0 <= kind.tag() <= 7);
    assert(0 <= code < 0x8000);
    assert(code / 4096 == kind.tag());
}

/// A well-formed move is the move of its squares and its kind: unpacking and packing
/// again gives back the same bits.
pub proof fn lemma_move_parts(m: Move)
    requires
        m.wf(),
    ensures
        m.from_spec() != m.to_spec(),
        m.kind_spec().valid(),
        Move::of(m.from_spec(), m.to_spec(), m.kind_spec()) == m,
        m.bits() != 0,
{
    let code = m.bits() as int;
    lemma_square_at(code % 64);
    lemma_square_at((code / 64) % 64);
    assert(m.kind_spec().tag() == code / 4096);
    assert(code == code % 64 + 64 * ((code / 64) % 64) + 4096 * (code / 4096));
}

/// A list of moves, in the order in which they were added.
#[derive(Debug, Clone)]
pub struct MoveList {
    inner: Vec<Move>,
}

impl View for MoveList {
    type V = Seq<Move>;

    closed spec fn view(&self) -> Seq<Move> {
        self.inner@
    }
}

impl MoveList {
    /// The empty list.
    #[inline]
    pub fn new() -> (r: Self)
        ensures
            r@ == Seq::<Move>::empty(),
    {
        Self { inner: Vec::new() }
    }

    /// The move at `index`, or nothing past the end of the list.
    #[inline]
    pub fn get(&self, index: usize) -> (r: Option<Move>)
        ensures
            r == if index < self@.len() {
                Some(self@[index as int])
            } else {
                None
            },
            r is Some ==> r->0.wf(),
    {
        if index >= self.inner.len() {
            None
        } else {
            let m = self.inner[index];
            m.check();
            Some(m)
        }
    }

    /// The number of moves in the list.
    #[inline]
    pub fn len(&self) -> (r: usize)
        ensures
            r == self@.len(),
    {
        self.inner.len()
    }

    /// Adds a move at the end of the list.
    #[inline]
    pub fn push(&mut self, mov: Move)
        ensures
            final(self)@ == old(self)@.push(mov),
    {
        self.inner.push(mov);
    }

    /// Takes the move at `index` out of the list; the last move of the list takes its
    /// place.
    #[inline]
    pub fn remove(&mut self, index: usize)
        requires
            index < old(self)@.len(),
        ensures
            final(self)@ == old(self)@.update(index as int, old(self)@.last()).drop_last(),
    {
        let _ = self.inner.swap_remove(index);
    }
}

/// A cursor over the moves of a list, from the first to the last.
pub struct MoveListIter<'a> {
    list: &'a MoveList,
    pos: usize,
}

impl<'a> MoveListIter<'a> {
    /// The moves that the cursor has not handed out yet.
    pub closed spec fn remaining(&self) -> Seq<Move> {
        if self.pos <= self.list@.len() {
            self.list@.subrange(self.pos as int, self.list@.len() as int)
        } else {
            Seq::empty()
        }
    }

    /// A cursor at the start of `lst`.
    #[inline]
    pub fn new(lst: &'a MoveList) -> (r: Self)
        ensures
            r.remaining() == lst@,
    {
        proof {
            assert(lst@.subrange(0, lst@.len() as int) =~= lst@);
        }
        Self { list: lst, pos: 0 }
    }

    /// Hands out the next move of the list.
    #[inline]
    pub fn next(&mut self) -> (r: Option<Move>)
        ensures
            match r {
                Some(m) => old(self).remaining().len() > 0 && m == old(self).remaining()[0]
                    && final(self).remaining() == old(self).remaining().drop_first(),
                None => old(self).remaining().len() == 0 && final(self).remaining().len() == 0,
            },
    {
        let r = self.list.get(self.pos);
        if self.pos < self.list.len() {
            proof {
                assert(self.list@.subrange(self.pos + 1, self.list@.len() as int)
                    =~= self.list@.subrange(
                    self.pos as int,
                    self.list@.len() as int,
                ).drop_first());
            }
            self.pos = self.pos + 1;
        }
        r
    }
}

} // verus!
