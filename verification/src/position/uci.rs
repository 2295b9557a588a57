use vstd::prelude::*;

use crate::movegen::generate::{legal, pseudo_legal};
use crate::movegen::{lemma_move_round_trip, Move, MoveKind, MoveList};
use crate::piece::PieceType;
use crate::position::play::lemma_after;
use crate::position::{Position, PositionView};
use crate::precompute::Tables;
use crate::square::{king_distance, Rank, Square};

verus! {

/// The kind of piece that the fifth byte of a move in text names: `n`, `b`, `r` or `q`.
pub open spec fn promo_of_byte(b: u8) -> Option<PieceType> {
    if b == 110 {
        Some(PieceType::Knight)
    } else if b == 98 {
        Some(PieceType::Bishop)
    } else if b == 114 {
        Some(PieceType::Rook)
    } else if b == 113 {
        Some(PieceType::Queen)
    } else {
        None
    }
}

impl PositionView {
    /// The kind of the move from `from` to `to`, as the position shows it: a king that
    /// goes two squares castles, a pawn that goes to the en-passant square captures en
    /// passant, a pawn that goes to its last rank promotes to `promo`, and every other
    /// move is ordinary. Nothing where a promotion lacks its piece, or a piece is named
    /// for a move that is no promotion.
    pub open spec fn kind_of(self, from: Square, to: Square, promo: Option<PieceType>) -> Option<
        MoveKind,
    > {
        let mover = self.at(from)->0;
        if mover.kind_spec() == PieceType::King && king_distance(from, to) == 2 {
            if promo is Some {
                None
            } else {
                Some(MoveKind::Castle)
            }
        } else if self.ep() == Some(to) && mover.kind_spec() == PieceType::Pawn {
            if promo is Some {
                None
            } else {
                Some(MoveKind::EnPassant)
            }
        } else if mover.kind_spec() == PieceType::Pawn && to.rank_index()
            == mover.color_spec().relative_rank_index(7) {
            match promo {
                Some(t) => Some(MoveKind::Promotion(t)),
                None => None,
            }
        } else if promo is Some {
            None
        } else {
            Some(MoveKind::Normal)
        }
    }

    /// The move that the text `s` names in this position: four bytes for the two
    /// squares, and a fifth for the piece of a promotion. Nothing where the text is
    /// malformed, the two squares are the same, no piece stands on the first, or the
    /// fifth byte does not fit the move.
    pub open spec fn uci_move(self, s: Seq<u8>) -> Option<Move> {
        if s.len() < 4 || s.len() > 5 {
            None
        } else if s.len() == 5 && promo_of_byte(s[4]) is None {
            None
        } else {
            let promo = if s.len() == 5 {
                promo_of_byte(s[4])
            } else {
                None
            };
            match (Square::parse(s[0], s[1]), Square::parse(s[2], s[3])) {
                (Some(from), Some(to)) => if from == to || self.at(from) is None {
                    None
                } else {
                    match self.kind_of(from, to, promo) {
                        Some(kind) => Some(Move::of(from, to, kind)),
                        None => None,
                    }
                },
                _ => None,
            }
        }
    }

    /// Whether the move is one of the position's moves, is legal, and can be counted.
    #[verifier::opaque]
    pub open spec fn can_play(self, m: Move) -> bool {
        self.pseudo_moves().contains(m) && self.legal(m) && self.ply < i32::MAX
    }

    /// The position after the moves `moves` have been made one after the other, up to
    /// the first that cannot be played.
    pub open spec fn played(self, moves: Seq<Move>) -> PositionView
        decreases moves.len(),
    {
        if moves.len() == 0 {
            self
        } else if self.can_play(moves[0]) {
            self.after(moves[0]).played(moves.drop_first())
        } else {
            self
        }
    }

    /// The place of the first of the moves `moves` that cannot be played when they are
    /// made one after the other, or their number if all can.
    pub open spec fn first_bad(self, moves: Seq<Move>) -> int
        decreases moves.len(),
    {
        if moves.len() == 0 {
            0
        } else if self.can_play(moves[0]) {
            1 + self.after(moves[0]).first_bad(moves.drop_first())
        } else {
            0
        }
    }

    /// The position after the moves that the texts name have been made one after the
    /// other, each text read in the position that the moves before it lead to, up to
    /// the first text that names no move or a move that cannot be played.
    pub open spec fn uci_played(self, texts: Seq<Seq<u8>>) -> PositionView
        decreases texts.len(),
    {
        if texts.len() == 0 {
            self
        } else {
            match self.uci_move(texts[0]) {
                Some(m) => if self.can_play(m) {
                    self.after(m).uci_played(texts.drop_first())
                } else {
                    self
                },
                None => self,
            }
        }
    }

    /// The place of the first of the texts that names no move, or a move that cannot
    /// be played, when they are read one after the other; their number if there is
    /// none.
    pub open spec fn uci_bad(self, texts: Seq<Seq<u8>>) -> int
        decreases texts.len(),
    {
        if texts.len() == 0 {
            0
        } else {
            match self.uci_move(texts[0]) {
                Some(m) => if self.can_play(m) {
                    1 + self.after(m).uci_bad(texts.drop_first())
                } else {
                    0
                },
                None => 0,
            }
        }
    }
}

impl Move {
    /// Reads a move from its text, two squares and, for a promotion, the letter of a
    /// piece; the position tells castling, captures en passant and promotions from
    /// ordinary moves.
    pub fn new_from_uci(uci_str: &[u8], pos: &Position) -> (r: Option<Self>)
        requires
            pos.wf(),
        ensures
            r == pos@.uci_move(uci_str@),
            r is Some ==> r->0.wf(),
    {
        proof {
            pos.lemma_wf_shaped();
        }
        if uci_str.len() < 4 || uci_str.len() > 5 {
            return None;
        }
        let promo_type = if uci_str.len() == 5 {
            let b = uci_str[4];
            if b == 110 {
                Some(PieceType::Knight)
            } else if b == 98 {
                Some(PieceType::Bishop)
            } else if b == 114 {
                Some(PieceType::Rook)
            } else if b == 113 {
                Some(PieceType::Queen)
            } else {
                return None;
            }
        } else {
            None
        };
        let from_sq = match Square::from_bytes(uci_str[0], uci_str[1]) {
            Some(s) => s,
            None => {
                return None;
            },
        };
        let to_sq = match Square::from_bytes(uci_str[2], uci_str[3]) {
            Some(s) => s,
            None => {
                return None;
            },
        };
        if from_sq == to_sq {
            return None;
        }
        let mover = match pos.piece_on(from_sq) {
            Some(p) => p,
            None => {
                return None;
            },
        };
        let to_ep = match pos.ep() {
            Some(e) => e == to_sq,
            None => false,
        };
        let kind = if mover.kind() == PieceType::King && from_sq.distance(to_sq) == 2 {
            if promo_type.is_some() {
                return None;
            }
            MoveKind::Castle
        } else if to_ep && mover.kind() == PieceType::Pawn {
            if promo_type.is_some() {
                return None;
            }
            MoveKind::EnPassant
        } else if mover.kind() == PieceType::Pawn && to_sq.rank() as u8 == mover.color().relative_rank(
            Rank::Eight,
        ) as u8 {
            match promo_type {
                Some(t) => MoveKind::Promotion(t),
                None => {
                    return None;
                },
            }
        } else {
            if promo_type.is_some() {
                return None;
            }
            MoveKind::Normal
        };
        proof {
            lemma_move_round_trip(from_sq, to_sq, kind);
        }
        Some(Self::new_with_kind(from_sq, to_sq, kind))
    }
}

/// Whether the move is in the list.
fn list_has(list: &MoveList, mov: Move) -> (r: bool)
    ensures
        r == list@.contains(mov),
{
    let mut i: usize = 0;
    while i < list.len()
        invariant
            i <= list@.len(),
            forall|j: int| 0 <= j < i ==> list@[j] != mov,
        decreases list@.len() - i,
    {
        let m = list.get(i).unwrap();
        if m == mov {
            return true;
        }
        i += 1;
    }
    false
}

impl Position {
    /// Whether the move is one of those that the pieces of the side to move can make
    /// by the way they move.
    pub fn is_pseudo_legal(&self, mov: Move, tables: &Tables) -> (r: bool)
        requires
            self.inv(),
        ensures
            r == self@.pseudo_moves().contains(mov),
            r ==> self@.pseudo_ok(mov),
    {
        let list = pseudo_legal(self, tables);
        let r = list_has(&list, mov);
        proof {
            if r {
                let j = choose|j: int| 0 <= j < list@.len() && list@[j] == mov;
                assert(self@.pseudo_ok(list@[j]));
            }
        }
        r
    }

    /// Whether the move can be made now: it is one of the position's moves, it is
    /// legal, and the move counter has room.
    pub fn can_make(&self, mov: Move, tables: &Tables) -> (r: bool)
        requires
            self.inv(),
        ensures
            r == self@.can_play(mov),
            r ==> self@.playable(mov) && self@.path_clear(mov) && self@.legal(mov),
    {
        proof {
            reveal(PositionView::can_play);
        }
        if self.ply() == i32::MAX {
            return false;
        }
        if !self.is_pseudo_legal(mov, tables) {
            return false;
        }
        let r = self.is_legal(mov, tables);
        proof {
            if r {
                crate::position::play::lemma_legal_playable(self@, mov);
            }
        }
        r
    }

    /// Makes the move if it can be played, and says whether it did.
    pub fn try_move(&mut self, mov: Move, tables: &Tables) -> (r: bool)
        requires
            old(self).inv(),
        ensures
            final(self).inv(),
            r == old(self)@.can_play(mov),
            final(self)@ == if r {
                old(self)@.after(mov)
            } else {
                old(self)@
            },
            r ==> final(self)@.sound(),
            r && old(self)@.sound() ==> final(self)@.top().checkers.count() <= 2,
    {
        if !self.can_make(mov, tables) {
            return false;
        }
        let ghost before = self@;
        self.make_move(mov, tables);
        proof {
            lemma_after(before, mov, self@);
        }
        true
    }

    /// Makes the moves one after the other. Stops before the first that cannot be
    /// played and gives it back; the moves before it stay made.
    pub fn make_moves(&mut self, moves: &[Move], tables: &Tables) -> (r: Result<(), Move>)
        requires
            old(self).inv(),
        ensures
            final(self).inv(),
            final(self)@ == old(self)@.played(moves@),
            old(self)@.sound() ==> final(self)@.sound(),
            match r {
                Ok(_) => old(self)@.first_bad(moves@) == moves@.len(),
                Err(m) => old(self)@.first_bad(moves@) < moves@.len() && m == moves@[old(
                    self,
                )@.first_bad(moves@)],
            },
    {
        let ghost start = self@;
        let mut i: usize = 0;
        proof {
            assert(moves@.skip(0) =~= moves@);
        }
        while i < moves.len()
            invariant
                self.inv(),
                start == old(self)@,
                start.sound() ==> self@.sound(),
                i <= moves@.len(),
                start.played(moves@) == self@.played(moves@.skip(i as int)),
                start.first_bad(moves@) == i + self@.first_bad(moves@.skip(i as int)),
            decreases moves@.len() - i,
        {
            let m = moves[i];
            let ghost rest = moves@.skip(i as int);
            let ghost before = self@;
            proof {
                assert(rest[0] == m);
                assert(rest.drop_first() =~= moves@.skip(i + 1));
            }
            if !self.try_move(m, tables) {
                proof {
                    assert(before.played(rest) == before);
                    assert(before.first_bad(rest) == 0);
                }
                return Err(m);
            }
            proof {
                assert(before.played(rest) == self@.played(moves@.skip(i + 1)));
                assert(before.first_bad(rest) == 1 + self@.first_bad(moves@.skip(i + 1)));
            }
            i += 1;
        }
        Ok(())
    }

    /// Reads the moves from their texts and makes them one after the other. Stops
    /// before the first text that names no move, or a move that cannot be played, and
    /// gives it back; the moves before it stay made.
    pub fn make_uci_moves<'a>(&mut self, moves: &[&'a [u8]], tables: &Tables) -> (r: Result<
        (),
        &'a [u8],
    >)
        requires
            old(self).inv(),
        ensures
            final(self).inv(),
            final(self)@ == old(self)@.uci_played(Seq::new(moves@.len(), |i: int| moves@[i]@)),
            old(self)@.sound() ==> final(self)@.sound(),
            match r {
                Ok(_) => old(self)@.uci_bad(Seq::new(moves@.len(), |i: int| moves@[i]@))
                    == moves@.len(),
                Err(s) => old(self)@.uci_bad(Seq::new(moves@.len(), |i: int| moves@[i]@))
                    < moves@.len() && s == moves@[old(self)@.uci_bad(
                    Seq::new(moves@.len(), |i: int| moves@[i]@),
                )],
            },
    {
        let ghost start = self@;
        let ghost texts = Seq::new(moves@.len(), |i: int| moves@[i]@);
        let mut i: usize = 0;
        proof {
            assert(texts.skip(0) =~= texts);
        }
        while i < moves.len()
            invariant
                self.inv(),
                start == old(self)@,
                start.sound() ==> self@.sound(),
                i <= moves@.len(),
                texts == Seq::new(moves@.len(), |i: int| moves@[i]@),
                start.uci_played(texts) == self@.uci_played(texts.skip(i as int)),
                start.uci_bad(texts) == i + self@.uci_bad(texts.skip(i as int)),
            decreases moves@.len() - i,
        {
            let uci_str = moves[i];
            let ghost rest = texts.skip(i as int);
            let ghost before = self@;
            proof {
                assert(rest[0] == uci_str@);
                assert(rest.drop_first() =~= texts.skip(i + 1));
            }
            let m = match Move::new_from_uci(uci_str, self) {
                Some(x) => x,
                None => {
                    proof {
                        assert(before.uci_played(rest) == before);
                        assert(before.uci_bad(rest) == 0);
                    }
                    return Err(uci_str);
                },
            };
            if !self.try_move(m, tables) {
                proof {
                    assert(before.uci_played(rest) == before);
                    assert(before.uci_bad(rest) == 0);
                }
                return Err(uci_str);
            }
            proof {
                assert(before.uci_played(rest) == self@.uci_played(texts.skip(i + 1)));
                assert(before.uci_bad(rest) == 1 + self@.uci_bad(texts.skip(i + 1)));
            }
            i += 1;
        }
        Ok(())
    }
}

} // verus!
