use vstd::prelude::*;

use crate::bitboard::{lemma_empty, lemma_without, Bitboard};
use crate::board::{attackers, color_bb, king_sq, occupied, sliders_to_spec};
use crate::movegen::{Move, MoveKind};
use crate::piece::PieceType;
use crate::position::{Position, PositionView};
use crate::precompute::{interval_spec, line_spec, Tables};
use crate::square::Square;

verus! {

impl PositionView {
    /// The king of the side to move.
    pub open spec fn king(self) -> Square {
        king_sq(self.board, self.to_move)
    }

    /// The square of the pawn that a capture en passant takes: on the file that the
    /// capturing pawn reaches and on the rank that it leaves.
    pub open spec fn ep_victim(self, m: Move) -> Square {
        Square::at_xy(m.to_spec().file_index(), m.from_spec().rank_index())
    }

    /// Whether no piece of the other side attacks `x` once the square `from` has been
    /// vacated.
    pub open spec fn safe_without(self, x: Square, from: Square) -> bool {
        attackers(
            self.board,
            x,
            self.to_move.opposite(),
            occupied(self.board).xor(Bitboard::single(from)),
        ).is_empty()
    }

    /// Whether the move answers the check that the side to move is in: the king moves,
    /// without castling, to a square that is not attacked once the king has left its
    /// own; or, in a check by one piece only, another piece captures the checking
    /// piece or steps between it and the king, a capture en passant counting only if
    /// the pawn it takes is the checking piece.
    pub open spec fn evades_check(self, m: Move) -> bool {
        let checkers = self.top().checkers;
        if m.from_spec() == self.king() {
            m.kind_spec() != MoveKind::Castle && self.safe_without(m.to_spec(), m.from_spec())
        } else {
            &&& !checkers.has_two()
            &&& if m.kind_spec() == MoveKind::EnPassant {
                checkers.contains(self.ep_victim(m))
            } else {
                interval_spec(checkers.lowest(), self.king()).or(checkers).contains(m.to_spec())
            }
        }
    }

    /// Whether a piece that alone shields its king stays on the line through its
    /// square and the king.
    pub open spec fn keeps_pin(self, m: Move) -> bool {
        self.top().blockers@[self.to_move as int].contains(m.from_spec()) ==> line_spec(
            m.from_spec(),
            self.king(),
        ).contains(m.to_spec())
    }

    /// Whether every square that the king passes or reaches is free of attack once the
    /// king has left its own.
    pub open spec fn king_path_safe(self, m: Move) -> bool {
        forall|x: Square| #[trigger]
            interval_spec(m.from_spec(), m.to_spec()).or(Bitboard::single(m.to_spec())).contains(
                x,
            ) ==> self.safe_without(x, m.from_spec())
    }

    /// Whether, with the capturing pawn moved and the captured pawn gone, no bishop,
    /// rook or queen of the other side attacks the king.
    pub open spec fn ep_safe(self, m: Move) -> bool {
        let gone = Bitboard::single(self.ep_victim(m)).or(Bitboard::single(m.from_spec())).or(
            Bitboard::single(m.to_spec()),
        );
        sliders_to_spec(self.board, self.king(), occupied(self.board).xor(gone)).and(
            color_bb(self.board, self.to_move.opposite()),
        ).is_empty()
    }

    /// Whether a move that has the shape of a move of this position is legal: it
    /// captures no king; if the side to move is in check, it answers the check; a piece
    /// that shields the king stays on its line; the king does not pass or reach an
    /// attacked square; and a capture en passant does not lay the king open. After a
    /// move that passes these tests the king of the side that moved is not attacked
    /// (`lemma_legal_move_is_safe`), and a move of a piece after which that king is not
    /// attacked passes them (`lemma_safe_move_is_legal`), but for a capture en passant
    /// that answers a check without taking the piece that gives it.
    pub open spec fn legal(self, m: Move) -> bool {
        &&& self.spares_king(m)
        &&& (!self.top().checkers.is_empty() ==> self.evades_check(m))
        &&& self.keeps_pin(m)
        &&& (m.from_spec() == self.king() ==> self.king_path_safe(m))
        &&& (m.kind_spec() == MoveKind::EnPassant ==> self.ep_safe(m))
    }
}

impl Position {
    /// Whether a move that has the shape of a move of this position is legal.
    pub fn is_legal(&self, mov: Move, tables: &Tables) -> (r: bool)
        requires
            self.inv(),
        ensures
            r == self@.legal(mov),
    {
        let us = self.to_move();
        let them = us.not();
        let to = mov.to();
        let from = mov.from();
        let flag = mov.kind();
        let king = self.king(us);
        let all = self.all();
        let vacated = all.bitxor(Bitboard::from_square(from));
        if let Some(target) = self.piece_on(to) {
            if target.kind() == PieceType::King {
                return false;
            }
        }
        if self.in_check() {
            if from == king {
                if flag == MoveKind::Castle {
                    return false;
                }
                if self.attacks_to_with_occ(to, them, vacated, tables).nonzero() {
                    return false;
                }
            } else {
                if self.checkers().more_than_one() {
                    return false;
                }
                if flag == MoveKind::EnPassant {
                    let ep_able_pawn = Square::new(to.file(), from.rank());
                    if !self.checkers().has(ep_able_pawn) {
                        return false;
                    }
                } else {
                    let x = self.checkers().lsb();
                    let line_dest = Bitboard::interval(x, king, tables).bitor(self.checkers());
                    if !line_dest.has(to) {
                        return false;
                    }
                }
            }
        }
        if self.blockers(us).has(from) {
            if !tables.line(from, king).has(to) {
                return false;
            }
        }
        if from == king {
            let line_of_travel = Bitboard::interval(from, to, tables).bitor(
                Bitboard::from_square(to),
            );
            let mut rest = line_of_travel;
            while rest.nonzero()
                invariant
                    self.inv(),
                    them == self@.to_move.opposite(),
                    vacated == occupied(self@.board).xor(Bitboard::single(from)),
                    from == mov.from_spec(),
                    from == self@.king(),
                    line_of_travel == interval_spec(from, mov.to_spec()).or(
                        Bitboard::single(mov.to_spec()),
                    ),
                    forall|x: Square| rest.contains(x) ==> line_of_travel.contains(x),
                    forall|x: Square|
                        line_of_travel.contains(x) && !rest.contains(x) ==> self@.safe_without(
                            x,
                            from,
                        ),
                decreases rest.0,
            {
                let x = rest.lsb();
                if self.attacks_to_with_occ(x, them, vacated, tables).nonzero() {
                    proof {
                        assert(line_of_travel.contains(x) && !self@.safe_without(x, from));
                        assert(!self@.king_path_safe(mov));
                    }
                    return false;
                }
                let ghost rest0 = rest;
                rest = rest.without_lsb();
                proof {
                    assert forall|y: Square| rest.contains(y) implies line_of_travel.contains(
                        y,
                    ) by {
                        lemma_without(rest0, x, y);
                    }
                    assert forall|y: Square|
                        line_of_travel.contains(y) && !rest.contains(y) implies self@.safe_without(
                            y,
                            from,
                        ) by {
                        lemma_without(rest0, x, y);
                    }
                }
            }
            proof {
                lemma_empty(rest);
            }
        }
        if flag == MoveKind::EnPassant {
            let ep_able_pawn = Square::new(to.file(), from.rank());
            let gone = Bitboard::from_square(ep_able_pawn).bitor(Bitboard::from_square(from)).bitor(
                Bitboard::from_square(to),
            );
            let new_occ = all.bitxor(gone);
            if self.sliders_to(king, new_occ, tables).bitand(self.color(them)).nonzero() {
                return false;
            }
        }
        true
    }
}

} // verus!
