use vstd::prelude::*;

use crate::bitboard::{lemma_algebra, lemma_empty};
use crate::board::{color_bb, has_king, kind_bb, king_sq, lemma_board_bb, own_bb};
use crate::color::Color;
use crate::movegen::{lemma_move_parts, Move, MoveKind};
use crate::piece::{lemma_piece_of, lemma_piece_parts, Piece, PieceType};
use crate::position::{attack_info_ok, CastleFlag, Position, PositionView};
use crate::precompute::Tables;
use crate::square::{
    abs_diff, king_distance, lemma_square_at_xy, lemma_square_eq, lemma_square_index, on_board,
    Rank, Square,
};

verus! {

/// Whether square `s` of the board holds the king of side `c`.
pub open spec fn holds_king(board: Seq<Option<Piece>>, s: Square, c: Color) -> bool {
    board[s.index()] == Some(Piece::of(PieceType::King, c))
}

/// A side has a king exactly when some square holds its king.
pub proof fn lemma_has_king(board: Seq<Option<Piece>>, c: Color)
    ensures
        has_king(board, c) <==> exists|s: Square| #[trigger] holds_king(board, s, c),
{
    let kings = own_bb(board, PieceType::King, c);
    lemma_empty(kings);
    if has_king(board, c) {
        let s = choose|s: Square| kings.contains(s);
        lemma_algebra(kind_bb(board, PieceType::King), color_bb(board, c), s);
        lemma_board_bb(board, s);
        lemma_piece_of(board[s.index()]->0);
        assert(holds_king(board, s, c));
    }
    if exists|s: Square| #[trigger] holds_king(board, s, c) {
        let s = choose|s: Square| #[trigger] holds_king(board, s, c);
        lemma_algebra(kind_bb(board, PieceType::King), color_bb(board, c), s);
        lemma_board_bb(board, s);
        lemma_piece_parts(PieceType::King, c);
        assert(kings.contains(s));
    }
}

/// Whether side `c` has no king but the one on its king's square.
pub open spec fn sole_king(board: Seq<Option<Piece>>, c: Color) -> bool {
    forall|s: Square| #[trigger] holds_king(board, s, c) ==> s == king_sq(board, c)
}

/// The king's square of a side that has a king holds its king.
pub proof fn lemma_king_sq(board: Seq<Option<Piece>>, c: Color)
    requires
        has_king(board, c),
    ensures
        holds_king(board, king_sq(board, c), c),
{
    let kings = own_bb(board, PieceType::King, c);
    let s = king_sq(board, c);
    crate::bitboard::lemma_lowest(kings);
    lemma_algebra(kind_bb(board, PieceType::King), color_bb(board, c), s);
    lemma_board_bb(board, s);
    lemma_piece_of(board[s.index()]->0);
}

/// The castling rights without those of `cf`.
pub open spec fn drop_right(rights: u8, cf: CastleFlag) -> u8 {
    rights & !cf.mask()
}

impl PositionView {
    /// Whether the en-passant square, if there is one, is empty and lies behind a pawn
    /// of the side that has just moved.
    pub open spec fn ep_ok(self) -> bool {
        match self.ep() {
            Some(e) => {
                let y = e.rank_index() - self.to_move.dy();
                &&& self.at(e) is None
                &&& on_board(e.file_index(), y)
                &&& self.at(Square::at_xy(e.file_index(), y)) == Some(
                    Piece::of(PieceType::Pawn, self.to_move.opposite()),
                )
            },
            None => true,
        }
    }

    /// Whether, where the right `cf` is left, its king and its rook stand at home.
    pub open spec fn right_fits(self, cf: CastleFlag) -> bool {
        self.top().has_right(cf) ==> self.at(cf.king_from()) == Some(
            Piece::of(PieceType::King, cf.color_spec()),
        ) && self.at(cf.rook_from()) == Some(Piece::of(PieceType::Rook, cf.color_spec()))
    }

    /// Whether every castling right that is left has its king and its rook at home.
    pub open spec fn rights_ok(self) -> bool {
        &&& self.right_fits(CastleFlag::WhiteShort)
        &&& self.right_fits(CastleFlag::WhiteLong)
        &&& self.right_fits(CastleFlag::BlackShort)
        &&& self.right_fits(CastleFlag::BlackLong)
    }

    /// Whether the position can be played from: it has its 64 squares and a state,
    /// each side has one king, the state of the latest move records the checks and pins
    /// that the board shows, and the en-passant square and the castling rights fit the
    /// board.
    pub open spec fn valid(self) -> bool {
        &&& self.shaped()
        &&& self.has_kings()
        &&& sole_king(self.board, Color::White)
        &&& sole_king(self.board, Color::Black)
        &&& attack_info_ok(self.board, self.to_move, self.top())
        &&& self.ep_ok()
        &&& self.rights_ok()
        &&& 0 <= self.top().halfmoves <= self.ply
    }

    /// Whether the position can be played from and is one that legal play can lead to:
    /// the side that is not to move is not in check.
    pub open spec fn sound(self) -> bool {
        self.valid() && self.waiting_side_safe()
    }

    /// The square from which a move takes a piece off the board: the square it reaches,
    /// or, for a capture en passant, the square of the pawn that it passes.
    pub open spec fn capture_square(self, m: Move) -> Square {
        let from = m.from_spec();
        let to = m.to_spec();
        if self.at(from)->0.kind_spec() == PieceType::Pawn && king_distance(from, to) != 2
            && m.kind_spec() == MoveKind::EnPassant {
            Square::at_xy(to.file_index(), from.rank_index())
        } else {
            to
        }
    }

    /// The right that a castling move to `to` uses.
    pub open spec fn castle_flag(self, to: Square) -> CastleFlag {
        if CastleFlag::short_of(self.to_move).king_to() == to {
            CastleFlag::short_of(self.to_move)
        } else {
            CastleFlag::long_of(self.to_move)
        }
    }

    /// Whether a pawn move is a push by two squares.
    pub open spec fn is_double_push(self, m: Move) -> bool {
        self.at(m.from_spec())->0.kind_spec() == PieceType::Pawn && king_distance(
            m.from_spec(),
            m.to_spec(),
        ) == 2
    }

    /// Whether the move does not capture a king.
    pub open spec fn spares_king(self, m: Move) -> bool {
        match self.at(m.to_spec()) {
            Some(q) => q.kind_spec() != PieceType::King,
            None => true,
        }
    }

    /// Whether the move can be made in this position: it has the shape of a move of
    /// this position, it does not capture a king, and the move counters have room.
    pub open spec fn playable(self, m: Move) -> bool {
        &&& self.shape_ok(m)
        &&& self.spares_king(m)
        &&& self.ply < i32::MAX
        &&& self.top().halfmoves < i32::MAX
    }

    /// Whether the move has the shape of a move of this position: a piece of the side
    /// to move stands on the square it leaves; the square it reaches is empty or holds
    /// a piece of the other side; only a pawn promotes; a pawn that goes two squares
    /// goes straight from its second rank over an empty square to an empty square; a
    /// capture en passant is a pawn's capture onto the en-passant square; castling
    /// moves the king from its home to its castled square, with the rook at home and
    /// the rook's new square empty.
    pub open spec fn shape_ok(self, m: Move) -> bool {
        let us = self.to_move;
        let from = m.from_spec();
        let to = m.to_spec();
        let kind = m.kind_spec();
        let mover = self.at(from)->0;
        &&& m.wf()
        &&& self.at(from) is Some
        &&& mover.color_spec() == us
        &&& match self.at(to) {
            Some(q) => q.color_spec() != us && kind != MoveKind::EnPassant && kind
                != MoveKind::Castle,
            None => true,
        }
        &&& (kind is Promotion ==> mover.kind_spec() == PieceType::Pawn && king_distance(from, to)
            != 2)
        &&& (self.is_double_push(m) ==> {
            &&& kind == MoveKind::Normal
            &&& from.file_index() == to.file_index()
            &&& from.rank_index() == us.relative_rank_index(1)
            &&& to.rank_index() == us.relative_rank_index(3)
            &&& self.at(Square::at_xy(from.file_index(), us.relative_rank_index(2))) is None
            &&& self.at(to) is None
        })
        &&& (kind == MoveKind::EnPassant ==> {
            &&& mover.kind_spec() == PieceType::Pawn
            &&& self.ep() == Some(to)
            &&& to.rank_index() == from.rank_index() + us.dy()
            &&& abs_diff(from.file_index(), to.file_index()) == 1
        })
        &&& (kind == MoveKind::Castle ==> {
            let cf = self.castle_flag(to);
            &&& mover.kind_spec() == PieceType::King
            &&& from == cf.king_from()
            &&& to == cf.king_to()
            &&& self.at(cf.rook_from()) == Some(Piece::of(PieceType::Rook, us))
            &&& self.at(cf.rook_to()) is None
        })
    }

    /// The piece that stands on the square reached after the move: the piece that
    /// moved, or what a pawn was promoted to.
    pub open spec fn placed(self, m: Move) -> Piece {
        let mover = self.at(m.from_spec())->0;
        match m.kind_spec() {
            MoveKind::Promotion(t) => if mover.kind_spec() == PieceType::Pawn && king_distance(
                m.from_spec(),
                m.to_spec(),
            ) != 2 {
                Piece::of(t, self.to_move)
            } else {
                mover
            },
            _ => mover,
        }
    }

    /// The board after the move: the captured piece is gone, the piece that moved
    /// stands on the square it reached, and in castling the rook has moved too.
    pub open spec fn make_board(self, m: Move) -> Seq<Option<Piece>> {
        let from = m.from_spec();
        let to = m.to_spec();
        let b1 = self.board.update(self.capture_square(m).index(), None).update(
            from.index(),
            None,
        ).update(to.index(), Some(self.placed(m)));
        if m.kind_spec() == MoveKind::Castle {
            let cf = self.castle_flag(to);
            b1.update(cf.rook_from().index(), None).update(
                cf.rook_to().index(),
                b1[cf.rook_from().index()],
            )
        } else {
            b1
        }
    }

    /// The piece that the move captures.
    pub open spec fn captured_by(self, m: Move) -> Option<Piece> {
        self.at(self.capture_square(m))
    }

    /// The move clock after the move: zero after a pawn move or a capture, else one
    /// more.
    pub open spec fn next_halfmoves(self, m: Move) -> int {
        if self.at(m.from_spec())->0.kind_spec() == PieceType::Pawn || self.captured_by(m) is Some {
            0
        } else {
            self.top().halfmoves + 1
        }
    }

    /// The en-passant square after the move: the square that a pawn pushed by two
    /// squares has passed, and none after any other move.
    pub open spec fn next_ep(self, m: Move) -> Option<Square> {
        if self.is_double_push(m) {
            Some(Square::at_xy(m.from_spec().file_index(), self.to_move.relative_rank_index(2)))
        } else {
            None
        }
    }

    /// The castling rights after the move: a king's move loses both rights of its
    /// side, a rook's move from its home loses the right of that rook, and the capture
    /// of a rook on its home loses the right of that rook.
    pub open spec fn next_rights(self, m: Move) -> u8 {
        let us = self.to_move;
        let them = us.opposite();
        let from = m.from_spec();
        let mover = self.at(from)->0;
        let r0 = self.top().castle_rights;
        let r1 = if mover.kind_spec() == PieceType::King {
            drop_right(drop_right(r0, CastleFlag::short_of(us)), CastleFlag::long_of(us))
        } else if mover.kind_spec() == PieceType::Rook {
            let a = if CastleFlag::short_of(us).rook_from() == from {
                drop_right(r0, CastleFlag::short_of(us))
            } else {
                r0
            };
            if CastleFlag::long_of(us).rook_from() == from {
                drop_right(a, CastleFlag::long_of(us))
            } else {
                a
            }
        } else {
            r0
        };
        match self.captured_by(m) {
            Some(cap) => if cap.kind_spec() == PieceType::Rook {
                if self.capture_square(m).relative_spec(us) == Square::A8 {
                    drop_right(r1, CastleFlag::long_of(them))
                } else if self.capture_square(m).relative_spec(us) == Square::H8 {
                    drop_right(r1, CastleFlag::short_of(them))
                } else {
                    r1
                }
            } else {
                r1
            },
            None => r1,
        }
    }

    /// The position that making the move `m` leads to.
    pub open spec fn after(self, m: Move) -> PositionView {
        choose|q: PositionView| self.made(m, q)
    }

    /// Whether `q` is the position that making the move `m` leads to: the board after
    /// the move, the other side to move, one more move played, and on top of the states
    /// a new one with the captured piece, the en-passant square, the castling rights
    /// and the move clock after the move, and with the checks and pins of the new board.
    pub open spec fn made(self, m: Move, q: PositionView) -> bool {
        &&& q.board == self.make_board(m)
        &&& q.to_move == self.to_move.opposite()
        &&& q.ply == self.ply + 1
        &&& q.states.len() == self.states.len() + 1
        &&& q.states.drop_last() == self.states
        &&& q.top().captured == self.captured_by(m)
        &&& q.top().en_passant == self.next_ep(m)
        &&& q.top().castle_rights == self.next_rights(m)
        &&& q.top().halfmoves == self.next_halfmoves(m)
        &&& attack_info_ok(q.board, q.to_move, q.top())
    }
}

/// Dropping one right leaves each other right as it was.
pub proof fn lemma_drop_right(r: u8, a: u8, b: u8)
    by (bit_vector)
    requires
        a == 1 || a == 2 || a == 4 || a == 8,
        b == 1 || b == 2 || b == 4 || b == 8,
    ensures
        ((r & !a) & b == b) == (a != b && r & b == b),
{
}

/// A right that is left after a move was there before it, the move was not made by
/// its king nor by its rook from home, and the move did not capture its rook at home.
pub proof fn lemma_rights_after(p: PositionView, m: Move, cf: CastleFlag)
    requires
        cf.is_single(),
        p.next_rights(m) & cf.mask() == cf.mask(),
    ensures
        p.top().has_right(cf),
        !(cf.color_spec() == p.to_move && p.at(m.from_spec())->0.kind_spec() == PieceType::King),
        !(cf.color_spec() == p.to_move && p.at(m.from_spec())->0.kind_spec() == PieceType::Rook
            && cf.rook_from() == m.from_spec()),
        !(cf.color_spec() != p.to_move && p.captured_by(m) is Some && p.captured_by(
            m,
        )->0.kind_spec() == PieceType::Rook && p.capture_square(m) == cf.rook_from()),
{
    let us = p.to_move;
    let them = us.opposite();
    let r0 = p.top().castle_rights;
    let b = cf.mask();
    let s = CastleFlag::short_of(us);
    let l = CastleFlag::long_of(us);
    let ts = CastleFlag::short_of(them);
    let tl = CastleFlag::long_of(them);
    lemma_drop_right(r0, s.mask(), b);
    lemma_drop_right(r0, l.mask(), b);
    lemma_drop_right(r0 & !s.mask(), l.mask(), b);
    let from = m.from_spec();
    let mover = p.at(from)->0;
    let r1 = if mover.kind_spec() == PieceType::King {
        drop_right(drop_right(r0, s), l)
    } else if mover.kind_spec() == PieceType::Rook {
        let a = if s.rook_from() == from {
            drop_right(r0, s)
        } else {
            r0
        };
        if l.rook_from() == from {
            drop_right(a, l)
        } else {
            a
        }
    } else {
        r0
    };
    lemma_drop_right(r1, tl.mask(), b);
    lemma_drop_right(r1, ts.mask(), b);
    let cs = p.capture_square(m);
    lemma_square_index(cs);
    lemma_square_index(cf.rook_from());
    if cs == cf.rook_from() && cf.color_spec() != us {
        assert(cs.relative_spec(us) == Square::A8 || cs.relative_spec(us) == Square::H8) by {
            reveal(Square::index);
            reveal(Square::at);
        }
        assert(cs.relative_spec(us) == Square::A8 ==> cf == tl) by {
            reveal(Square::index);
            reveal(Square::at);
        }
        assert(cs.relative_spec(us) == Square::H8 ==> cf == ts) by {
            reveal(Square::index);
            reveal(Square::at);
        }
    }
}

/// A castling right that is left after a playable move still has its king and its
/// rook at home.
#[verifier::rlimit(50)]
pub proof fn lemma_right_kept(p: PositionView, m: Move, q: PositionView, f: CastleFlag)
    requires
        p.valid(),
        p.playable(m),
        p.made(m, q),
        f.is_single(),
    ensures
        q.right_fits(f),
{
    let from = m.from_spec();
    let to = m.to_spec();
    let us = p.to_move;
    lemma_move_parts(m);
    lemma_square_index(from);
    lemma_square_index(to);
    let cs = p.capture_square(m);
    lemma_square_index(cs);
    let cf = p.castle_flag(to);
    lemma_square_index(cf.rook_from());
    lemma_square_index(cf.rook_to());
    if q.top().has_right(f) {
        lemma_rights_after(p, m, f);
        let k = f.king_from();
        let h = f.rook_from();
        lemma_square_index(k);
        lemma_square_index(h);
        lemma_piece_parts(PieceType::King, f.color_spec());
        lemma_piece_parts(PieceType::Rook, f.color_spec());
        lemma_piece_parts(PieceType::Rook, us);
        lemma_piece_parts(PieceType::Pawn, us.opposite());
        assert(p.right_fits(f));
        if k.index() == from.index() {
            lemma_square_eq(k, from);
        }
        if h.index() == from.index() {
            lemma_square_eq(h, from);
        }
        if h.index() == cs.index() {
            lemma_square_eq(h, cs);
        }
        if k.index() == cs.index() {
            lemma_square_eq(k, cs);
        }
        if k.index() == to.index() {
            lemma_square_eq(k, to);
        }
        if h.index() == to.index() {
            lemma_square_eq(h, to);
        }
        if m.kind_spec() == MoveKind::EnPassant {
            lemma_square_at_xy(to.file_index(), from.rank_index());
        }
        assert(k != from);
        assert(h != from);
        assert(k != cs);
        assert(h != cs);
        assert(k != to);
        assert(h != to);
        if m.kind_spec() == MoveKind::Castle {
            assert(k.index() != cf.rook_from().index() && k.index() != cf.rook_to().index()
                && h.index() != cf.rook_to().index() && h.index() != cf.rook_from().index()) by {
                reveal(Square::index);
            }
        }
        assert(q.at(k) == p.at(k));
        assert(q.at(h) == p.at(h));
    }
}

/// After a playable move both sides still have their kings, and the new en-passant
/// square fits the new board.
#[verifier::rlimit(50)]
pub proof fn lemma_make_keeps_valid(p: PositionView, m: Move)
    requires
        p.valid(),
        p.playable(m),
    ensures
        has_king(p.make_board(m), Color::White),
        has_king(p.make_board(m), Color::Black),
        sole_king(p.make_board(m), Color::White),
        sole_king(p.make_board(m), Color::Black),
        p.make_board(m).len() == 64,
        forall|q: PositionView| p.made(m, q) ==> q.valid(),
{
    let from = m.from_spec();
    let to = m.to_spec();
    let us = p.to_move;
    let nb = p.make_board(m);
    lemma_move_parts(m);
    lemma_square_index(from);
    lemma_square_index(to);
    let cs = p.capture_square(m);
    lemma_square_index(cs);
    lemma_piece_parts(PieceType::Pawn, us.opposite());
    lemma_piece_parts(PieceType::Rook, us);
    if m.kind_spec() == MoveKind::EnPassant {
        lemma_square_at_xy(to.file_index(), from.rank_index());
    }
    let cf = p.castle_flag(to);
    lemma_square_index(cf.rook_from());
    lemma_square_index(cf.rook_to());
    assert forall|c: Color| has_king(nb, c) by {
        lemma_has_king(p.board, c);
        lemma_has_king(nb, c);
        lemma_piece_parts(PieceType::King, c);
        let s0 = choose|s: Square| #[trigger] holds_king(p.board, s, c);
        lemma_square_index(s0);
        let s1 = if s0 == from {
            to
        } else {
            s0
        };
        if s0 != from && s0.index() == from.index() {
            lemma_square_eq(s0, from);
        }
        assert(p.at(from)->0.kind_spec() == PieceType::King ==> !(m.kind_spec() is Promotion));
        assert(holds_king(nb, s1, c));
    }
    assert forall|c: Color| sole_king(nb, c) by {
        lemma_piece_parts(PieceType::King, c);
        lemma_king_sq(nb, c);
        lemma_king_sq(p.board, c);
        match m.kind_spec() {
            MoveKind::Promotion(t) => {
                lemma_piece_parts(t, us);
            },
            _ => {},
        }
        lemma_piece_of(p.at(from)->0);
        assert forall|a: Square, b: Square|
            holds_king(nb, a, c) && holds_king(nb, b, c) implies a == b by {
            lemma_square_index(a);
            lemma_square_index(b);
            let pa = if a == to {
                from
            } else {
                a
            };
            let pb = if b == to {
                from
            } else {
                b
            };
            if a.index() == to.index() {
                lemma_square_eq(a, to);
            }
            if b.index() == to.index() {
                lemma_square_eq(b, to);
            }
            if a.index() == from.index() {
                lemma_square_eq(a, from);
            }
            if b.index() == from.index() {
                lemma_square_eq(b, from);
            }
            assert(holds_king(p.board, pa, c));
            assert(holds_king(p.board, pb, c));
            assert(pa == king_sq(p.board, c));
            assert(pb == king_sq(p.board, c));
        }
        assert forall|s: Square| #[trigger] holds_king(nb, s, c) implies s == king_sq(nb, c) by {
            assert(holds_king(nb, king_sq(nb, c), c));
        }
    }
    assert forall|q: PositionView| p.made(m, q) implies q.valid() by {
        assert(q.states.len() > 0);
        lemma_right_kept(p, m, q, CastleFlag::WhiteShort);
        lemma_right_kept(p, m, q, CastleFlag::WhiteLong);
        lemma_right_kept(p, m, q, CastleFlag::BlackShort);
        lemma_right_kept(p, m, q, CastleFlag::BlackLong);
        if p.is_double_push(m) {
            let e = Square::at_xy(from.file_index(), us.relative_rank_index(2));
            lemma_square_at_xy(from.file_index(), us.relative_rank_index(2));
            lemma_square_at_xy(to.file_index(), to.rank_index());
            lemma_piece_of(p.at(from)->0);
            assert(q.top().en_passant == Some(e));
            assert(q.at(e) is None);
            assert(q.at(to) == Some(Piece::of(PieceType::Pawn, us)));
            assert(Square::at_xy(e.file_index(), e.rank_index() - q.to_move.dy()) == to);
        }
    }
}

impl Position {
    /// Whether the position can be played from.
    pub open spec fn inv(&self) -> bool {
        self.wf() && self@.valid()
    }

    /// Makes a move: pushes a new state, takes the captured piece off the board, moves
    /// the piece (and in castling the rook), replaces a promoted pawn, updates the
    /// en-passant square, the castling rights and the move clock, hands the move to the
    /// other side and works out the checks and pins anew. If the move is legal and
    /// passes over empty squares only, the side that has moved is not in check
    /// afterwards. If the move is legal and the side that was not to move was out of
    /// check, no more than two pieces give check afterwards.
    #[verifier::rlimit(50)]
    pub fn make_move(&mut self, mov: Move, tables: &Tables)
        requires
            old(self).inv(),
            old(self)@.playable(mov),
        ensures
            final(self).inv(),
            old(self)@.made(mov, final(self)@),
            old(self)@.path_clear(mov) && old(self)@.legal(mov) ==> final(self)@.sound(),
            old(self)@.legal(mov) && old(self)@.waiting_side_safe()
                ==> final(self)@.top().checkers.count() <= 2,
    {
        let ghost p = self@;
        proof {
            lemma_make_keeps_valid(p, mov);
            lemma_move_parts(mov);
        }
        let us = self.to_move();
        let them = us.not();
        let from = mov.from();
        let to = mov.to();
        let flag = mov.kind();
        let prev = *self.state();
        proof {
            lemma_square_index(from);
            lemma_square_index(to);
            if from.index() == to.index() {
                lemma_square_eq(from, to);
            }
        }
        let mover = self.piece_on(from).unwrap();
        let mut halfmoves: i32 = prev.halfmoves + 1;
        let mut en_passant: Option<Square> = None;
        let mut capture_square = to;
        if mover.kind() == PieceType::Pawn {
            halfmoves = 0;
            if from.distance(to) == 2 {
                en_passant = Some(Square::new(from.file(), us.relative_rank(Rank::Three)));
            } else if flag == MoveKind::EnPassant {
                capture_square = Square::new(to.file(), from.rank());
            } else if let MoveKind::Promotion(promo_type) = flag {
                let _ = self.remove_piece(from);
                self.add_piece(Piece::new(promo_type, us), from);
            }
        }
        proof {
            lemma_square_index(capture_square);
            if capture_square.index() == from.index() {
                lemma_square_eq(capture_square, from);
            }
            if capture_square.index() == to.index() {
                lemma_square_eq(capture_square, to);
            }
            assert(capture_square == p.capture_square(mov));
            assert(self@.at(from) == Some(p.placed(mov)));
        }
        let captured = self.remove_piece(capture_square);
        if captured.is_some() {
            halfmoves = 0;
        }
        self.move_piece(from, to);
        proof {
            assert(self@.board =~= p.board.update(p.capture_square(mov).index(), None).update(
                from.index(),
                None,
            ).update(to.index(), Some(p.placed(mov))));
        }
        if flag == MoveKind::Castle {
            let castle_flag = if CastleFlag::short_for(us).to_square() == to {
                CastleFlag::short_for(us)
            } else {
                CastleFlag::long_for(us)
            };
            proof {
                lemma_square_index(castle_flag.rook_from());
                lemma_square_index(castle_flag.rook_to());
            }
            self.move_piece(castle_flag.rook_from_square(), castle_flag.rook_to_square());
        }
        proof {
            assert(self@.board =~= p.make_board(mov));
        }
        let mut rights: u8 = prev.castle_rights;
        if mover.kind() == PieceType::King {
            rights = rights & !CastleFlag::short_for(us).bits();
            rights = rights & !CastleFlag::long_for(us).bits();
        } else if mover.kind() == PieceType::Rook {
            if CastleFlag::short_for(us).rook_from_square() == from {
                rights = rights & !CastleFlag::short_for(us).bits();
            }
            if CastleFlag::long_for(us).rook_from_square() == from {
                rights = rights & !CastleFlag::long_for(us).bits();
            }
        }
        if let Some(cap) = captured {
            if cap.kind() == PieceType::Rook {
                if capture_square.relative(us) == Square::A8 {
                    rights = rights & !CastleFlag::long_for(them).bits();
                } else if capture_square.relative(us) == Square::H8 {
                    rights = rights & !CastleFlag::short_for(them).bits();
                }
            }
        }
        let mut st = prev.carry();
        st.captured = captured;
        st.en_passant = en_passant;
        st.castle_rights = rights;
        st.halfmoves = halfmoves;
        self.push_state(st);
        self.turn(true);
        self.update_state(tables);
        proof {
            assert(self@.states.drop_last() =~= p.states);
            if p.legal(mov) && p.waiting_side_safe() {
                crate::position::checks::lemma_at_most_double_check(p, mov, self@);
            }
            if p.path_clear(mov) && p.legal(mov) {
                crate::position::safety::lemma_legal_move_is_safe(p, mov, self@);
            }
        }
    }

    /// Takes back the latest move, which must be `mov`: the board, the side to move,
    /// the number of moves and the states are again what they were before it was made.
    #[verifier::rlimit(50)]
    pub fn unmake_move(&mut self, mov: Move)
        requires
            old(self).wf(),
            exists|p: PositionView| p.valid() && p.playable(mov) && #[trigger] p.made(mov, old(self)@),
        ensures
            final(self).wf(),
            forall|p: PositionView|
                p.valid() && p.playable(mov) && #[trigger] p.made(mov, old(self)@) ==> final(self)@
                    == p,
    {
        let ghost q = self@;
        let ghost p = choose|p: PositionView|
            p.valid() && p.playable(mov) && #[trigger] p.made(mov, q);
        proof {
            lemma_move_parts(mov);
        }
        self.turn(false);
        let us = self.to_move();
        let to = mov.to();
        let from = mov.from();
        let flag = mov.kind();
        let ghost cs = p.capture_square(mov);
        let ghost cf = p.castle_flag(to);
        proof {
            lemma_square_index(from);
            lemma_square_index(to);
            lemma_square_index(cs);
            lemma_square_index(cf.rook_from());
            lemma_square_index(cf.rook_to());
            if from.index() == to.index() {
                lemma_square_eq(from, to);
            }
            if cs.index() == from.index() {
                lemma_square_eq(cs, from);
            }
            if cs.index() == to.index() {
                lemma_square_eq(cs, to);
            }
            if flag == MoveKind::EnPassant {
                lemma_square_at_xy(to.file_index(), from.rank_index());
            }
            lemma_piece_parts(PieceType::Pawn, us.opposite());
            lemma_piece_parts(PieceType::Rook, us);
            lemma_piece_of(p.at(from)->0);
        }
        self.move_piece(to, from);
        let captured = self.state().captured;
        if let Some(pc) = captured {
            self.add_piece(pc, to);
        }
        self.pop_state();
        match flag {
            MoveKind::EnPassant => {
                let _ = self.remove_piece(to);
                self.add_piece(
                    Piece::new(PieceType::Pawn, us.not()),
                    Square::new(to.file(), from.rank()),
                );
            },
            MoveKind::Promotion(_) => {
                let _ = self.remove_piece(from);
                self.add_piece(Piece::new(PieceType::Pawn, us), from);
            },
            MoveKind::Castle => {
                let variants = CastleFlag::variants_for(us);
                if variants[0].to_square() == to {
                    self.move_piece(variants[0].rook_to_square(), variants[0].rook_from_square());
                } else if variants[1].to_square() == to {
                    self.move_piece(variants[1].rook_to_square(), variants[1].rook_from_square());
                }
            },
            _ => {},
        }
        proof {
            assert(self@.board =~= p.board);
            assert(self@.states =~= p.states);
            assert forall|r: PositionView|
                r.valid() && r.playable(mov) && #[trigger] r.made(mov, q) implies self@ == r by {
                lemma_unmake_unique(p, r, mov, q);
            }
        }
    }
}

/// A position and a move lead to one position only, and only one position leads
/// there by that move.
#[verifier::rlimit(50)]
pub proof fn lemma_unmake_unique(p: PositionView, r: PositionView, m: Move, q: PositionView)
    requires
        p.valid(),
        p.playable(m),
        p.made(m, q),
        r.valid(),
        r.playable(m),
        r.made(m, q),
    ensures
        p == r,
{
    let from = m.from_spec();
    let to = m.to_spec();
    lemma_move_parts(m);
    lemma_square_index(from);
    lemma_square_index(to);
    assert(p.states == r.states);
    assert(p.to_move == r.to_move);
    assert(p.ply == r.ply);
    let us = p.to_move;
    lemma_piece_parts(PieceType::Pawn, us.opposite());
    lemma_piece_parts(PieceType::Pawn, us);
    lemma_piece_parts(PieceType::Rook, us);
    lemma_piece_parts(PieceType::King, us);
    lemma_piece_of(p.at(from)->0);
    lemma_piece_of(r.at(from)->0);
    let pcs = p.capture_square(m);
    let rcs = r.capture_square(m);
    lemma_square_index(pcs);
    lemma_square_index(rcs);
    if m.kind_spec() == MoveKind::EnPassant {
        lemma_square_at_xy(to.file_index(), from.rank_index());
    }
    let cf = p.castle_flag(to);
    lemma_square_index(cf.rook_from());
    lemma_square_index(cf.rook_to());
    assert(pcs == rcs);
    assert(p.captured_by(m) == r.captured_by(m));
    if from.index() == to.index() {
        lemma_square_eq(from, to);
    }
    if pcs.index() == from.index() {
        lemma_square_eq(pcs, from);
    }
    let fi = from.index();
    let ti = to.index();
    let ci = pcs.index();
    let pb = p.board.update(ci, None).update(fi, None).update(ti, Some(p.placed(m)));
    let rb = r.board.update(ci, None).update(fi, None).update(ti, Some(r.placed(m)));
    if m.kind_spec() == MoveKind::Castle {
        let a = cf.rook_from().index();
        let b = cf.rook_to().index();
        assert(a != fi && a != ti && b != fi && b != ti && a != b) by {
            reveal(Square::index);
        }
        assert(ci == ti);
        assert(q.board == pb.update(a, None).update(b, pb[a]));
        assert(q.board == rb.update(a, None).update(b, rb[a]));
        assert forall|i: int| 0 <= i < 64 implies p.board[i] == r.board[i] by {
            assert(q.board[i] == pb.update(a, None).update(b, pb[a])[i]);
            assert(q.board[i] == rb.update(a, None).update(b, rb[a])[i]);
            if i == fi {
                assert(q.board[ti] == Some(p.placed(m)));
                assert(q.board[ti] == Some(r.placed(m)));
            }
        }
    } else {
        assert(q.board == pb);
        assert(q.board == rb);
        assert forall|i: int| 0 <= i < 64 implies p.board[i] == r.board[i] by {
            assert(q.board[i] == pb[i]);
            assert(q.board[i] == rb[i]);
            if i == fi {
                assert(q.board[ti] == Some(p.placed(m)));
                assert(q.board[ti] == Some(r.placed(m)));
                if m.kind_spec() is Promotion {
                    assert(p.at(from)->0 == Piece::of(PieceType::Pawn, us));
                    assert(r.at(from)->0 == Piece::of(PieceType::Pawn, us));
                }
            }
        }
    }
    assert(p.board =~= r.board);
}

/// A move leads from a position to one position only.
pub proof fn lemma_made_unique(p: PositionView, m: Move, q1: PositionView, q2: PositionView)
    requires
        p.made(m, q1),
        p.made(m, q2),
    ensures
        q1 == q2,
{
    let a = q1.top();
    let b = q2.top();
    assert(a.pinners =~= b.pinners);
    assert(a.blockers =~= b.blockers);
    assert(a == b);
    assert forall|i: int| 0 <= i < q1.states.len() implies q1.states[i] == q2.states[i] by {
        if i < q1.states.len() - 1 {
            assert(q1.states[i] == q1.states.drop_last()[i]);
            assert(q2.states[i] == q2.states.drop_last()[i]);
        }
    }
    assert(q1.states =~= q2.states);
}

/// The position that a move leads to is the one that `after` names.
pub proof fn lemma_after(p: PositionView, m: Move, q: PositionView)
    requires
        p.made(m, q),
    ensures
        p.after(m) == q,
{
    lemma_made_unique(p, m, p.after(m), q);
}

/// A move that has the shape of a move of a position and is legal in it can be made,
/// as long as the move counter has room.
pub proof fn lemma_legal_playable(p: PositionView, m: Move)
    requires
        p.valid(),
        p.shape_ok(m),
        p.legal(m),
        p.ply < i32::MAX,
    ensures
        p.playable(m),
{
}

} // verus!
