use vstd::prelude::*;

use crate::bitboard::{lemma_algebra, lemma_ext, lemma_from_set, lemma_single, Bitboard};
use crate::color::Color;
use crate::piece::{Piece, PieceType};
use crate::precompute::{
    bishop_spec, interval_spec, king_spec, knight_spec, pawn_spec, rook_spec,
};
use crate::square::Square;

verus! {

/// Whether square `s` of the board holds a piece of kind `k`.
pub open spec fn has_kind(board: Seq<Option<Piece>>, s: Square, k: PieceType) -> bool {
    match board[s.index()] {
        Some(p) => p.kind_spec() == k,
        None => false,
    }
}

/// Whether square `s` of the board holds a piece of side `c`.
pub open spec fn has_color(board: Seq<Option<Piece>>, s: Square, c: Color) -> bool {
    match board[s.index()] {
        Some(p) => p.color_spec() == c,
        None => false,
    }
}

/// The squares that hold a piece of kind `k`.
pub open spec fn kind_bb(board: Seq<Option<Piece>>, k: PieceType) -> Bitboard {
    Bitboard::from_set(Set::new(|s: Square| has_kind(board, s, k)))
}

/// The squares that hold a piece of side `c`.
pub open spec fn color_bb(board: Seq<Option<Piece>>, c: Color) -> Bitboard {
    Bitboard::from_set(Set::new(|s: Square| has_color(board, s, c)))
}

/// The squares that hold a piece.
pub open spec fn occupied(board: Seq<Option<Piece>>) -> Bitboard {
    color_bb(board, Color::White).or(color_bb(board, Color::Black))
}

/// The squares that hold a piece of kind `k` and side `c`.
pub open spec fn own_bb(board: Seq<Option<Piece>>, k: PieceType, c: Color) -> Bitboard {
    kind_bb(board, k).and(color_bb(board, c))
}

/// Whether side `c` has a king on the board.
pub open spec fn has_king(board: Seq<Option<Piece>>, c: Color) -> bool {
    !own_bb(board, PieceType::King, c).is_empty()
}

/// The square of the king of side `c`: of its kings, the one on the square with the
/// lowest number.
pub open spec fn king_sq(board: Seq<Option<Piece>>, c: Color) -> Square {
    own_bb(board, PieceType::King, c).lowest()
}

/// The bishops, rooks and queens that attack `sq` along a line on which no square of
/// `occ` stands between.
pub open spec fn sliders_to_spec(board: Seq<Option<Piece>>, sq: Square, occ: Bitboard) -> Bitboard {
    bishop_spec(sq, occ).and(
        kind_bb(board, PieceType::Bishop).or(kind_bb(board, PieceType::Queen)),
    ).or(
        rook_spec(sq, occ).and(kind_bb(board, PieceType::Rook).or(kind_bb(board, PieceType::Queen))),
    )
}

/// The pieces of side `by` that attack `sq` when the squares of `occ` are taken as the
/// occupied ones: pawns a pawn's capture away, knights a knight's move away, sliders
/// with a free line, and kings next to it.
pub open spec fn attackers(board: Seq<Option<Piece>>, sq: Square, by: Color, occ: Bitboard) -> Bitboard {
    pawn_spec(sq, by.opposite()).and(kind_bb(board, PieceType::Pawn)).or(
        knight_spec(sq).and(kind_bb(board, PieceType::Knight)),
    ).or(sliders_to_spec(board, sq, occ)).or(
        king_spec(sq).and(kind_bb(board, PieceType::King)),
    ).and(color_bb(board, by))
}

/// The pieces that give check to the side `to_move`.
pub open spec fn checkers_of(board: Seq<Option<Piece>>, to_move: Color) -> Bitboard {
    attackers(board, king_sq(board, to_move), to_move.opposite(), occupied(board))
}

/// The bishops, rooks and queens of the other side that would attack the king of side
/// `c` if no piece stood in their way.
pub open spec fn snipers(board: Seq<Option<Piece>>, c: Color) -> Bitboard {
    attackers(board, king_sq(board, c), c.opposite(), Bitboard::empty()).and(
        kind_bb(board, PieceType::Bishop).or(kind_bb(board, PieceType::Rook)).or(
            kind_bb(board, PieceType::Queen),
        ),
    )
}

/// The pieces that stand between the king of side `c` and the square `pp`.
pub open spec fn screen(board: Seq<Option<Piece>>, c: Color, pp: Square) -> Bitboard {
    interval_spec(king_sq(board, c), pp).and(occupied(board))
}

/// Whether the piece on `pp` pins a piece to the king of side `c`: it is a sniper,
/// and exactly one piece stands between it and the king.
pub open spec fn pins(board: Seq<Option<Piece>>, c: Color, pp: Square) -> bool {
    snipers(board, c).contains(pp) && !screen(board, c, pp).is_empty() && !screen(
        board,
        c,
        pp,
    ).has_two()
}

/// The pieces, of either side, that alone shield the king of side `c` from a sniper.
pub open spec fn blockers_of(board: Seq<Option<Piece>>, c: Color) -> Bitboard {
    Bitboard::from_set(
        Set::new(|b: Square| exists|pp: Square| pins(board, c, pp) && #[trigger] screen(board, c, pp).contains(b)),
    )
}

/// The pieces that pin a piece to the king of side `c`.
pub open spec fn pinners_against(board: Seq<Option<Piece>>, c: Color) -> Bitboard {
    Bitboard::from_set(Set::new(|pp: Square| pins(board, c, pp)))
}

/// What the bitboards of a board hold, square by square.
pub proof fn lemma_board_bb(board: Seq<Option<Piece>>, s: Square)
    ensures
        forall|k: PieceType| #[trigger] kind_bb(board, k).contains(s) == has_kind(board, s, k),
        forall|c: Color| #[trigger] color_bb(board, c).contains(s) == has_color(board, s, c),
        occupied(board).contains(s) == board[s.index()] is Some,
{
    assert forall|k: PieceType| #[trigger] kind_bb(board, k).contains(s) == has_kind(board, s, k) by {
        lemma_from_set(Set::new(|s: Square| has_kind(board, s, k)), s);
    }
    assert forall|c: Color| #[trigger] color_bb(board, c).contains(s) == has_color(board, s, c) by {
        lemma_from_set(Set::new(|s: Square| has_color(board, s, c)), s);
    }
    lemma_algebra(color_bb(board, Color::White), color_bb(board, Color::Black), s);
}

/// Putting a piece on an empty square adds the square to the bitboards of its kind and
/// of its side, and leaves the others alone.
pub proof fn lemma_place(board: Seq<Option<Piece>>, sq: Square, p: Piece)
    requires
        board.len() == 64,
        board[sq.index()] is None,
    ensures
        forall|c: Color| #[trigger]
            color_bb(board.update(sq.index(), Some(p)), c) == if c == p.color_spec() {
                color_bb(board, c).or(Bitboard::single(sq))
            } else {
                color_bb(board, c)
            },
        forall|k: PieceType| #[trigger]
            kind_bb(board.update(sq.index(), Some(p)), k) == if k == p.kind_spec() {
                kind_bb(board, k).or(Bitboard::single(sq))
            } else {
                kind_bb(board, k)
            },
        forall|c: Color| #[trigger]
            color_bb(board, c).or(Bitboard::single(sq)) == color_bb(board, c).xor(
                Bitboard::single(sq),
            ),
        forall|k: PieceType| #[trigger]
            kind_bb(board, k).or(Bitboard::single(sq)) == kind_bb(board, k).xor(
                Bitboard::single(sq),
            ),
{
    let after = board.update(sq.index(), Some(p));
    crate::square::lemma_square_index(sq);
    assert forall|c: Color| #[trigger]
        color_bb(after, c) == if c == p.color_spec() {
            color_bb(board, c).or(Bitboard::single(sq))
        } else {
            color_bb(board, c)
        } by {
        let target = if c == p.color_spec() {
            color_bb(board, c).or(Bitboard::single(sq))
        } else {
            color_bb(board, c)
        };
        assert forall|s: Square| color_bb(after, c).contains(s) == target.contains(s) by {
            lemma_board_bb(after, s);
            lemma_board_bb(board, s);
            lemma_algebra(color_bb(board, c), Bitboard::single(sq), s);
            lemma_single(sq, s);
            crate::square::lemma_square_index(s);
            if s.index() == sq.index() {
                crate::square::lemma_square_eq(s, sq);
            }
        }
        lemma_ext(color_bb(after, c), target);
    }
    assert forall|k: PieceType| #[trigger]
        kind_bb(after, k) == if k == p.kind_spec() {
            kind_bb(board, k).or(Bitboard::single(sq))
        } else {
            kind_bb(board, k)
        } by {
        let target = if k == p.kind_spec() {
            kind_bb(board, k).or(Bitboard::single(sq))
        } else {
            kind_bb(board, k)
        };
        assert forall|s: Square| kind_bb(after, k).contains(s) == target.contains(s) by {
            lemma_board_bb(after, s);
            lemma_board_bb(board, s);
            lemma_algebra(kind_bb(board, k), Bitboard::single(sq), s);
            lemma_single(sq, s);
            crate::square::lemma_square_index(s);
            if s.index() == sq.index() {
                crate::square::lemma_square_eq(s, sq);
            }
        }
        lemma_ext(kind_bb(after, k), target);
    }
    assert forall|c: Color| #[trigger]
        color_bb(board, c).or(Bitboard::single(sq)) == color_bb(board, c).xor(
            Bitboard::single(sq),
        ) by {
        let a = color_bb(board, c);
        assert forall|s: Square|
            a.or(Bitboard::single(sq)).contains(s) == a.xor(Bitboard::single(sq)).contains(s) by {
            lemma_board_bb(board, s);
            lemma_algebra(a, Bitboard::single(sq), s);
            lemma_single(sq, s);
        }
        lemma_ext(a.or(Bitboard::single(sq)), a.xor(Bitboard::single(sq)));
    }
    assert forall|k: PieceType| #[trigger]
        kind_bb(board, k).or(Bitboard::single(sq)) == kind_bb(board, k).xor(
            Bitboard::single(sq),
        ) by {
        let a = kind_bb(board, k);
        assert forall|s: Square|
            a.or(Bitboard::single(sq)).contains(s) == a.xor(Bitboard::single(sq)).contains(s) by {
            lemma_board_bb(board, s);
            lemma_algebra(a, Bitboard::single(sq), s);
            lemma_single(sq, s);
        }
        lemma_ext(a.or(Bitboard::single(sq)), a.xor(Bitboard::single(sq)));
    }
}

/// Taking a piece off its square takes the square out of the bitboards of its kind
/// and of its side, and leaves the others alone.
pub proof fn lemma_lift(board: Seq<Option<Piece>>, sq: Square)
    requires
        board.len() == 64,
        board[sq.index()] is Some,
    ensures
        forall|c: Color| #[trigger]
            color_bb(board.update(sq.index(), None), c) == if c
                == board[sq.index()]->0.color_spec() {
                color_bb(board, c).xor(Bitboard::single(sq))
            } else {
                color_bb(board, c)
            },
        forall|k: PieceType| #[trigger]
            kind_bb(board.update(sq.index(), None), k) == if k
                == board[sq.index()]->0.kind_spec() {
                kind_bb(board, k).xor(Bitboard::single(sq))
            } else {
                kind_bb(board, k)
            },
{
    let after = board.update(sq.index(), None);
    let p = board[sq.index()]->0;
    crate::square::lemma_square_index(sq);
    assert forall|c: Color| #[trigger]
        color_bb(after, c) == if c == p.color_spec() {
            color_bb(board, c).xor(Bitboard::single(sq))
        } else {
            color_bb(board, c)
        } by {
        let target = if c == p.color_spec() {
            color_bb(board, c).xor(Bitboard::single(sq))
        } else {
            color_bb(board, c)
        };
        assert forall|s: Square| color_bb(after, c).contains(s) == target.contains(s) by {
            lemma_board_bb(after, s);
            lemma_board_bb(board, s);
            lemma_algebra(color_bb(board, c), Bitboard::single(sq), s);
            lemma_single(sq, s);
            crate::square::lemma_square_index(s);
            if s.index() == sq.index() {
                crate::square::lemma_square_eq(s, sq);
            }
        }
        lemma_ext(color_bb(after, c), target);
    }
    assert forall|k: PieceType| #[trigger]
        kind_bb(after, k) == if k == p.kind_spec() {
            kind_bb(board, k).xor(Bitboard::single(sq))
        } else {
            kind_bb(board, k)
        } by {
        let target = if k == p.kind_spec() {
            kind_bb(board, k).xor(Bitboard::single(sq))
        } else {
            kind_bb(board, k)
        };
        assert forall|s: Square| kind_bb(after, k).contains(s) == target.contains(s) by {
            lemma_board_bb(after, s);
            lemma_board_bb(board, s);
            lemma_algebra(kind_bb(board, k), Bitboard::single(sq), s);
            lemma_single(sq, s);
            crate::square::lemma_square_index(s);
            if s.index() == sq.index() {
                crate::square::lemma_square_eq(s, sq);
            }
        }
        lemma_ext(kind_bb(after, k), target);
    }
}

} // verus!
