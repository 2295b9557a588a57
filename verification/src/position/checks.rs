use vstd::prelude::*;

use crate::bitboard::{lemma_algebra, lemma_empty, lemma_ext, lemma_from_set, Bitboard};
use crate::bits::{count_ones_below, get_bit};
use crate::board::{
    attackers, color_bb, has_color, has_kind, kind_bb, king_sq, lemma_board_bb, occupied, own_bb,
    sliders_to_spec,
};
use crate::color::Color;
use crate::movegen::{lemma_move_parts, Move, MoveKind};
use crate::piece::{lemma_piece_of, lemma_piece_parts, Piece, PieceType};
use crate::position::PositionView;
use crate::precompute::{
    bishop_reaches, bishop_spec, king_spec, knight_spec, knight_step, lemma_ray_order,
    lemma_ray_unique, pawn_spec, pawn_step, reaches, rook_reaches, rook_spec,
};
use crate::square::{
    king_distance, lemma_square_at, lemma_square_at_xy, lemma_square_eq, lemma_square_index,
    on_ray, Direction, Square,
};

verus! {

/// Whether the slider on `c` attacks `k` along a line that passes over `v`.
pub open spec fn seen_through(k: Square, occ: Bitboard, v: Square, c: Square) -> bool {
    exists|d: Direction| on_ray(k, d, v) && on_ray(v, d, c) && #[trigger] reaches(k, occ, d, c)
}

/// Whether the piece on `c` attacks `k`, by the kind of piece it is.
pub open spec fn attacks_by_kind(
    board: Seq<Option<Piece>>,
    k: Square,
    by: Color,
    occ: Bitboard,
    c: Square,
) -> bool {
    has_color(board, c, by) && ((pawn_step(k, by.opposite(), c) && has_kind(
        board,
        c,
        PieceType::Pawn,
    )) || (knight_spec(k).contains(c) && has_kind(board, c, PieceType::Knight)) || (bishop_reaches(
        k,
        occ,
        c,
    ) && (has_kind(board, c, PieceType::Bishop) || has_kind(board, c, PieceType::Queen))) || (
    rook_reaches(k, occ, c) && (has_kind(board, c, PieceType::Rook) || has_kind(
        board,
        c,
        PieceType::Queen,
    ))) || (king_distance(k, c) == 1 && has_kind(board, c, PieceType::King)))
}

/// The attackers of a square are the pieces that attack it by their kind.
pub proof fn lemma_attackers_contains(
    board: Seq<Option<Piece>>,
    k: Square,
    by: Color,
    occ: Bitboard,
    c: Square,
)
    ensures
        attackers(board, k, by, occ).contains(c) == attacks_by_kind(board, k, by, occ, c),
{
    let pawns = pawn_spec(k, by.opposite()).and(kind_bb(board, PieceType::Pawn));
    let knights = knight_spec(k).and(kind_bb(board, PieceType::Knight));
    let sliders = sliders_to_spec(board, k, occ);
    let kings = king_spec(k).and(kind_bb(board, PieceType::King));
    let bq = kind_bb(board, PieceType::Bishop).or(kind_bb(board, PieceType::Queen));
    let rq = kind_bb(board, PieceType::Rook).or(kind_bb(board, PieceType::Queen));
    lemma_board_bb(board, c);
    lemma_algebra(pawns.or(knights).or(sliders).or(kings), color_bb(board, by), c);
    lemma_algebra(pawns.or(knights).or(sliders), kings, c);
    lemma_algebra(pawns.or(knights), sliders, c);
    lemma_algebra(pawns, knights, c);
    lemma_algebra(pawn_spec(k, by.opposite()), kind_bb(board, PieceType::Pawn), c);
    lemma_algebra(knight_spec(k), kind_bb(board, PieceType::Knight), c);
    lemma_algebra(king_spec(k), kind_bb(board, PieceType::King), c);
    lemma_algebra(bishop_spec(k, occ).and(bq), rook_spec(k, occ).and(rq), c);
    lemma_algebra(bishop_spec(k, occ), bq, c);
    lemma_algebra(rook_spec(k, occ), rq, c);
    lemma_algebra(kind_bb(board, PieceType::Bishop), kind_bb(board, PieceType::Queen), c);
    lemma_algebra(kind_bb(board, PieceType::Rook), kind_bb(board, PieceType::Queen), c);
    lemma_from_set(Set::new(|t: Square| pawn_step(k, by.opposite(), t)), c);
    lemma_from_set(Set::new(|t: Square| king_distance(k, t) == 1), c);
    lemma_from_set(Set::new(|t: Square| bishop_reaches(k, occ, t)), c);
    lemma_from_set(Set::new(|t: Square| rook_reaches(k, occ, t)), c);
}

/// A set whose squares are all one of two given squares holds at most two squares.
pub proof fn lemma_count_two(b: Bitboard, x: Square, y: Square)
    requires
        forall|s: Square| b.contains(s) ==> s == x || s == y,
    ensures
        b.count() <= 2,
{
    lemma_count_below(b, x, y, 64);
}

/// Among the squares with numbers below `n`, a set whose squares are all one of two
/// given squares holds no more squares than those of the two with numbers below `n`.
proof fn lemma_count_below(b: Bitboard, x: Square, y: Square, n: nat)
    requires
        n <= 64,
        forall|s: Square| b.contains(s) ==> s == x || s == y,
    ensures
        count_ones_below(b.0, n) <= (if x.index() < n {
            1nat
        } else {
            0nat
        }) + (if y.index() < n {
            1nat
        } else {
            0nat
        }),
    decreases n,
{
    if n > 0 {
        lemma_count_below(b, x, y, (n - 1) as nat);
        lemma_square_index(x);
        lemma_square_index(y);
        if get_bit(b.0, (n - 1) as u64) {
            let s = Square::at(n - 1);
            lemma_square_at(n - 1);
            assert(b.contains(s));
        }
    }
}

/// Of the occupied squares that a slide from `k` over `v` reaches, there is only one.
pub proof fn lemma_seen_through_unique(k: Square, occ: Bitboard, v: Square, a: Square, b: Square)
    requires
        seen_through(k, occ, v, a),
        seen_through(k, occ, v, b),
        occ.contains(a),
        occ.contains(b),
    ensures
        a == b,
{
    let d = choose|d: Direction| on_ray(k, d, v) && on_ray(v, d, a) && #[trigger] reaches(k, occ, d, a);
    let e = choose|e: Direction| on_ray(k, e, v) && on_ray(v, e, b) && #[trigger] reaches(k, occ, e, b);
    lemma_ray_unique(k, d, e, v);
    if a != b {
        lemma_ray_order(k, d, a, b);
        if on_ray(a, d, b) {
            assert(!occ.contains(a));
        } else {
            assert(!occ.contains(b));
        }
    }
}

impl PositionView {
    /// The king of the side that is not to move.
    pub open spec fn other_king(self) -> Square {
        king_sq(self.board, self.to_move.opposite())
    }

    /// Whether the side that is not to move is out of check, as it is after any legal
    /// move of its own.
    pub open spec fn waiting_side_safe(self) -> bool {
        attackers(self.board, self.other_king(), self.to_move, occupied(self.board)).is_empty()
    }
}

/// A move leaves the kings of the other side where they are.
proof fn lemma_other_king_stays(p: PositionView, m: Move, q: PositionView)
    requires
        p.valid(),
        p.playable(m),
        p.made(m, q),
    ensures
        king_sq(q.board, q.to_move) == p.other_king(),
{
    let us = p.to_move;
    let them = us.opposite();
    let from = m.from_spec();
    let to = m.to_spec();
    let cs = p.capture_square(m);
    let cf = p.castle_flag(to);
    lemma_move_parts(m);
    lemma_square_index(from);
    lemma_square_index(to);
    lemma_square_index(cs);
    lemma_square_index(cf.rook_from());
    lemma_square_index(cf.rook_to());
    lemma_piece_parts(PieceType::Pawn, them);
    lemma_piece_parts(PieceType::Rook, us);
    if m.kind_spec() == MoveKind::EnPassant {
        lemma_square_at_xy(to.file_index(), from.rank_index());
    }
    match m.kind_spec() {
        MoveKind::Promotion(t) => {
            lemma_piece_parts(t, us);
        },
        _ => {},
    }
    let a = own_bb(p.board, PieceType::King, them);
    let b = own_bb(q.board, PieceType::King, them);
    assert(q.board[to.index()] == Some(p.placed(m)));
    assert(p.placed(m).color_spec() == us);
    assert forall|s: Square| a.contains(s) == b.contains(s) by {
        lemma_square_index(s);
        lemma_algebra(kind_bb(p.board, PieceType::King), color_bb(p.board, them), s);
        lemma_algebra(kind_bb(q.board, PieceType::King), color_bb(q.board, them), s);
        lemma_board_bb(p.board, s);
        lemma_board_bb(q.board, s);
        if s.index() == from.index() {
            lemma_square_eq(s, from);
        }
        if s.index() == to.index() {
            lemma_square_eq(s, to);
        }
        if s.index() == cs.index() {
            lemma_square_eq(s, cs);
        }
        if s.index() == cf.rook_from().index() {
            lemma_square_eq(s, cf.rook_from());
        }
        if s.index() == cf.rook_to().index() {
            lemma_square_eq(s, cf.rook_to());
        }
        if s != from && s != to && s != cs && !(m.kind_spec() == MoveKind::Castle && (s
            == cf.rook_from() || s == cf.rook_to())) {
            assert(q.board[s.index()] == p.board[s.index()]);
        }
    }
    lemma_ext(a, b);
}

/// The squares that a move empties: the square it leaves, the square of the pawn it
/// takes en passant, and in castling the rook's home.
pub proof fn lemma_gone(p: PositionView, m: Move, q: PositionView, v: Square)
    requires
        p.valid(),
        p.playable(m),
        p.made(m, q),
        occupied(p.board).contains(v),
        !occupied(q.board).contains(v),
    ensures
        v == m.from_spec() || (m.kind_spec() == MoveKind::EnPassant && v == p.capture_square(m))
            || (m.kind_spec() == MoveKind::Castle && v == p.castle_flag(m.to_spec()).rook_from()),
{
    lemma_board_bb(p.board, v);
    lemma_board_bb(q.board, v);
    lemma_vacated(p, m, q, v);
}

/// The squares that a move empties, told by what stands on them.
proof fn lemma_vacated(p: PositionView, m: Move, q: PositionView, v: Square)
    requires
        p.valid(),
        p.playable(m),
        p.made(m, q),
        p.at(v) is Some,
        q.at(v) is None,
    ensures
        v == m.from_spec() || (m.kind_spec() == MoveKind::EnPassant && v == p.capture_square(m))
            || (m.kind_spec() == MoveKind::Castle && v == p.castle_flag(m.to_spec()).rook_from()),
{
    let from = m.from_spec();
    let to = m.to_spec();
    let cs = p.capture_square(m);
    let cf = p.castle_flag(to);
    lemma_move_parts(m);
    lemma_square_index(v);
    lemma_square_index(from);
    lemma_square_index(to);
    lemma_square_index(cs);
    lemma_square_index(cf.rook_from());
    lemma_square_index(cf.rook_to());
    if v.index() == from.index() {
        lemma_square_eq(v, from);
    }
    if v.index() == cs.index() {
        lemma_square_eq(v, cs);
    }
    if v.index() == cf.rook_from().index() {
        lemma_square_eq(v, cf.rook_from());
    }
}

/// A piece that gives check after a move either has moved, or is a slider whose line
/// to the king the move has opened.
#[verifier::rlimit(50)]
proof fn lemma_new_checker(p: PositionView, m: Move, q: PositionView, c: Square)
    requires
        p.valid(),
        p.playable(m),
        p.made(m, q),
        p.waiting_side_safe(),
        q.top().checkers.contains(c),
    ensures
        c == m.to_spec() || (m.kind_spec() == MoveKind::Castle && c == p.castle_flag(
            m.to_spec(),
        ).rook_to()) || exists|v: Square|
            p.at(v) is Some && q.at(v) is None && #[trigger] seen_through(
                p.other_king(),
                occupied(q.board),
                v,
                c,
            ),
        q.at(c) is Some,
{
    let us = p.to_move;
    let k = p.other_king();
    let from = m.from_spec();
    let to = m.to_spec();
    let cs = p.capture_square(m);
    let cf = p.castle_flag(to);
    let op = occupied(p.board);
    let oq = occupied(q.board);
    lemma_other_king_stays(p, m, q);
    lemma_attackers_contains(q.board, k, us, oq, c);
    lemma_attackers_contains(p.board, k, us, op, c);
    lemma_empty(attackers(p.board, k, us, op));
    lemma_move_parts(m);
    lemma_square_index(c);
    lemma_square_index(from);
    lemma_square_index(to);
    lemma_square_index(cs);
    lemma_square_index(cf.rook_from());
    lemma_square_index(cf.rook_to());
    if c.index() == to.index() {
        lemma_square_eq(c, to);
    }
    if c.index() == cf.rook_to().index() {
        lemma_square_eq(c, cf.rook_to());
    }
    if !(c == to || (m.kind_spec() == MoveKind::Castle && c == cf.rook_to())) {
        assert(q.board[c.index()] == p.board[c.index()]);
        assert(!attacks_by_kind(p.board, k, us, op, c));
        assert(attacks_by_kind(q.board, k, us, oq, c));
        if bishop_reaches(k, oq, c) && !bishop_reaches(k, op, c) {
            let d = choose|d: Direction| d.is_diagonal() && #[trigger] reaches(k, oq, d, c);
            lemma_opened(p, q, k, d, c);
        } else {
            assert(rook_reaches(k, oq, c) && !rook_reaches(k, op, c));
            let d = choose|d: Direction| d.is_orthogonal() && #[trigger] reaches(k, oq, d, c);
            lemma_opened(p, q, k, d, c);
        }
    }
}

/// Where a slide reaches a square on one board and not on another, a square on the
/// way is occupied on the other board only.
proof fn lemma_opened(p: PositionView, q: PositionView, k: Square, d: Direction, c: Square)
    requires
        reaches(k, occupied(q.board), d, c),
        !reaches(k, occupied(p.board), d, c),
    ensures
        exists|v: Square|
            p.at(v) is Some && q.at(v) is None && #[trigger] seen_through(
                k,
                occupied(q.board),
                v,
                c,
            ),
{
    let op = occupied(p.board);
    let oq = occupied(q.board);
    let v = choose|v: Square| on_ray(k, d, v) && on_ray(v, d, c) && op.contains(v);
    assert(!oq.contains(v));
    lemma_board_bb(p.board, v);
    lemma_board_bb(q.board, v);
    assert(on_ray(k, d, v) && on_ray(v, d, c) && reaches(k, oq, d, c));
    assert(seen_through(k, oq, v, c));
}

/// Where the king and the rook stand before and after castling.
proof fn lemma_castle_squares(p: PositionView, m: Move)
    requires
        p.valid(),
        p.playable(m),
        m.kind_spec() == MoveKind::Castle,
    ensures
        ({
            let from = m.from_spec();
            let to = m.to_spec();
            let cf = p.castle_flag(to);
            let home = cf.rook_from();
            let landing = cf.rook_to();
            &&& from.file_index() == 4
            &&& from.rank_index() == home.rank_index()
            &&& to.rank_index() == home.rank_index()
            &&& landing.rank_index() == home.rank_index()
            &&& (home.rank_index() == 0 || home.rank_index() == 7)
            &&& ((home.file_index() == 7 && to.file_index() == 6 && landing.file_index() == 5) || (
            home.file_index() == 0 && to.file_index() == 2 && landing.file_index() == 3))
            &&& from == p.king()
            &&& p.at(home) == Some(Piece::of(PieceType::Rook, p.to_move))
            &&& p.at(landing) is None
            &&& p.at(to) is None
        }),
{
    let us = p.to_move;
    let from = m.from_spec();
    reveal(Square::index);
    lemma_piece_of(p.at(from)->0);
    lemma_piece_parts(PieceType::King, us);
    assert(crate::position::play::holds_king(p.board, from, us));
}

/// A king that has made a legal move does not stand next to the other king.
proof fn lemma_king_no_checker(p: PositionView, m: Move, q: PositionView)
    requires
        p.valid(),
        p.playable(m),
        p.legal(m),
        p.made(m, q),
        m.from_spec() == p.king(),
    ensures
        king_distance(p.other_king(), m.to_spec()) != 1,
{
    let us = p.to_move;
    let them = us.opposite();
    let k = p.other_king();
    let from = m.from_spec();
    let to = m.to_spec();
    let op = occupied(p.board);
    let vacated = op.xor(Bitboard::single(from));
    lemma_square_index(k);
    lemma_square_index(to);
    lemma_piece_parts(PieceType::King, them);
    crate::position::play::lemma_king_sq(p.board, them);
    assert(interval_or_to(from, to).contains(to)) by {
        lemma_algebra(crate::precompute::interval_spec(from, to), Bitboard::single(to), to);
        crate::bitboard::lemma_single(to, to);
    }
    assert(p.safe_without(to, from));
    lemma_attackers_contains(p.board, to, them, vacated, k);
    lemma_empty(attackers(p.board, to, them, vacated));
}

/// No slider is seen from a king over a corner of the board.
proof fn lemma_nothing_behind_corner(k: Square, occ: Bitboard, v: Square, c: Square)
    requires
        v.file_index() == 0 || v.file_index() == 7,
        v.rank_index() == 0 || v.rank_index() == 7,
    ensures
        !seen_through(k, occ, v, c),
{
    lemma_square_index(k);
    lemma_square_index(v);
    lemma_square_index(c);
    assert forall|d: Direction| !(on_ray(k, d, v) && on_ray(v, d, c)) by {}
}

/// After castling, a slider seen from the other king over our king's home is the rook
/// that has moved.
#[verifier::rlimit(50)]
proof fn lemma_behind_king_home(p: PositionView, m: Move, q: PositionView, c: Square)
    requires
        p.valid(),
        p.playable(m),
        p.made(m, q),
        p.waiting_side_safe(),
        m.kind_spec() == MoveKind::Castle,
        seen_through(p.other_king(), occupied(q.board), m.from_spec(), c),
    ensures
        c == p.castle_flag(m.to_spec()).rook_to(),
{
    let us = p.to_move;
    let them = us.opposite();
    let k = p.other_king();
    let from = m.from_spec();
    let to = m.to_spec();
    let cf = p.castle_flag(to);
    let home = cf.rook_from();
    let landing = cf.rook_to();
    let op = occupied(p.board);
    let oq = occupied(q.board);
    lemma_castle_squares(p, m);
    lemma_square_index(c);
    lemma_square_index(k);
    lemma_square_index(from);
    lemma_square_index(to);
    lemma_square_index(home);
    lemma_square_index(landing);
    lemma_piece_parts(PieceType::King, them);
    lemma_piece_parts(PieceType::Rook, us);
    crate::position::play::lemma_king_sq(p.board, them);
    let d = choose|d: Direction|
        on_ray(k, d, from) && on_ray(from, d, c) && #[trigger] reaches(k, oq, d, c);
    assert(d == Direction::East || d == Direction::West);
    assert(k.rank_index() == home.rank_index());
    assert(q.board[landing.index()] is Some) by {
        lemma_move_parts(m);
    }
    lemma_board_bb(q.board, landing);
    if (d == Direction::East) == (home.file_index() == 7) {
        if c.file_index() != landing.file_index() {
            assert(on_ray(k, d, landing) && on_ray(landing, d, c));
            assert(oq.contains(landing));
            assert(false);
        }
        lemma_square_eq(c, landing);
    } else {
        if k.file_index() == landing.file_index() {
            lemma_square_eq(k, landing);
        }
        if k.file_index() == to.file_index() {
            lemma_square_eq(k, to);
        }
        if k.file_index() == home.file_index() {
            lemma_square_eq(k, home);
        }
        assert(home.file_index() == 0 && k.file_index() == 1);
        assert(on_ray(k, Direction::West, home));
        assert(reaches(k, op, Direction::West, home));
        assert(rook_reaches(k, op, home));
        lemma_attackers_contains(p.board, k, us, op, home);
        lemma_board_bb(p.board, home);
        lemma_empty(attackers(p.board, k, us, op));
        assert(false);
    }
}

/// After castling, no piece but the rook that has moved gives check.
proof fn lemma_castle_checker(p: PositionView, m: Move, q: PositionView, c: Square)
    requires
        p.valid(),
        p.playable(m),
        p.legal(m),
        p.made(m, q),
        p.waiting_side_safe(),
        m.kind_spec() == MoveKind::Castle,
        q.top().checkers.contains(c),
    ensures
        c == p.castle_flag(m.to_spec()).rook_to(),
{
    let us = p.to_move;
    let k = p.other_king();
    let from = m.from_spec();
    let to = m.to_spec();
    let home = p.castle_flag(to).rook_from();
    let landing = p.castle_flag(to).rook_to();
    let oq = occupied(q.board);
    lemma_new_checker(p, m, q, c);
    lemma_castle_squares(p, m);
    if c == to {
        lemma_other_king_stays(p, m, q);
        lemma_king_no_checker(p, m, q);
        lemma_attackers_contains(q.board, k, us, oq, c);
        lemma_square_index(to);
        lemma_move_parts(m);
        lemma_piece_of(p.at(from)->0);
        assert(q.at(to) == Some(p.at(from)->0));
        assert(false);
    }
    if c != landing {
        let v = choose|v: Square|
            p.at(v) is Some && q.at(v) is None && #[trigger] seen_through(k, oq, v, c);
        lemma_vacated(p, m, q, v);
        if v == from {
            lemma_behind_king_home(p, m, q, c);
        } else {
            lemma_nothing_behind_corner(k, oq, home, c);
        }
    }
}

/// The squares that a king passes and reaches.
pub open spec fn interval_or_to(from: Square, to: Square) -> Bitboard {
    crate::precompute::interval_spec(from, to).or(Bitboard::single(to))
}

/// A pawn that gives check by capturing en passant stands so that no line leads from
/// the king over the square of the pawn it took.
proof fn lemma_ep_pawn_check(p: PositionView, m: Move, q: PositionView, c: Square)
    requires
        p.valid(),
        p.playable(m),
        p.made(m, q),
        p.waiting_side_safe(),
        m.kind_spec() == MoveKind::EnPassant,
        q.top().checkers.contains(m.to_spec()),
    ensures
        !seen_through(p.other_king(), occupied(q.board), p.capture_square(m), c),
{
    let us = p.to_move;
    let k = p.other_king();
    let from = m.from_spec();
    let to = m.to_spec();
    let cs = p.capture_square(m);
    let oq = occupied(q.board);
    lemma_other_king_stays(p, m, q);
    lemma_move_parts(m);
    lemma_square_index(k);
    lemma_square_index(from);
    lemma_square_index(to);
    lemma_square_at_xy(to.file_index(), from.rank_index());
    lemma_attackers_contains(q.board, k, us, oq, to);
    lemma_piece_of(p.at(from)->0);
    lemma_from_set(Set::new(|t: Square| knight_step(k, t)), to);
    assert(q.at(to) == Some(p.at(from)->0));
    assert(pawn_step(k, us.opposite(), to));
    assert forall|d: Direction| !on_ray(k, d, cs) by {}
}

/// After a legal move from a position in which the side that was not to move was out
/// of check, no more than two pieces give check.
pub proof fn lemma_at_most_double_check(p: PositionView, m: Move, q: PositionView)
    requires
        p.valid(),
        p.playable(m),
        p.legal(m),
        p.made(m, q),
        p.waiting_side_safe(),
    ensures
        q.top().checkers.count() <= 2,
{
    let set = q.top().checkers;
    let k = p.other_king();
    let oq = occupied(q.board);
    let from = m.from_spec();
    let to = m.to_spec();
    let cs = p.capture_square(m);
    let landing = p.castle_flag(to).rook_to();
    let hf = choose|c: Square| set.contains(c) && seen_through(k, oq, from, c);
    let hc = choose|c: Square| set.contains(c) && seen_through(k, oq, cs, c);
    if m.kind_spec() == MoveKind::Castle {
        assert forall|c: Square| set.contains(c) implies c == landing || c == landing by {
            lemma_castle_checker(p, m, q, c);
        }
        lemma_count_two(set, landing, landing);
    } else if m.kind_spec() == MoveKind::EnPassant && !set.contains(to) {
        assert forall|c: Square| set.contains(c) implies c == hf || c == hc by {
            lemma_new_checker(p, m, q, c);
            let v = choose|v: Square|
                p.at(v) is Some && q.at(v) is None && #[trigger] seen_through(k, oq, v, c);
            lemma_vacated(p, m, q, v);
            lemma_board_bb(q.board, c);
            if v == from {
                lemma_new_checker(p, m, q, hf);
                lemma_board_bb(q.board, hf);
                lemma_seen_through_unique(k, oq, from, c, hf);
            } else {
                lemma_new_checker(p, m, q, hc);
                lemma_board_bb(q.board, hc);
                lemma_seen_through_unique(k, oq, cs, c, hc);
            }
        }
        lemma_count_two(set, hf, hc);
    } else {
        assert forall|c: Square| set.contains(c) implies c == to || c == hf by {
            lemma_new_checker(p, m, q, c);
            if c != to {
                let v = choose|v: Square|
                    p.at(v) is Some && q.at(v) is None && #[trigger] seen_through(k, oq, v, c);
                lemma_vacated(p, m, q, v);
                lemma_board_bb(q.board, c);
                if v != from {
                    lemma_ep_pawn_check(p, m, q, c);
                }
                lemma_new_checker(p, m, q, hf);
                lemma_board_bb(q.board, hf);
                lemma_seen_through_unique(k, oq, from, c, hf);
            }
        }
        lemma_count_two(set, to, hf);
    }
}

} // verus!
