use vstd::prelude::*;

use crate::bitboard::{
    lemma_algebra, lemma_lowest, lemma_shifted, lemma_single, lemma_without, Bitboard,
};
use crate::movegen::generate::{back, back_map, capture_kind, fan, promo_fan, promo_run};
use crate::movegen::{lemma_move_kind, lemma_move_round_trip, Move, MoveKind};
use crate::piece::PieceType;
use crate::position::{CastleFlag, PositionView};
use crate::square::{
    abs_diff, lemma_square_at_xy, lemma_square_eq, lemma_square_index, on_board, Direction,
    Square,
};

verus! {

/// Whether no move of the sequence is of the kind `kind`.
pub open spec fn none_of_kind(s: Seq<Move>, kind: MoveKind) -> bool {
    forall|i: int| 0 <= i < s.len() ==> (#[trigger] s[i]).kind_spec() != kind
}

/// A move is in two sequences put together exactly when it is in one of them.
pub proof fn lemma_concat_contains(a: Seq<Move>, b: Seq<Move>, m: Move)
    ensures
        (a + b).contains(m) == (a.contains(m) || b.contains(m)),
        forall|k: MoveKind| none_of_kind(a, k) && none_of_kind(b, k) ==> #[trigger] none_of_kind(
            a + b,
            k,
        ),
{
    if a.contains(m) {
        let i = choose|i: int| 0 <= i < a.len() && a[i] == m;
        assert((a + b)[i] == m);
    }
    if b.contains(m) {
        let i = choose|i: int| 0 <= i < b.len() && b[i] == m;
        assert((a + b)[a.len() + i] == m);
    }
    if (a + b).contains(m) {
        let i = choose|i: int| 0 <= i < (a + b).len() && (a + b)[i] == m;
        if i < a.len() {
            assert(a[i] == m);
        } else {
            assert(b[i - a.len()] == m);
        }
    }
    assert forall|k: MoveKind| none_of_kind(a, k) && none_of_kind(b, k) implies #[trigger] none_of_kind(
        a + b,
        k,
    ) by {
        assert forall|i: int| 0 <= i < (a + b).len() implies (#[trigger] (a + b)[i]).kind_spec()
            != k by {
            if i < a.len() {
                assert((a + b)[i] == a[i]);
            } else {
                assert((a + b)[i] == b[i - a.len()]);
            }
        }
    }
}

/// A move with a kind that no move of a sequence has is not in the sequence.
pub proof fn lemma_kind_absent(s: Seq<Move>, m: Move)
    requires
        none_of_kind(s, m.kind_spec()),
    ensures
        !s.contains(m),
{
    if s.contains(m) {
        let i = choose|i: int| 0 <= i < s.len() && s[i] == m;
        assert(s[i].kind_spec() != m.kind_spec());
    }
}

/// The squares of a set in order are the squares of the set.
pub proof fn lemma_to_seq_contains(b: Bitboard, s: Square)
    ensures
        b.to_seq().contains(s) == b.contains(s),
    decreases b.0,
{
    if b.0 == 0 {
        crate::bitboard::lemma_empty(b);
    } else {
        lemma_lowest(b);
        let low = b.lowest();
        let rest = b.without(low);
        lemma_to_seq_contains(rest, s);
        lemma_without(b, low, s);
        let head = seq![low];
        assert(b.to_seq() == head + rest.to_seq());
        if s == low {
            assert((head + rest.to_seq())[0] == s);
        }
        if rest.to_seq().contains(s) {
            let i = choose|i: int| 0 <= i < rest.to_seq().len() && rest.to_seq()[i] == s;
            assert((head + rest.to_seq())[i + 1] == s);
        }
        if b.to_seq().contains(s) {
            let i = choose|i: int| 0 <= i < b.to_seq().len() && b.to_seq()[i] == s;
            if i > 0 {
                assert(rest.to_seq()[i - 1] == s);
            }
        }
    }
}

/// The moves of a piece to its targets are ordinary moves.
pub proof fn lemma_fan_kinds(from: Square, targets: Seq<Square>)
    ensures
        none_of_kind(fan(from, targets), MoveKind::Castle),
        none_of_kind(fan(from, targets), MoveKind::EnPassant),
{
    assert forall|i: int| 0 <= i < targets.len() implies (#[trigger] fan(
        from,
        targets,
    )[i]).kind_spec() == MoveKind::Normal by {
        lemma_move_kind(from, targets[i], MoveKind::Normal);
    }
}

/// Promotions are promotions.
pub proof fn lemma_promo_run_kinds(from: Square, dests: Seq<Square>)
    ensures
        none_of_kind(promo_run(from, dests), MoveKind::Castle),
        none_of_kind(promo_run(from, dests), MoveKind::EnPassant),
    decreases dests.len(),
{
    if dests.len() > 0 {
        lemma_promo_run_kinds(from, dests.drop_last());
        lemma_promo_fan_kinds(from, dests.last());
        lemma_concat_contains(
            promo_run(from, dests.drop_last()),
            promo_fan(from, dests.last()),
            Move::of(from, from, MoveKind::Normal),
        );
    }
}

/// The four promotions of a pawn are promotions.
pub proof fn lemma_promo_fan_kinds(from: Square, to: Square)
    ensures
        none_of_kind(promo_fan(from, to), MoveKind::Castle),
        none_of_kind(promo_fan(from, to), MoveKind::EnPassant),
{
    lemma_move_kind(from, to, MoveKind::Promotion(PieceType::Knight));
    lemma_move_kind(from, to, MoveKind::Promotion(PieceType::Bishop));
    lemma_move_kind(from, to, MoveKind::Promotion(PieceType::Rook));
    lemma_move_kind(from, to, MoveKind::Promotion(PieceType::Queen));
}

/// The pawn moves that reach given squares do not castle, and capture en passant only
/// on the en-passant square.
pub proof fn lemma_back_map_kinds(targets: Seq<Square>, dx: int, dy: int, ep: Option<Square>)
    ensures
        none_of_kind(back_map(targets, dx, dy, ep), MoveKind::Castle),
        ep is None ==> none_of_kind(back_map(targets, dx, dy, ep), MoveKind::EnPassant),
{
    assert forall|i: int| 0 <= i < targets.len() implies (#[trigger] back_map(
        targets,
        dx,
        dy,
        ep,
    )[i]).kind_spec() == capture_kind(ep, targets[i]) by {
        lemma_move_kind(back(targets[i], dx, dy), targets[i], capture_kind(ep, targets[i]));
    }
}

impl PositionView {
    /// The moves of the pieces of one kind are ordinary moves.
    pub proof fn lemma_sweep_kinds(self, kind: PieceType, sources: Seq<Square>)
        ensures
            none_of_kind(self.sweep(kind, sources), MoveKind::Castle),
            none_of_kind(self.sweep(kind, sources), MoveKind::EnPassant),
        decreases sources.len(),
    {
        if sources.len() > 0 {
            self.lemma_sweep_kinds(kind, sources.drop_last());
            let part = fan(sources.last(), self.targets_of(kind, sources.last()).to_seq());
            lemma_fan_kinds(sources.last(), self.targets_of(kind, sources.last()).to_seq());
            lemma_concat_contains(
                self.sweep(kind, sources.drop_last()),
                part,
                Move::of(sources.last(), sources.last(), MoveKind::Normal),
            );
        }
    }

    /// The promotions of pawns are promotions.
    pub proof fn lemma_promo_sweep_kinds(self, sources: Seq<Square>)
        ensures
            none_of_kind(self.promo_sweep(sources), MoveKind::Castle),
            none_of_kind(self.promo_sweep(sources), MoveKind::EnPassant),
        decreases sources.len(),
    {
        if sources.len() > 0 {
            self.lemma_promo_sweep_kinds(sources.drop_last());
            let p = sources.last();
            let up = Square::at_xy(p.file_index(), p.rank_index() + self.to_move.dy());
            let side = Bitboard::of_option(up.neighbor(Direction::East)).or(
                Bitboard::of_option(up.neighbor(Direction::West)),
            ).and(self.enemies());
            let straight = if self.at(up) is None {
                promo_fan(p, up)
            } else {
                Seq::empty()
            };
            lemma_promo_fan_kinds(p, up);
            lemma_promo_run_kinds(p, side.to_seq());
            let any = Move::of(p, p, MoveKind::Normal);
            lemma_concat_contains(straight, promo_run(p, side.to_seq()), any);
            lemma_concat_contains(
                self.promo_sweep(sources.drop_last()),
                self.promo_moves_of(p),
                any,
            );
        }
    }

    /// Whether the squares `t` holds a piece, or is the en-passant square, that a pawn
    /// of the side to move on the square `dx` files aside and one rank behind may
    /// capture: the pawn is there and does not stand one step before promotion.
    pub open spec fn capture_from(self, dx: int, t: Square) -> bool {
        let dy = self.to_move.dy();
        self.enemies().contains(t) && on_board(t.file_index() - dx, t.rank_index() - dy)
            && self.plain_pawns().contains(back(t, dx, dy))
    }

    /// The squares that pawns capture on towards one side are those with a pawn
    /// diagonally behind them and something to capture on them.
    pub proof fn lemma_up_side(self, d: Direction, t: Square)
        requires
            d == Direction::East || d == Direction::West,
        ensures
            self.up_side(d).contains(t) == self.capture_from(d.dx(), t),
    {
        let us = self.to_move;
        let fwd = us.forward_spec();
        let dy = us.dy();
        let dx = d.dx();
        let plain = self.plain_pawns();
        lemma_square_index(t);
        lemma_algebra(plain.shifted(fwd).shifted(d), self.enemies(), t);
        lemma_shifted(plain.shifted(fwd), d, t);
        if on_board(t.file_index() - dx, t.rank_index()) {
            lemma_square_at_xy(t.file_index() - dx, t.rank_index());
            let side = Square::at_xy(t.file_index() - dx, t.rank_index());
            lemma_shifted(plain, fwd, side);
            if on_board(t.file_index() - dx, t.rank_index() - dy) {
                lemma_square_at_xy(t.file_index() - dx, t.rank_index() - dy);
            }
        }
    }

    /// A move is among those of the king exactly when it is a step of the king or one
    /// of the two castling moves; a castling move is there exactly when its right is
    /// left and the squares between king and rook are empty.
    pub proof fn lemma_castle_in_king_moves(self, cf: CastleFlag)
        requires
            cf == CastleFlag::short_of(self.to_move) || cf == CastleFlag::long_of(self.to_move),
        ensures
            self.king_moves().contains(Move::of(cf.king_from(), cf.king_to(), MoveKind::Castle))
                == (self.top().has_right(cf) && self.castle_path_clear(cf)),
    {
        let us = self.to_move;
        let short = CastleFlag::short_of(us);
        let long = CastleFlag::long_of(us);
        let m = Move::of(cf.king_from(), cf.king_to(), MoveKind::Castle);
        let steps = fan(self.king(), self.targets_of(PieceType::King, self.king()).to_seq());
        lemma_move_kind(cf.king_from(), cf.king_to(), MoveKind::Castle);
        lemma_fan_kinds(self.king(), self.targets_of(PieceType::King, self.king()).to_seq());
        lemma_kind_absent(steps, m);
        lemma_concat_contains(steps, self.castle_move(short), m);
        lemma_concat_contains(steps + self.castle_move(short), self.castle_move(long), m);
        lemma_move_round_trip(short.king_from(), short.king_to(), MoveKind::Castle);
        lemma_move_round_trip(long.king_from(), long.king_to(), MoveKind::Castle);
        let ms = Move::of(short.king_from(), short.king_to(), MoveKind::Castle);
        let ml = Move::of(long.king_from(), long.king_to(), MoveKind::Castle);
        assert(ms != ml);
        assert(self.castle_move(short).contains(m) == (cf == short && self.top().has_right(short)
            && self.castle_path_clear(short))) by {
            if self.top().has_right(short) && self.castle_path_clear(short) {
                assert(self.castle_move(short)[0] == ms);
                if self.castle_move(short).contains(m) {
                    let i = choose|i: int|
                        0 <= i < self.castle_move(short).len() && self.castle_move(short)[i] == m;
                    assert(m == ms);
                }
            }
        }
        assert(self.castle_move(long).contains(m) == (cf == long && self.top().has_right(long)
            && self.castle_path_clear(long))) by {
            if self.top().has_right(long) && self.castle_path_clear(long) {
                assert(self.castle_move(long)[0] == ml);
                if self.castle_move(long).contains(m) {
                    let i = choose|i: int|
                        0 <= i < self.castle_move(long).len() && self.castle_move(long)[i] == m;
                    assert(m == ml);
                }
            }
        }
    }

    /// Castling is among the moves that the pieces can make exactly when its right is
    /// left and the squares between king and rook are empty.
    pub proof fn lemma_castle_generated(self, cf: CastleFlag)
        requires
            cf == CastleFlag::short_of(self.to_move) || cf == CastleFlag::long_of(self.to_move),
        ensures
            self.pseudo_moves().contains(Move::of(cf.king_from(), cf.king_to(), MoveKind::Castle))
                == (self.top().has_right(cf) && self.castle_path_clear(cf)),
    {
        let m = Move::of(cf.king_from(), cf.king_to(), MoveKind::Castle);
        lemma_move_kind(cf.king_from(), cf.king_to(), MoveKind::Castle);
        self.lemma_castle_in_king_moves(cf);
        self.lemma_other_parts(m);
        let dy = self.to_move.dy();
        let east = self.up_side(Direction::East).to_seq();
        let west = self.up_side(Direction::West).to_seq();
        lemma_back_map_kinds(east, 1, dy, self.ep());
        lemma_back_map_kinds(west, -1, dy, self.ep());
        lemma_kind_absent(back_map(east, 1, dy, self.ep()), m);
        lemma_kind_absent(back_map(west, -1, dy, self.ep()), m);
    }

    /// A move that castles or captures en passant is among the moves that the pieces
    /// can make exactly when it is among those of the king or among the captures of
    /// the pawns.
    pub proof fn lemma_other_parts(self, m: Move)
        requires
            m.kind_spec() == MoveKind::Castle || m.kind_spec() == MoveKind::EnPassant,
        ensures
            self.pseudo_moves().contains(m) == (self.king_moves().contains(m) || back_map(
                self.up_side(Direction::East).to_seq(),
                1,
                self.to_move.dy(),
                self.ep(),
            ).contains(m) || back_map(
                self.up_side(Direction::West).to_seq(),
                -1,
                self.to_move.dy(),
                self.ep(),
            ).contains(m)),
    {
        let dy = self.to_move.dy();
        let promos = self.promo_sweep(self.promoters().to_seq());
        let ones = back_map(self.one_ups().to_seq(), 0, dy, None);
        let twos = back_map(self.two_ups().to_seq(), 0, 2 * dy, None);
        let east = back_map(self.up_side(Direction::East).to_seq(), 1, dy, self.ep());
        let west = back_map(self.up_side(Direction::West).to_seq(), -1, dy, self.ep());
        let knights = self.piece_moves(PieceType::Knight);
        let bishops = self.piece_moves(PieceType::Bishop);
        let rooks = self.piece_moves(PieceType::Rook);
        let queens = self.piece_moves(PieceType::Queen);
        self.lemma_promo_sweep_kinds(self.promoters().to_seq());
        lemma_back_map_kinds(self.one_ups().to_seq(), 0, dy, None);
        lemma_back_map_kinds(self.two_ups().to_seq(), 0, 2 * dy, None);
        self.lemma_sweep_kinds(
            PieceType::Knight,
            crate::board::own_bb(self.board, PieceType::Knight, self.to_move).to_seq(),
        );
        self.lemma_sweep_kinds(
            PieceType::Bishop,
            crate::board::own_bb(self.board, PieceType::Bishop, self.to_move).to_seq(),
        );
        self.lemma_sweep_kinds(
            PieceType::Rook,
            crate::board::own_bb(self.board, PieceType::Rook, self.to_move).to_seq(),
        );
        self.lemma_sweep_kinds(
            PieceType::Queen,
            crate::board::own_bb(self.board, PieceType::Queen, self.to_move).to_seq(),
        );
        lemma_kind_absent(promos, m);
        lemma_kind_absent(ones, m);
        lemma_kind_absent(twos, m);
        lemma_kind_absent(knights, m);
        lemma_kind_absent(bishops, m);
        lemma_kind_absent(rooks, m);
        lemma_kind_absent(queens, m);
        lemma_concat_contains(promos, ones, m);
        lemma_concat_contains(promos + ones, twos, m);
        lemma_concat_contains(promos + ones + twos, east, m);
        lemma_concat_contains(promos + ones + twos + east, west, m);
        let pawns = self.pawn_moves();
        assert(pawns == promos + ones + twos + east + west);
        lemma_concat_contains(pawns, knights, m);
        lemma_concat_contains(pawns + knights, bishops, m);
        lemma_concat_contains(pawns + knights + bishops, rooks, m);
        lemma_concat_contains(pawns + knights + bishops + rooks, queens, m);
        lemma_concat_contains(pawns + knights + bishops + rooks + queens, self.king_moves(), m);
    }

    /// A capture en passant from `from` to `to` is among the moves that the pieces can
    /// make exactly when `to` is the en-passant square and a pawn of the side to move
    /// that is not one step before promotion stands on `from`, one rank behind `to`
    /// and one file aside.
    pub proof fn lemma_ep_generated(self, from: Square, to: Square)
        requires
            from != to,
        ensures
            self.pseudo_moves().contains(Move::of(from, to, MoveKind::EnPassant)) == (self.ep()
                == Some(to) && self.plain_pawns().contains(from) && to.rank_index()
                == from.rank_index() + self.to_move.dy() && abs_diff(
                from.file_index(),
                to.file_index(),
            ) == 1),
    {
        let m = Move::of(from, to, MoveKind::EnPassant);
        let dy = self.to_move.dy();
        let ep = self.ep();
        lemma_move_round_trip(from, to, MoveKind::EnPassant);
        self.lemma_other_parts(m);
        // The king's moves are steps and castling.
        let steps = fan(self.king(), self.targets_of(PieceType::King, self.king()).to_seq());
        let short = self.castle_move(CastleFlag::short_of(self.to_move));
        let long = self.castle_move(CastleFlag::long_of(self.to_move));
        lemma_fan_kinds(self.king(), self.targets_of(PieceType::King, self.king()).to_seq());
        lemma_kind_absent(steps, m);
        assert(none_of_kind(short, MoveKind::EnPassant)) by {
            let cf = CastleFlag::short_of(self.to_move);
            lemma_move_kind(cf.king_from(), cf.king_to(), MoveKind::Castle);
        }
        assert(none_of_kind(long, MoveKind::EnPassant)) by {
            let cf = CastleFlag::long_of(self.to_move);
            lemma_move_kind(cf.king_from(), cf.king_to(), MoveKind::Castle);
        }
        lemma_kind_absent(short, m);
        lemma_kind_absent(long, m);
        lemma_concat_contains(steps, short, m);
        lemma_concat_contains(steps + short, long, m);
        assert(!self.king_moves().contains(m));
        self.lemma_ep_side(Direction::East, from, to);
        self.lemma_ep_side(Direction::West, from, to);
        lemma_square_index(from);
        lemma_square_index(to);
    }

    /// A capture en passant is among the captures of the pawns towards one side exactly
    /// when its pawn stands on the other side of the en-passant square, one rank
    /// behind.
    pub proof fn lemma_ep_side(self, d: Direction, from: Square, to: Square)
        requires
            from != to,
            d == Direction::East || d == Direction::West,
        ensures
            back_map(self.up_side(d).to_seq(), d.dx(), self.to_move.dy(), self.ep()).contains(
                Move::of(from, to, MoveKind::EnPassant),
            ) == (self.ep() == Some(to) && self.plain_pawns().contains(from) && to.rank_index()
                == from.rank_index() + self.to_move.dy() && to.file_index() == from.file_index()
                + d.dx()),
    {
        let m = Move::of(from, to, MoveKind::EnPassant);
        let dx = d.dx();
        let dy = self.to_move.dy();
        let ep = self.ep();
        let targets = self.up_side(d).to_seq();
        let moves = back_map(targets, dx, dy, ep);
        lemma_move_round_trip(from, to, MoveKind::EnPassant);
        lemma_square_index(from);
        lemma_square_index(to);
        if moves.contains(m) {
            let i = choose|i: int| 0 <= i < moves.len() && moves[i] == m;
            let t = targets[i];
            assert(targets.contains(t));
            lemma_to_seq_contains(self.up_side(d), t);
            self.lemma_up_side(d, t);
            lemma_square_index(t);
            lemma_square_at_xy(t.file_index() - dx, t.rank_index() - dy);
            let u = back(t, dx, dy);
            lemma_square_index(u);
            if u.index() == t.index() {
                lemma_square_eq(u, t);
            }
            lemma_move_round_trip(u, t, capture_kind(ep, t));
            assert(moves[i] == Move::of(u, t, capture_kind(ep, t)));
        }
        if ep == Some(to) && self.plain_pawns().contains(from) && to.rank_index()
            == from.rank_index() + dy && to.file_index() == from.file_index() + dx {
            lemma_square_at_xy(to.file_index() - dx, to.rank_index() - dy);
            lemma_square_eq(back(to, dx, dy), from);
            lemma_algebra(
                crate::board::color_bb(self.board, self.to_move.opposite()),
                Bitboard::of_option(ep),
                to,
            );
            lemma_single(to, to);
            self.lemma_up_side(d, to);
            lemma_to_seq_contains(self.up_side(d), to);
            let i = choose|i: int| 0 <= i < targets.len() && targets[i] == to;
            assert(moves[i] == m);
        }
    }
}

} // verus!
