use vstd::prelude::*;

use crate::bitboard::{
    lemma_algebra, lemma_empty, lemma_from_set, lemma_lowest, lemma_shifted, lemma_single,
    lemma_without, Bitboard,
};
use crate::board::{color_bb, kind_bb, lemma_board_bb, occupied, own_bb};
use crate::color::Color;
use crate::movegen::{lemma_move_round_trip, Move, MoveKind, MoveList};
use crate::piece::{lemma_piece_of, lemma_piece_parts, Piece, PieceType};
use crate::position::safety::lemma_between;
use crate::position::{CastleFlag, Position, PositionView};
use crate::precompute::{
    bishop_reaches, bishop_spec, interval_spec, king_spec, knight_spec, knight_step, queen_spec,
    reaches, rook_reaches, rook_spec, Tables,
};
use crate::square::{
    between, king_distance, lemma_square_at_xy, lemma_square_eq, lemma_square_index, on_board,
    on_ray, Direction, Rank, Square,
};

verus! {

/// The ordinary moves from `from` to each of the squares `targets`, in their order.
pub open spec fn fan(from: Square, targets: Seq<Square>) -> Seq<Move> {
    Seq::new(targets.len(), |i: int| Move::of(from, targets[i], MoveKind::Normal))
}

/// The four promotions of a pawn that goes from `from` to `to`: to a knight, a bishop,
/// a rook and a queen.
pub open spec fn promo_fan(from: Square, to: Square) -> Seq<Move> {
    seq![
        Move::of(from, to, MoveKind::Promotion(PieceType::Knight)),
        Move::of(from, to, MoveKind::Promotion(PieceType::Bishop)),
        Move::of(from, to, MoveKind::Promotion(PieceType::Rook)),
        Move::of(from, to, MoveKind::Promotion(PieceType::Queen)),
    ]
}

/// The promotions of a pawn on `from` to each of the squares `dests`, in their order.
pub open spec fn promo_run(from: Square, dests: Seq<Square>) -> Seq<Move>
    decreases dests.len(),
{
    if dests.len() == 0 {
        Seq::empty()
    } else {
        promo_run(from, dests.drop_last()) + promo_fan(from, dests.last())
    }
}

/// The kind of a pawn's capture onto `t`: en passant on the en-passant square.
pub open spec fn capture_kind(ep: Option<Square>, t: Square) -> MoveKind {
    if ep == Some(t) {
        MoveKind::EnPassant
    } else {
        MoveKind::Normal
    }
}

/// The square that lies `dx` files and `dy` ranks before `t`.
pub open spec fn back(t: Square, dx: int, dy: int) -> Square {
    Square::at_xy(t.file_index() - dx, t.rank_index() - dy)
}

/// The pawn moves that reach each of the squares `targets`, in their order, each from
/// the square `dx` files and `dy` ranks before.
pub open spec fn back_map(targets: Seq<Square>, dx: int, dy: int, ep: Option<Square>) -> Seq<
    Move,
> {
    Seq::new(
        targets.len(),
        |i: int| Move::of(back(targets[i], dx, dy), targets[i], capture_kind(ep, targets[i])),
    )
}

/// The squares that a piece of kind `kind` on `sq` attacks; a pawn has none here.
pub open spec fn attack_spec(kind: PieceType, sq: Square, occ: Bitboard) -> Bitboard {
    match kind {
        PieceType::Knight => knight_spec(sq),
        PieceType::Bishop => bishop_spec(sq, occ),
        PieceType::Rook => rook_spec(sq, occ),
        PieceType::Queen => queen_spec(sq, occ),
        PieceType::King => king_spec(sq),
        PieceType::Pawn => Bitboard::empty(),
    }
}

/// Whether every move of the sequence is one that a piece of the side to move can make by
/// the way it moves.
pub open spec fn all_ok(v: PositionView, s: Seq<Move>) -> bool {
    forall|i: int| 0 <= i < s.len() ==> v.pseudo_ok(#[trigger] s[i])
}

impl PositionView {
    /// The squares that a pawn of the side to move may capture on: those of the other
    /// side's pieces, and the en-passant square.
    pub open spec fn enemies(self) -> Bitboard {
        color_bb(self.board, self.to_move.opposite()).or(Bitboard::of_option(self.ep()))
    }

    /// The squares that a piece of kind `kind` on `sq` may move to: those it attacks
    /// that hold no piece of its own side.
    pub open spec fn targets_of(self, kind: PieceType, sq: Square) -> Bitboard {
        attack_spec(kind, sq, occupied(self.board)).and(
            color_bb(self.board, self.to_move).complement(),
        )
    }

    /// The moves of the pieces of kind `kind` that stand on the squares `sources`.
    pub open spec fn sweep(self, kind: PieceType, sources: Seq<Square>) -> Seq<Move>
        decreases sources.len(),
    {
        if sources.len() == 0 {
            Seq::empty()
        } else {
            self.sweep(kind, sources.drop_last()) + fan(
                sources.last(),
                self.targets_of(kind, sources.last()).to_seq(),
            )
        }
    }

    /// The moves of all the pieces of kind `kind` of the side to move, square by square
    /// from the lowest number, target by target from the lowest number.
    pub open spec fn piece_moves(self, kind: PieceType) -> Seq<Move> {
        self.sweep(kind, own_bb(self.board, kind, self.to_move).to_seq())
    }

    /// Whether the squares between the king's home and the rook's home are empty.
    pub open spec fn castle_path_clear(self, cf: CastleFlag) -> bool {
        interval_spec(cf.king_from(), cf.rook_from()).and(occupied(self.board)).is_empty()
    }

    /// The castling move of the right `cf`, if the right is left and the way is clear.
    pub open spec fn castle_move(self, cf: CastleFlag) -> Seq<Move> {
        if self.top().has_right(cf) && self.castle_path_clear(cf) {
            seq![Move::of(cf.king_from(), cf.king_to(), MoveKind::Castle)]
        } else {
            Seq::empty()
        }
    }

    /// The moves of the king: its steps, then castling short, then castling long.
    pub open spec fn king_moves(self) -> Seq<Move> {
        fan(self.king(), self.targets_of(PieceType::King, self.king()).to_seq())
            + self.castle_move(CastleFlag::short_of(self.to_move)) + self.castle_move(
            CastleFlag::long_of(self.to_move),
        )
    }

    /// The pawns of the side to move.
    pub open spec fn pawns(self) -> Bitboard {
        own_bb(self.board, PieceType::Pawn, self.to_move)
    }

    /// The pawns of the side to move that stand one step before promotion.
    pub open spec fn promoters(self) -> Bitboard {
        self.pawns().and(Bitboard::rank_mask(self.to_move.relative_rank_index(6)))
    }

    /// The other pawns of the side to move.
    pub open spec fn plain_pawns(self) -> Bitboard {
        self.pawns().xor(self.promoters())
    }

    /// The squares that a pawn of the side to move reaches by a push of one square.
    pub open spec fn one_ups(self) -> Bitboard {
        self.plain_pawns().shifted(self.to_move.forward_spec()).and(
            occupied(self.board).complement(),
        )
    }

    /// The squares that a pawn of the side to move reaches by a push of two squares.
    pub open spec fn two_ups(self) -> Bitboard {
        self.one_ups().and(Bitboard::rank_mask(self.to_move.relative_rank_index(2))).shifted(
            self.to_move.forward_spec(),
        ).and(occupied(self.board).complement())
    }

    /// The squares that a pawn of the side to move captures on, towards the side `d`.
    pub open spec fn up_side(self, d: Direction) -> Bitboard {
        self.plain_pawns().shifted(self.to_move.forward_spec()).shifted(d).and(self.enemies())
    }

    /// The promotions of the pawn on `p`: straight on if the square is empty, then by
    /// capture to either side.
    pub open spec fn promo_moves_of(self, p: Square) -> Seq<Move> {
        let up = Square::at_xy(p.file_index(), p.rank_index() + self.to_move.dy());
        let side = Bitboard::of_option(up.neighbor(Direction::East)).or(
            Bitboard::of_option(up.neighbor(Direction::West)),
        ).and(self.enemies());
        (if self.at(up) is None {
            promo_fan(p, up)
        } else {
            Seq::empty()
        }) + promo_run(p, side.to_seq())
    }

    /// The promotions of the pawns on the squares `sources`.
    pub open spec fn promo_sweep(self, sources: Seq<Square>) -> Seq<Move>
        decreases sources.len(),
    {
        if sources.len() == 0 {
            Seq::empty()
        } else {
            self.promo_sweep(sources.drop_last()) + self.promo_moves_of(sources.last())
        }
    }

    /// The moves of the pawns: promotions, pushes of one square, pushes of two squares,
    /// captures towards the east, captures towards the west.
    pub open spec fn pawn_moves(self) -> Seq<Move> {
        let dy = self.to_move.dy();
        self.promo_sweep(self.promoters().to_seq()) + back_map(
            self.one_ups().to_seq(),
            0,
            dy,
            None,
        ) + back_map(self.two_ups().to_seq(), 0, 2 * dy, None) + back_map(
            self.up_side(Direction::East).to_seq(),
            1,
            dy,
            self.ep(),
        ) + back_map(self.up_side(Direction::West).to_seq(), -1, dy, self.ep())
    }

    /// The moves that the pieces of the side to move can make by the way they move,
    /// whether or not the king is safe after them: pawns, knights, bishops, rooks,
    /// queens, then the king.
    pub open spec fn pseudo_moves(self) -> Seq<Move> {
        self.pawn_moves() + self.piece_moves(PieceType::Knight) + self.piece_moves(
            PieceType::Bishop,
        ) + self.piece_moves(PieceType::Rook) + self.piece_moves(PieceType::Queen)
            + self.king_moves()
    }

    /// The legal moves: those of `pseudo_moves` that are legal, in the same order.
    pub open spec fn legal_moves(self) -> Seq<Move> {
        self.pseudo_moves().filter(|m: Move| self.legal(m))
    }
}

/// No piece attacks the square that it stands on.
pub proof fn lemma_attack_irreflexive(kind: PieceType, sq: Square, occ: Bitboard)
    ensures
        !attack_spec(kind, sq, occ).contains(sq),
{
    lemma_square_index(sq);
    lemma_from_set(Set::new(|t: Square| knight_step(sq, t)), sq);
    lemma_from_set(Set::new(|t: Square| king_distance(sq, t) == 1), sq);
    lemma_from_set(Set::new(|t: Square| bishop_reaches(sq, occ, t)), sq);
    lemma_from_set(Set::new(|t: Square| rook_reaches(sq, occ, t)), sq);
    lemma_algebra(bishop_spec(sq, occ), rook_spec(sq, occ), sq);
    lemma_algebra(Bitboard::empty(), Bitboard::empty(), sq);
    assert forall|d: Direction| !reaches(sq, occ, d, sq) by {
        assert(!on_ray(sq, d, sq));
    }
}

/// Adds to the list the ordinary moves from `from` to each square of `targets`.
fn push_fan(list: &mut MoveList, from: Square, targets: Bitboard, Ghost(v): Ghost<PositionView>)
    requires
        all_ok(v, old(list)@),
        forall|t: Square| #[trigger]
            targets.contains(t) ==> t != from && v.pseudo_ok(Move::of(from, t, MoveKind::Normal)),
    ensures
        final(list)@ == old(list)@ + fan(from, targets.to_seq()),
        all_ok(v, final(list)@),
{
    let ghost base = list@;
    let ghost mut done: Seq<Square> = Seq::empty();
    let mut rest = targets;
    proof {
        assert(base + fan(from, done) =~= base);
    }
    while rest.nonzero()
        invariant
            list@ == base + fan(from, done),
            done + rest.to_seq() == targets.to_seq(),
            all_ok(v, list@),
            forall|t: Square| rest.contains(t) ==> targets.contains(t),
            forall|t: Square| #[trigger]
                targets.contains(t) ==> t != from && v.pseudo_ok(
                    Move::of(from, t, MoveKind::Normal),
                ),
        decreases rest.0,
    {
        let t = rest.lsb();
        let next = rest.without_lsb();
        let m = Move::new(from, t);
        let ghost before = list@;
        list.push(m);
        proof {
            assert(rest.to_seq() == seq![t] + next.to_seq());
            assert(done.push(t) + next.to_seq() =~= done + rest.to_seq());
            assert(list@ =~= base + fan(from, done.push(t)));
            assert forall|s: Square| next.contains(s) implies targets.contains(s) by {
                lemma_without(rest, t, s);
            }
            assert forall|i: int| 0 <= i < list@.len() implies v.pseudo_ok(#[trigger] list@[i]) by {
                if i < before.len() {
                    assert(list@[i] == before[i]);
                }
            }
            done = done.push(t);
        }
        rest = next;
    }
    proof {
        assert(done + rest.to_seq() =~= done);
    }
}

/// Adds to the list the four promotions of the pawn that goes from `from` to `to`.
pub fn add_prom(from: Square, to: Square, list: &mut MoveList)
    requires
        from != to,
    ensures
        final(list)@ == old(list)@ + promo_fan(from, to),
{
    let kinds = PieceType::promotable();
    let ghost base = list@;
    let mut i: usize = 0;
    while i < 4
        invariant
            from != to,
            i <= 4,
            kinds@ == seq![PieceType::Knight, PieceType::Bishop, PieceType::Rook, PieceType::Queen],
            list@ == base + promo_fan(from, to).take(i as int),
        decreases 4 - i,
    {
        let kind = kinds[i];
        list.push(Move::new_with_kind(from, to, MoveKind::Promotion(kind)));
        proof {
            assert(list@ =~= base + promo_fan(from, to).take(i + 1));
        }
        i += 1;
    }
    proof {
        assert(promo_fan(from, to).take(4) =~= promo_fan(from, to));
    }
}

/// The promotions of a pawn have the shape of a move wherever the pawn stands one step
/// before the last rank and the square it reaches is right for it.
proof fn lemma_promo_ok(v: PositionView, from: Square, to: Square, s: Seq<Move>)
    requires
        all_ok(v, s),
        from != to,
        v.at(from) == Some(Piece::of(PieceType::Pawn, v.to_move)),
        king_distance(from, to) == 1,
        match v.at(to) {
            Some(q) => q.color_spec() != v.to_move,
            None => true,
        },
    ensures
        all_ok(v, s + promo_fan(from, to)),
{
    let r = s + promo_fan(from, to);
    lemma_piece_parts(PieceType::Pawn, v.to_move);
    assert forall|i: int| 0 <= i < r.len() implies v.pseudo_ok(#[trigger] r[i]) by {
        if i < s.len() {
            assert(r[i] == s[i]);
        } else {
            let j = i - s.len();
            assert(r[i] == promo_fan(from, to)[j]);
            lemma_move_round_trip(from, to, MoveKind::Promotion(PieceType::Knight));
            lemma_move_round_trip(from, to, MoveKind::Promotion(PieceType::Bishop));
            lemma_move_round_trip(from, to, MoveKind::Promotion(PieceType::Rook));
            lemma_move_round_trip(from, to, MoveKind::Promotion(PieceType::Queen));
            lemma_step_path(v, r[i]);
        }
    }
}

/// Adds to the list the pawn moves that reach the squares of `targets`, each from the
/// square `dx` files and `dy` ranks before.
fn push_back(
    list: &mut MoveList,
    targets: Bitboard,
    dx: i8,
    dy: i8,
    ep: Option<Square>,
    Ghost(v): Ghost<PositionView>,
)
    requires
        all_ok(v, old(list)@),
        -1 <= dx <= 1,
        -2 <= dy <= 2,
        forall|t: Square| #[trigger]
            targets.contains(t) ==> on_board(t.file_index() - dx, t.rank_index() - dy) && back(
                t,
                dx as int,
                dy as int,
            ) != t && v.pseudo_ok(
                Move::of(back(t, dx as int, dy as int), t, capture_kind(ep, t)),
            ),
    ensures
        final(list)@ == old(list)@ + back_map(targets.to_seq(), dx as int, dy as int, ep),
        all_ok(v, final(list)@),
{
    let ghost base = list@;
    let ghost mut done: Seq<Square> = Seq::empty();
    let mut rest = targets;
    proof {
        assert(base + back_map(done, dx as int, dy as int, ep) =~= base);
    }
    while rest.nonzero()
        invariant
            -1 <= dx <= 1,
            -2 <= dy <= 2,
            list@ == base + back_map(done, dx as int, dy as int, ep),
            done + rest.to_seq() == targets.to_seq(),
            all_ok(v, list@),
            forall|t: Square| rest.contains(t) ==> targets.contains(t),
            forall|t: Square| #[trigger]
                targets.contains(t) ==> on_board(t.file_index() - dx, t.rank_index() - dy) && back(
                    t,
                    dx as int,
                    dy as int,
                ) != t && v.pseudo_ok(
                    Move::of(back(t, dx as int, dy as int), t, capture_kind(ep, t)),
                ),
        decreases rest.0,
    {
        let t = rest.lsb();
        let next = rest.without_lsb();
        proof {
            lemma_square_index(t);
            lemma_square_at_xy(t.file_index() - dx, t.rank_index() - dy);
        }
        let ti: i8 = t.idx() as i8;
        let fi: i8 = ti - dx - 8 * dy;
        let from = Square::from_index(fi as u8);
        let kind = match ep {
            Some(e) => if e == t {
                MoveKind::EnPassant
            } else {
                MoveKind::Normal
            },
            None => MoveKind::Normal,
        };
        proof {
            assert(from == back(t, dx as int, dy as int));
            assert(kind == capture_kind(ep, t));
        }
        let m = Move::new_with_kind(from, t, kind);
        let ghost before = list@;
        list.push(m);
        proof {
            assert(rest.to_seq() == seq![t] + next.to_seq());
            assert(done.push(t) + next.to_seq() =~= done + rest.to_seq());
            assert(list@ =~= base + back_map(done.push(t), dx as int, dy as int, ep));
            assert forall|s: Square| next.contains(s) implies targets.contains(s) by {
                lemma_without(rest, t, s);
            }
            assert forall|i: int| 0 <= i < list@.len() implies v.pseudo_ok(#[trigger] list@[i]) by {
                if i < before.len() {
                    assert(list@[i] == before[i]);
                }
            }
            done = done.push(t);
        }
        rest = next;
    }
    proof {
        assert(done + rest.to_seq() =~= done);
    }
}

/// Adds to the list the moves of the pieces of kind `kind` of the side to move.
fn piece_moves(pos: &Position, tables: &Tables, kind: PieceType, list: &mut MoveList)
    requires
        pos.inv(),
        kind != PieceType::Pawn,
        kind != PieceType::King,
        all_ok(pos@, old(list)@),
    ensures
        final(list)@ == old(list)@ + pos@.piece_moves(kind),
        all_ok(pos@, final(list)@),
{
    let us = pos.to_move();
    let sources = pos.spec(kind, us);
    let not_own = pos.color(us).not();
    let all = pos.all();
    let ghost v = pos@;
    let ghost base = list@;
    let ghost mut done: Seq<Square> = Seq::empty();
    let mut rest = sources;
    proof {
        assert(base + v.sweep(kind, done) =~= base);
    }
    while rest.nonzero()
        invariant
            pos.inv(),
            v == pos@,
            us == v.to_move,
            kind != PieceType::Pawn,
            kind != PieceType::King,
            sources == own_bb(v.board, kind, us),
            not_own == color_bb(v.board, us).complement(),
            all == occupied(v.board),
            list@ == base + v.sweep(kind, done),
            done + rest.to_seq() == sources.to_seq(),
            all_ok(v, list@),
            forall|t: Square| rest.contains(t) ==> sources.contains(t),
        decreases rest.0,
    {
        let s = rest.lsb();
        let next = rest.without_lsb();
        let attacks = match kind {
            PieceType::Knight => tables.knight_attacks(s),
            PieceType::Bishop => tables.bishop_attacks(s, all),
            PieceType::Rook => tables.rook_attacks(s, all),
            _ => tables.queen_attacks(s, all),
        };
        let targets = attacks.bitand(not_own);
        proof {
            lemma_piece_target_ok(v, kind, s);
            assert(attacks == attack_spec(kind, s, all));
            assert(targets == v.targets_of(kind, s));
            assert(rest.to_seq() == seq![s] + next.to_seq());
            assert(done.push(s) + next.to_seq() =~= done + rest.to_seq());
            assert(done.push(s).drop_last() =~= done);
            assert forall|t: Square| next.contains(t) implies sources.contains(t) by {
                lemma_without(rest, s, t);
            }
        }
        let ghost before = list@;
        push_fan(list, s, targets, Ghost(v));
        proof {
            assert(list@ =~= base + v.sweep(kind, done.push(s))) by {
                assert(v.sweep(kind, done.push(s)) == v.sweep(kind, done) + fan(
                    s,
                    v.targets_of(kind, s).to_seq(),
                ));
            }
            done = done.push(s);
        }
        rest = next;
    }
    proof {
        assert(done + rest.to_seq() =~= done);
    }
}

/// A move of a piece that is neither pawn nor king, from its square to a square that
/// it attacks and that holds no piece of its own side, has the shape of a move.
proof fn lemma_piece_target_ok(v: PositionView, kind: PieceType, s: Square)
    requires
        kind != PieceType::Pawn,
        own_bb(v.board, kind, v.to_move).contains(s),
    ensures
        forall|t: Square| #[trigger]
            v.targets_of(kind, s).contains(t) ==> t != s && v.pseudo_ok(
                Move::of(s, t, MoveKind::Normal),
            ),
{
    let us = v.to_move;
    lemma_algebra(kind_bb(v.board, kind), color_bb(v.board, us), s);
    lemma_board_bb(v.board, s);
    assert forall|t: Square| #[trigger] v.targets_of(kind, s).contains(t) implies t != s
        && v.pseudo_ok(Move::of(s, t, MoveKind::Normal)) by {
        let occ = occupied(v.board);
        lemma_algebra(attack_spec(kind, s, occ), color_bb(v.board, us).complement(), t);
        lemma_algebra(color_bb(v.board, us), color_bb(v.board, us), t);
        lemma_attack_irreflexive(kind, s, occ);
        lemma_board_bb(v.board, t);
        lemma_move_round_trip(s, t, MoveKind::Normal);
        lemma_attack_path(v, kind, s, t);
        lemma_from_set(Set::new(|t: Square| king_distance(s, t) == 1), t);
        assert(v.at(s)->0.kind_spec() == kind);
        assert(v.king_steps(Move::of(s, t, MoveKind::Normal)));
    }
}

/// A move to a square next to the one it leaves, or a knight's move away, passes over
/// no square.
proof fn lemma_step_path(v: PositionView, m: Move)
    requires
        king_distance(m.from_spec(), m.to_spec()) == 1 || knight_step(m.from_spec(), m.to_spec()),
    ensures
        v.path_clear(m),
{
    assert forall|u: Square| #[trigger] between(m.from_spec(), m.to_spec(), u) implies v.at(u)
        is None by {
        lemma_between(m.from_spec(), m.to_spec(), u);
    }
}

/// A piece passes over empty squares only on its way to a square that it attacks.
proof fn lemma_attack_path(v: PositionView, kind: PieceType, s: Square, t: Square)
    requires
        kind != PieceType::Pawn,
        attack_spec(kind, s, occupied(v.board)).contains(t),
    ensures
        v.path_clear(Move::of(s, t, MoveKind::Normal)),
{
    let occ = occupied(v.board);
    let m = Move::of(s, t, MoveKind::Normal);
    lemma_attack_irreflexive(kind, s, occ);
    lemma_move_round_trip(s, t, MoveKind::Normal);
    lemma_from_set(Set::new(|t: Square| knight_step(s, t)), t);
    lemma_from_set(Set::new(|t: Square| king_distance(s, t) == 1), t);
    lemma_from_set(Set::new(|t: Square| bishop_reaches(s, occ, t)), t);
    lemma_from_set(Set::new(|t: Square| rook_reaches(s, occ, t)), t);
    lemma_algebra(bishop_spec(s, occ), rook_spec(s, occ), t);
    assert forall|u: Square| #[trigger] between(s, t, u) implies v.at(u) is None by {
        lemma_between(s, t, u);
        lemma_board_bb(v.board, u);
        let e = choose|e: Direction| on_ray(s, e, u) && #[trigger] on_ray(u, e, t) && on_ray(s, e, t);
        assert forall|d: Direction| #[trigger] reaches(s, occ, d, t) implies !occ.contains(u) by {
            crate::precompute::lemma_ray_unique(s, d, e, t);
        }
        if bishop_reaches(s, occ, t) {
            let d = choose|d: Direction| d.is_diagonal() && #[trigger] reaches(s, occ, d, t);
            assert(reaches(s, occ, d, t));
        }
        if rook_reaches(s, occ, t) {
            let d = choose|d: Direction| d.is_orthogonal() && #[trigger] reaches(s, occ, d, t);
            assert(reaches(s, occ, d, t));
        }
    }
}

/// Adds to the list the moves of the knights of the side to move.
pub fn knight_moves(pos: &Position, tables: &Tables, list: &mut MoveList)
    requires
        pos.inv(),
        all_ok(pos@, old(list)@),
    ensures
        final(list)@ == old(list)@ + pos@.piece_moves(PieceType::Knight),
        all_ok(pos@, final(list)@),
{
    piece_moves(pos, tables, PieceType::Knight, list);
}

/// Adds to the list the moves of the bishops of the side to move.
pub fn bishop_moves(pos: &Position, tables: &Tables, list: &mut MoveList)
    requires
        pos.inv(),
        all_ok(pos@, old(list)@),
    ensures
        final(list)@ == old(list)@ + pos@.piece_moves(PieceType::Bishop),
        all_ok(pos@, final(list)@),
{
    piece_moves(pos, tables, PieceType::Bishop, list);
}

/// Adds to the list the moves of the rooks of the side to move.
pub fn rook_moves(pos: &Position, tables: &Tables, list: &mut MoveList)
    requires
        pos.inv(),
        all_ok(pos@, old(list)@),
    ensures
        final(list)@ == old(list)@ + pos@.piece_moves(PieceType::Rook),
        all_ok(pos@, final(list)@),
{
    piece_moves(pos, tables, PieceType::Rook, list);
}

/// Adds to the list the moves of the queens of the side to move.
pub fn queen_moves(pos: &Position, tables: &Tables, list: &mut MoveList)
    requires
        pos.inv(),
        all_ok(pos@, old(list)@),
    ensures
        final(list)@ == old(list)@ + pos@.piece_moves(PieceType::Queen),
        all_ok(pos@, final(list)@),
{
    piece_moves(pos, tables, PieceType::Queen, list);
}

/// Adds to the list the moves of the bishops, rooks and queens of the side to move.
pub fn all_sliders_at_once(pos: &Position, tables: &Tables, list: &mut MoveList)
    requires
        pos.inv(),
        all_ok(pos@, old(list)@),
    ensures
        final(list)@ == old(list)@ + pos@.piece_moves(PieceType::Bishop) + pos@.piece_moves(
            PieceType::Rook,
        ) + pos@.piece_moves(PieceType::Queen),
        all_ok(pos@, final(list)@),
{
    piece_moves(pos, tables, PieceType::Bishop, list);
    piece_moves(pos, tables, PieceType::Rook, list);
    piece_moves(pos, tables, PieceType::Queen, list);
}

/// Castling has the shape of a move wherever its right is left and its way is clear.
proof fn lemma_castle_ok(v: PositionView, cf: CastleFlag)
    requires
        v.valid(),
        cf == CastleFlag::short_of(v.to_move) || cf == CastleFlag::long_of(v.to_move),
        v.top().has_right(cf),
        v.castle_path_clear(cf),
    ensures
        cf.king_from() != cf.king_to(),
        v.pseudo_ok(Move::of(cf.king_from(), cf.king_to(), MoveKind::Castle)),
{
    let from = cf.king_from();
    let to = cf.king_to();
    let home = cf.rook_from();
    let us = v.to_move;
    assert(v.right_fits(cf));
    lemma_piece_parts(PieceType::King, us);
    lemma_piece_parts(PieceType::Rook, us);
    lemma_move_round_trip(from, to, MoveKind::Castle);
    let path = interval_spec(from, home);
    lemma_empty(path.and(occupied(v.board)));
    assert(between(from, home, to) && between(from, home, cf.rook_to())) by {
        reveal(Square::index);
        if cf == CastleFlag::short_of(us) {
            assert(on_ray(from, Direction::East, to) && on_ray(to, Direction::East, home));
            assert(on_ray(from, Direction::East, cf.rook_to()) && on_ray(
                cf.rook_to(),
                Direction::East,
                home,
            ));
        } else {
            assert(on_ray(from, Direction::West, to) && on_ray(to, Direction::West, home));
            assert(on_ray(from, Direction::West, cf.rook_to()) && on_ray(
                cf.rook_to(),
                Direction::West,
                home,
            ));
        }
    }
    lemma_from_set(Set::new(|t: Square| between(from, home, t)), to);
    lemma_from_set(Set::new(|t: Square| between(from, home, t)), cf.rook_to());
    lemma_algebra(path, occupied(v.board), to);
    lemma_algebra(path, occupied(v.board), cf.rook_to());
    lemma_board_bb(v.board, to);
    lemma_board_bb(v.board, cf.rook_to());
    assert(v.castle_flag(to) == cf);
    assert forall|u: Square| #[trigger] between(from, to, u) implies v.at(u) is None by {
        lemma_square_index(u);
        assert(u.file_index() == cf.rook_to().file_index() && u.rank_index()
            == cf.rook_to().rank_index()) by {
            reveal(Square::index);
        }
        lemma_square_eq(u, cf.rook_to());
    }
}

/// Adds to the list the castling move of the right `cf`, if the right is left and the
/// squares between king and rook are empty.
fn castle_push(pos: &Position, tables: &Tables, cf: CastleFlag, list: &mut MoveList)
    requires
        pos.inv(),
        cf == CastleFlag::short_of(pos@.to_move) || cf == CastleFlag::long_of(pos@.to_move),
        all_ok(pos@, old(list)@),
    ensures
        final(list)@ == old(list)@ + pos@.castle_move(cf),
        all_ok(pos@, final(list)@),
{
    let ghost before = list@;
    if pos.has_castle(cf) && pos.can_castle(cf, tables) {
        proof {
            lemma_castle_ok(pos@, cf);
        }
        list.push(Move::new_with_kind(cf.from_square(), cf.to_square(), MoveKind::Castle));
        proof {
            assert(list@ =~= before + pos@.castle_move(cf));
            assert forall|i: int| 0 <= i < list@.len() implies pos@.pseudo_ok(
                #[trigger] list@[i],
            ) by {
                if i < before.len() {
                    assert(list@[i] == before[i]);
                }
            }
        }
    } else {
        proof {
            assert(list@ =~= before + pos@.castle_move(cf));
        }
    }
}

/// Adds to the list the moves of the king of the side to move: its steps, then
/// castling.
pub fn king_moves(pos: &Position, tables: &Tables, list: &mut MoveList)
    requires
        pos.inv(),
        all_ok(pos@, old(list)@),
    ensures
        final(list)@ == old(list)@ + pos@.king_moves(),
        all_ok(pos@, final(list)@),
{
    let us = pos.to_move();
    let king = pos.king(us);
    let movs = tables.king_attacks(king).bitand(pos.color(us).not());
    let ghost base = list@;
    proof {
        lemma_lowest(own_bb(pos@.board, PieceType::King, us));
        lemma_piece_target_ok(pos@, PieceType::King, king);
        assert(movs == pos@.targets_of(PieceType::King, king));
    }
    push_fan(list, king, movs, Ghost(pos@));
    let variants = CastleFlag::variants_for(us);
    castle_push(pos, tables, variants[0], list);
    castle_push(pos, tables, variants[1], list);
    proof {
        assert(list@ =~= base + pos@.king_moves());
    }
}

/// What stands on the squares that pawns of the side to move are pushed from and to.
proof fn lemma_pawn_squares(v: PositionView, u: Square)
    requires
        v.shaped(),
    ensures
        v.pawns().contains(u) == (v.at(u) == Some(Piece::of(PieceType::Pawn, v.to_move))),
        v.promoters().contains(u) == (v.pawns().contains(u) && u.rank_index()
            == v.to_move.relative_rank_index(6)),
        v.plain_pawns().contains(u) == (v.pawns().contains(u) && u.rank_index()
            != v.to_move.relative_rank_index(6)),
        v.enemies().contains(u) == (v.ep() == Some(u) || match v.at(u) {
            Some(q) => q.color_spec() != v.to_move,
            None => false,
        }),
        occupied(v.board).complement().contains(u) == v.at(u) is None,
{
    let us = v.to_move;
    lemma_square_index(u);
    lemma_algebra(kind_bb(v.board, PieceType::Pawn), color_bb(v.board, us), u);
    lemma_board_bb(v.board, u);
    lemma_piece_parts(PieceType::Pawn, us);
    if v.at(u) is Some {
        lemma_piece_of(v.at(u)->0);
    }
    lemma_algebra(v.pawns(), Bitboard::rank_mask(us.relative_rank_index(6)), u);
    crate::bitboard::lemma_masks(u, us.relative_rank_index(6));
    lemma_algebra(v.pawns(), v.promoters(), u);
    lemma_algebra(color_bb(v.board, us.opposite()), Bitboard::of_option(v.ep()), u);
    lemma_algebra(occupied(v.board), occupied(v.board), u);
    match v.ep() {
        Some(e) => {
            lemma_single(e, u);
        },
        None => {},
    }
}

/// A push of one square has the shape of a move.
proof fn lemma_one_up_ok(v: PositionView)
    requires
        v.valid(),
    ensures
        forall|t: Square| #[trigger]
            v.one_ups().contains(t) ==> on_board(t.file_index(), t.rank_index() - v.to_move.dy())
                && back(t, 0, v.to_move.dy()) != t && v.plain_pawns().contains(
                back(t, 0, v.to_move.dy()),
            ) && v.at(t) is None && v.pseudo_ok(
                Move::of(back(t, 0, v.to_move.dy()), t, MoveKind::Normal),
            ),
{
    let us = v.to_move;
    let fwd = us.forward_spec();
    let dy = us.dy();
    assert forall|t: Square| #[trigger] v.one_ups().contains(t) implies on_board(
        t.file_index(),
        t.rank_index() - dy,
    ) && back(t, 0, dy) != t && v.plain_pawns().contains(back(t, 0, dy)) && v.at(t) is None
        && v.pseudo_ok(Move::of(back(t, 0, dy), t, MoveKind::Normal)) by {
        let u = back(t, 0, dy);
        lemma_square_index(t);
        lemma_algebra(v.plain_pawns().shifted(fwd), occupied(v.board).complement(), t);
        lemma_shifted(v.plain_pawns(), fwd, t);
        lemma_square_at_xy(t.file_index(), t.rank_index() - dy);
        lemma_pawn_squares(v, u);
        lemma_pawn_squares(v, t);
        lemma_piece_parts(PieceType::Pawn, us);
        lemma_move_round_trip(u, t, MoveKind::Normal);
        lemma_square_index(u);
        lemma_step_path(v, Move::of(u, t, MoveKind::Normal));
    }
}

/// A push of two squares has the shape of a move.
#[verifier::rlimit(50)]
proof fn lemma_two_up_ok(v: PositionView)
    requires
        v.valid(),
    ensures
        forall|t: Square| #[trigger]
            v.two_ups().contains(t) ==> on_board(
                t.file_index(),
                t.rank_index() - 2 * v.to_move.dy(),
            ) && back(t, 0, 2 * v.to_move.dy()) != t && v.pseudo_ok(
                Move::of(back(t, 0, 2 * v.to_move.dy()), t, MoveKind::Normal),
            ),
{
    let us = v.to_move;
    let fwd = us.forward_spec();
    let dy = us.dy();
    let third = Bitboard::rank_mask(us.relative_rank_index(2));
    lemma_one_up_ok(v);
    assert forall|t: Square| #[trigger] v.two_ups().contains(t) implies on_board(
        t.file_index(),
        t.rank_index() - 2 * dy,
    ) && back(t, 0, 2 * dy) != t && v.pseudo_ok(Move::of(back(t, 0, 2 * dy), t, MoveKind::Normal)) by {
        lemma_square_index(t);
        lemma_algebra(v.one_ups().and(third).shifted(fwd), occupied(v.board).complement(), t);
        lemma_shifted(v.one_ups().and(third), fwd, t);
        lemma_square_at_xy(t.file_index(), t.rank_index() - dy);
        let mid = back(t, 0, dy);
        lemma_algebra(v.one_ups(), third, mid);
        crate::bitboard::lemma_masks(mid, us.relative_rank_index(2));
        assert(v.one_ups().contains(mid));
        lemma_square_at_xy(mid.file_index(), mid.rank_index() - dy);
        let u = back(mid, 0, dy);
        assert(u == back(t, 0, 2 * dy));
        lemma_pawn_squares(v, u);
        lemma_pawn_squares(v, t);
        lemma_pawn_squares(v, mid);
        lemma_piece_parts(PieceType::Pawn, us);
        lemma_move_round_trip(u, t, MoveKind::Normal);
        assert(mid == Square::at_xy(u.file_index(), us.relative_rank_index(2)));
        assert forall|w: Square| #[trigger] between(u, t, w) implies v.at(w) is None by {
            lemma_square_index(w);
            lemma_square_index(u);
            lemma_square_index(mid);
            assert(w.file_index() == mid.file_index() && w.rank_index() == mid.rank_index());
            lemma_square_eq(w, mid);
        }
    }
}

/// A pawn's capture has the shape of a move.
#[verifier::rlimit(50)]
proof fn lemma_capture_ok(v: PositionView, d: Direction)
    requires
        v.valid(),
        d == Direction::East || d == Direction::West,
    ensures
        forall|t: Square| #[trigger]
            v.up_side(d).contains(t) ==> on_board(
                t.file_index() - d.dx(),
                t.rank_index() - v.to_move.dy(),
            ) && back(t, d.dx(), v.to_move.dy()) != t && v.pseudo_ok(
                Move::of(back(t, d.dx(), v.to_move.dy()), t, capture_kind(v.ep(), t)),
            ),
{
    let us = v.to_move;
    let fwd = us.forward_spec();
    let dy = us.dy();
    let dx = d.dx();
    assert forall|t: Square| #[trigger] v.up_side(d).contains(t) implies on_board(
        t.file_index() - dx,
        t.rank_index() - dy,
    ) && back(t, dx, dy) != t && v.pseudo_ok(
        Move::of(back(t, dx, dy), t, capture_kind(v.ep(), t)),
    ) by {
        lemma_square_index(t);
        lemma_algebra(v.plain_pawns().shifted(fwd).shifted(d), v.enemies(), t);
        lemma_shifted(v.plain_pawns().shifted(fwd), d, t);
        lemma_square_at_xy(t.file_index() - dx, t.rank_index());
        let side = Square::at_xy(t.file_index() - dx, t.rank_index());
        lemma_shifted(v.plain_pawns(), fwd, side);
        lemma_square_at_xy(t.file_index() - dx, t.rank_index() - dy);
        let u = back(t, dx, dy);
        lemma_pawn_squares(v, u);
        lemma_pawn_squares(v, t);
        lemma_piece_parts(PieceType::Pawn, us);
        lemma_move_round_trip(u, t, capture_kind(v.ep(), t));
        lemma_square_index(u);
        lemma_step_path(v, Move::of(u, t, capture_kind(v.ep(), t)));
    }
}

/// Adds to the list the moves of the pawns of the side to move: promotions, pushes of
/// one square and of two, and captures, those en passant among them.
#[verifier::rlimit(50)]
pub fn pawn_moves(pos: &Position, list: &mut MoveList)
    requires
        pos.inv(),
        all_ok(pos@, old(list)@),
    ensures
        final(list)@ == old(list)@ + pos@.pawn_moves(),
        all_ok(pos@, final(list)@),
{
    let ghost v = pos@;
    let ghost base = list@;
    let us = pos.to_move();
    let them = us.not();
    let ep = pos.ep();
    let enemies = pos.color(them).bitor(Bitboard::from_option(ep));
    let empty = pos.all().not();
    let pawns = pos.spec(PieceType::Pawn, us);
    let potential_promotions = pawns.bitand(Bitboard::from_rank(us.relative_rank(Rank::Seven)));
    let non_promotions = pawns.bitxor(potential_promotions);
    let third_rank = Bitboard::from_rank(us.relative_rank(Rank::Three));
    let forward = us.forward();
    let dy: i8 = match us {
        Color::White => 1,
        Color::Black => -1,
    };
    let ghost mut done: Seq<Square> = Seq::empty();
    let mut rest = potential_promotions;
    proof {
        assert(base + v.promo_sweep(done) =~= base);
    }
    while rest.nonzero()
        invariant
            pos.inv(),
            v == pos@,
            us == v.to_move,
            forward == us.forward_spec(),
            enemies == v.enemies(),
            potential_promotions == v.promoters(),
            list@ == base + v.promo_sweep(done),
            done + rest.to_seq() == potential_promotions.to_seq(),
            all_ok(v, list@),
            forall|t: Square| rest.contains(t) ==> potential_promotions.contains(t),
        decreases rest.0,
    {
        let p = rest.lsb();
        let next = rest.without_lsb();
        proof {
            lemma_square_index(p);
            lemma_pawn_squares(v, p);
            lemma_square_at_xy(p.file_index(), p.rank_index() + us.dy());
            assert(rest.to_seq() == seq![p] + next.to_seq());
            assert(done.push(p) + next.to_seq() =~= done + rest.to_seq());
            assert(done.push(p).drop_last() =~= done);
            assert forall|t: Square| next.contains(t) implies potential_promotions.contains(t) by {
                lemma_without(rest, p, t);
            }
        }
        let ghost start = list@;
        let up = p.shift(forward).unwrap();
        proof {
            lemma_square_index(up);
        }
        if pos.empty(up) {
            add_prom(p, up, list);
            proof {
                lemma_promo_ok(v, p, up, start);
            }
        }
        let ghost straight = list@;
        let proms = Bitboard::from_option(up.shift(Direction::East)).bitor(
            Bitboard::from_option(up.shift(Direction::West)),
        ).bitand(enemies);
        let ghost mut ddone: Seq<Square> = Seq::empty();
        let mut drest = proms;
        proof {
            assert(straight + promo_run(p, ddone) =~= straight);
        }
        while drest.nonzero()
            invariant
                pos.inv(),
                v == pos@,
                us == v.to_move,
                v.promoters().contains(p),
                up == Square::at_xy(p.file_index(), p.rank_index() + us.dy()),
                on_board(p.file_index(), p.rank_index() + us.dy()),
                proms == Bitboard::of_option(up.neighbor(Direction::East)).or(
                    Bitboard::of_option(up.neighbor(Direction::West)),
                ).and(v.enemies()),
                list@ == straight + promo_run(p, ddone),
                ddone + drest.to_seq() == proms.to_seq(),
                all_ok(v, list@),
                forall|t: Square| drest.contains(t) ==> proms.contains(t),
            decreases drest.0,
        {
            let dest = drest.lsb();
            let dnext = drest.without_lsb();
            let ghost before = list@;
            proof {
                lemma_square_index(p);
                lemma_square_index(up);
                lemma_square_index(dest);
                lemma_square_at_xy(p.file_index(), p.rank_index() + us.dy());
                let sides = Bitboard::of_option(up.neighbor(Direction::East)).or(
                    Bitboard::of_option(up.neighbor(Direction::West)),
                );
                lemma_algebra(sides, v.enemies(), dest);
                lemma_algebra(
                    Bitboard::of_option(up.neighbor(Direction::East)),
                    Bitboard::of_option(up.neighbor(Direction::West)),
                    dest,
                );
                if up.neighbor(Direction::East) is Some {
                    lemma_single(up.neighbor(Direction::East)->0, dest);
                    lemma_square_at_xy(up.file_index() + 1, up.rank_index());
                }
                if up.neighbor(Direction::West) is Some {
                    lemma_single(up.neighbor(Direction::West)->0, dest);
                    lemma_square_at_xy(up.file_index() - 1, up.rank_index());
                }
                lemma_pawn_squares(v, dest);
                lemma_pawn_squares(v, p);
                assert(drest.to_seq() == seq![dest] + dnext.to_seq());
                assert(ddone.push(dest) + dnext.to_seq() =~= ddone + drest.to_seq());
                assert(ddone.push(dest).drop_last() =~= ddone);
                assert forall|t: Square| dnext.contains(t) implies proms.contains(t) by {
                    lemma_without(drest, dest, t);
                }
                if v.ep() == Some(dest) {
                    assert(v.at(dest) is None);
                }
                lemma_promo_ok(v, p, dest, before);
            }
            add_prom(p, dest, list);
            proof {
                assert(list@ =~= straight + promo_run(p, ddone.push(dest)));
                ddone = ddone.push(dest);
            }
            drest = dnext;
        }
        proof {
            assert(ddone + drest.to_seq() =~= ddone);
            assert(list@ =~= base + v.promo_sweep(done.push(p))) by {
                assert(v.promo_sweep(done.push(p)) == v.promo_sweep(done) + v.promo_moves_of(p));
            }
            done = done.push(p);
        }
        rest = next;
    }
    proof {
        assert(done + rest.to_seq() =~= done);
        lemma_one_up_ok(v);
        lemma_two_up_ok(v);
        lemma_capture_ok(v, Direction::East);
        lemma_capture_ok(v, Direction::West);
    }
    let one_ups = non_promotions.shift(forward).bitand(empty);
    let two_ups = one_ups.bitand(third_rank).shift(forward).bitand(empty);
    proof {
        assert(dy as int == us.dy());
        assert(non_promotions == v.plain_pawns());
        assert(one_ups == v.one_ups());
        assert(two_ups == v.two_ups());
        assert(enemies == v.enemies());
        assert(Direction::East.dx() == 1 && Direction::West.dx() == -1);
        assert(forall|t: Square| capture_kind(None, t) == MoveKind::Normal);
    }
    push_back(list, one_ups, 0, dy, None, Ghost(v));
    push_back(list, two_ups, 0, 2 * dy, None, Ghost(v));
    let up_east = non_promotions.shift(forward).shift(Direction::East).bitand(enemies);
    let up_west = non_promotions.shift(forward).shift(Direction::West).bitand(enemies);
    proof {
        assert(up_east == v.up_side(Direction::East));
        assert(up_west == v.up_side(Direction::West));
    }
    push_back(list, up_east, 1, dy, ep, Ghost(v));
    push_back(list, up_west, -1, dy, ep, Ghost(v));
    proof {
        assert(list@ =~= base + v.pawn_moves());
    }
}

/// The moves that the pieces of the side to move can make by the way they move,
/// whether or not the king is safe after them. Each has the shape of a move of the
/// position.
pub fn pseudo_legal(pos: &Position, tables: &Tables) -> (moves: MoveList)
    requires
        pos.inv(),
    ensures
        moves@ == pos@.pseudo_moves(),
        all_ok(pos@, moves@),
        forall|cf: CastleFlag|
            cf == CastleFlag::short_of(pos@.to_move) || cf == CastleFlag::long_of(pos@.to_move)
                ==> #[trigger] moves@.contains(
                Move::of(cf.king_from(), cf.king_to(), MoveKind::Castle),
            ) == (pos@.top().has_right(cf) && pos@.castle_path_clear(cf)),
        forall|from: Square, to: Square|
            from != to ==> #[trigger] moves@.contains(Move::of(from, to, MoveKind::EnPassant)) == (
            pos@.ep() == Some(to) && pos@.plain_pawns().contains(from) && to.rank_index()
                == from.rank_index() + pos@.to_move.dy() && crate::square::abs_diff(
                from.file_index(),
                to.file_index(),
            ) == 1),
{
    let mut moves = MoveList::new();
    pawn_moves(pos, &mut moves);
    knight_moves(pos, tables, &mut moves);
    bishop_moves(pos, tables, &mut moves);
    rook_moves(pos, tables, &mut moves);
    queen_moves(pos, tables, &mut moves);
    king_moves(pos, tables, &mut moves);
    proof {
        assert(moves@ =~= pos@.pseudo_moves());
        assert forall|cf: CastleFlag|
            cf == CastleFlag::short_of(pos@.to_move) || cf == CastleFlag::long_of(
                pos@.to_move,
            ) implies #[trigger] moves@.contains(
            Move::of(cf.king_from(), cf.king_to(), MoveKind::Castle),
        ) == (pos@.top().has_right(cf) && pos@.castle_path_clear(cf)) by {
            pos@.lemma_castle_generated(cf);
        }
        assert forall|from: Square, to: Square| from != to implies #[trigger] moves@.contains(
            Move::of(from, to, MoveKind::EnPassant),
        ) == (pos@.ep() == Some(to) && pos@.plain_pawns().contains(from) && to.rank_index()
            == from.rank_index() + pos@.to_move.dy() && crate::square::abs_diff(
            from.file_index(),
            to.file_index(),
        ) == 1) by {
            pos@.lemma_ep_generated(from, to);
        }
    }
    moves
}

/// The legal moves of the position: the pseudo-legal ones that pass the test of
/// legality, in the order of their generation. Each can be made.
pub fn legal(pos: &Position, tables: &Tables) -> (moves: MoveList)
    requires
        pos.inv(),
    ensures
        moves@ == pos@.legal_moves(),
        forall|i: int|
            0 <= i < moves@.len() ==> pos@.pseudo_ok(#[trigger] moves@[i]) && pos@.legal(
                moves@[i],
            ),
{
    let all = pseudo_legal(pos, tables);
    let mut moves = MoveList::new();
    let ghost pred = |m: Move| pos@.legal(m);
    let mut i: usize = 0;
    proof {
        reveal(Seq::filter);
        assert(all@.take(0) =~= Seq::<Move>::empty());
    }
    while i < all.len()
        invariant
            pos.inv(),
            i <= all@.len(),
            all_ok(pos@, all@),
            pred == |m: Move| pos@.legal(m),
            moves@ == all@.take(i as int).filter(pred),
            forall|j: int|
                0 <= j < moves@.len() ==> pos@.pseudo_ok(#[trigger] moves@[j]) && pos@.legal(
                    moves@[j],
                ),
        decreases all@.len() - i,
    {
        let m = all.get(i).unwrap();
        let ghost before = moves@;
        let keep = pos.is_legal(m, tables);
        if keep {
            moves.push(m);
        }
        proof {
            let head = all@.take(i as int);
            assert(all@.take(i + 1) =~= head.push(m));
            reveal(Seq::filter);
            assert(head.push(m).drop_last() =~= head);
            assert(pred(m) == pos@.legal(m));
            assert forall|j: int| 0 <= j < moves@.len() implies pos@.pseudo_ok(
                #[trigger] moves@[j],
            ) && pos@.legal(moves@[j]) by {
                if j < before.len() {
                    assert(moves@[j] == before[j]);
                }
            }
        }
        i += 1;
    }
    proof {
        assert(all@.take(i as int) =~= all@);
    }
    moves
}

} // verus!
