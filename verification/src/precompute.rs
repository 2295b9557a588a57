use vstd::prelude::*;

use crate::bitboard::{
    lemma_algebra, lemma_algebra_xy, lemma_empty, lemma_ext, lemma_from_set, lemma_has_xy,
    lemma_has_xy_at, lemma_shifted_xy, lemma_single, lemma_single_xy, Bitboard,
};
use crate::color::Color;
use crate::magic::{built, init_magics, MagicTable};
use crate::square::{
    abs_diff, aligned, between, is_kth, king_distance, lemma_square_eq, lemma_square_index,
    on_board, on_ray, ray_xy, scale, Direction, Square,
};

verus! {

/// The squares that a slide from `sq` in direction `d` passes over on an empty board.
pub open spec fn ray_spec(sq: Square, d: Direction) -> Bitboard {
    Bitboard::from_set(Set::new(|t: Square| on_ray(sq, d, t)))
}

/// Whether `t` lies on the rank, file or diagonal through `a` and `b`.
pub open spec fn on_line(a: Square, b: Square, t: Square) -> bool {
    exists|d: Direction| #[trigger]
        on_ray(a, d, b) && (t == a || on_ray(a, d, t) || on_ray(a, d.opposite(), t))
}

/// The whole rank, file or diagonal through `a` and `b`, from edge to edge; empty where
/// the two squares share none.
pub open spec fn line_spec(a: Square, b: Square) -> Bitboard {
    Bitboard::from_set(Set::new(|t: Square| on_line(a, b, t)))
}

/// The squares strictly between `a` and `b` on a line that they share; empty where they
/// share none.
pub open spec fn interval_spec(a: Square, b: Square) -> Bitboard {
    Bitboard::from_set(Set::new(|t: Square| between(a, b, t)))
}

/// Whether a knight on `sq` attacks `t`.
pub open spec fn knight_step(sq: Square, t: Square) -> bool {
    let x = abs_diff(sq.file_index(), t.file_index());
    let y = abs_diff(sq.rank_index(), t.rank_index());
    (x == 1 && y == 2) || (x == 2 && y == 1)
}

/// Whether a pawn of `color` on `sq` attacks `t`: one rank forward, one file aside.
pub open spec fn pawn_step(sq: Square, color: Color, t: Square) -> bool {
    t.rank_index() == sq.rank_index() + color.dy() && abs_diff(sq.file_index(), t.file_index())
        == 1
}

/// The squares that a knight on `sq` attacks.
pub open spec fn knight_spec(sq: Square) -> Bitboard {
    Bitboard::from_set(Set::new(|t: Square| knight_step(sq, t)))
}

/// The squares that a king on `sq` attacks.
pub open spec fn king_spec(sq: Square) -> Bitboard {
    Bitboard::from_set(Set::new(|t: Square| king_distance(sq, t) == 1))
}

/// The squares that a pawn of `color` on `sq` attacks.
pub open spec fn pawn_spec(sq: Square, color: Color) -> Bitboard {
    Bitboard::from_set(Set::new(|t: Square| pawn_step(sq, color, t)))
}

/// Whether a slide from `sq` in direction `d` reaches `t`: `t` lies on the ray and no
/// square strictly between is occupied. The first occupied square is reached.
pub open spec fn reaches(sq: Square, occ: Bitboard, d: Direction, t: Square) -> bool {
    on_ray(sq, d, t) && forall|u: Square|
        on_ray(sq, d, u) && on_ray(u, d, t) ==> !(#[trigger] occ.contains(u))
}

/// The squares that a slide from `sq` in direction `d` reaches.
pub open spec fn slide_spec(sq: Square, occ: Bitboard, d: Direction) -> Bitboard {
    Bitboard::from_set(Set::new(|t: Square| reaches(sq, occ, d, t)))
}

/// Whether a slide from `sq` in one of the directions `dirs` reaches `t`.
pub open spec fn reaches_any(sq: Square, occ: Bitboard, dirs: Seq<Direction>, t: Square) -> bool {
    exists|i: int| 0 <= i < dirs.len() && reaches(sq, occ, #[trigger] dirs[i], t)
}

/// The squares that a slider on `sq` attacks, sliding in the directions `dirs`.
pub open spec fn sliders_spec(sq: Square, occ: Bitboard, dirs: Seq<Direction>) -> Bitboard {
    Bitboard::from_set(Set::new(|t: Square| reaches_any(sq, occ, dirs, t)))
}

/// Whether a bishop on `sq` attacks `t` when the squares of `occ` are occupied.
pub open spec fn bishop_reaches(sq: Square, occ: Bitboard, t: Square) -> bool {
    exists|d: Direction| d.is_diagonal() && #[trigger] reaches(sq, occ, d, t)
}

/// Whether a rook on `sq` attacks `t` when the squares of `occ` are occupied.
pub open spec fn rook_reaches(sq: Square, occ: Bitboard, t: Square) -> bool {
    exists|d: Direction| d.is_orthogonal() && #[trigger] reaches(sq, occ, d, t)
}

/// The squares that a bishop on `sq` attacks when the squares of `occ` are occupied.
pub open spec fn bishop_spec(sq: Square, occ: Bitboard) -> Bitboard {
    Bitboard::from_set(Set::new(|t: Square| bishop_reaches(sq, occ, t)))
}

/// The squares that a rook on `sq` attacks when the squares of `occ` are occupied.
pub open spec fn rook_spec(sq: Square, occ: Bitboard) -> Bitboard {
    Bitboard::from_set(Set::new(|t: Square| rook_reaches(sq, occ, t)))
}

/// The squares that a queen on `sq` attacks when the squares of `occ` are occupied.
pub open spec fn queen_spec(sq: Square, occ: Bitboard) -> Bitboard {
    bishop_spec(sq, occ).or(rook_spec(sq, occ))
}

/// A square on a ray is some number of steps, one to seven, along it.
pub proof fn lemma_ray_steps(ax: int, ay: int, d: Direction, x: int, y: int)
    requires
        on_board(ax, ay),
        on_board(x, y),
    ensures
        ray_xy(ax, ay, d, x, y) <==> exists|k: int| 1 <= k <= 7 && #[trigger] is_kth(
            ax,
            ay,
            d,
            k,
            x,
            y,
        ),
{
    if ray_xy(ax, ay, d, x, y) {
        let k = if x - ax != 0 {
            abs_diff(x, ax)
        } else {
            abs_diff(y, ay)
        };
        assert(is_kth(ax, ay, d, k, x, y));
    }
}

/// The ray from `sq` in direction `d`, found by stepping until the board ends.
#[verifier::rlimit(50)]
pub fn compute_ray(sq: Square, d: Direction) -> (r: Bitboard)
    ensures
        r == ray_spec(sq, d),
{
    let mut s = Bitboard::from_square(sq);
    let mut r = Bitboard::new(0);
    let ghost mut n: int = 0;
    let ghost ax = sq.file_index();
    let ghost ay = sq.rank_index();
    proof {
        lemma_square_index(sq);
        assert forall|x: int, y: int| #[trigger]
            s.has_xy(x, y) == (on_board(x, y) && is_kth(ax, ay, d, n, x, y)) by {
            lemma_single_xy(sq, x, y);
        }
        assert forall|x: int, y: int| !(#[trigger] r.has_xy(x, y)) by {
            lemma_algebra_xy(r, r, x, y);
        }
    }
    while s.nonzero()
        invariant
            0 <= n <= 8,
            ax == sq.file_index(),
            ay == sq.rank_index(),
            on_board(ax, ay),
            forall|x: int, y: int| #[trigger]
                s.has_xy(x, y) == (on_board(x, y) && is_kth(ax, ay, d, n, x, y)),
            forall|x: int, y: int| #[trigger]
                r.has_xy(x, y) == (on_board(x, y) && exists|k: int|
                    1 <= k <= n && #[trigger] is_kth(ax, ay, d, k, x, y)),
        decreases 8 - n,
    {
        proof {
            lemma_empty(s);
            let t = choose|t: Square| s.contains(t);
            lemma_has_xy(s, t);
            assert(s.has_xy(t.file_index(), t.rank_index()));
            assert(n <= 7);
        }
        let ghost s0 = s;
        let ghost r0 = r;
        s = s.shift(d);
        r.bitor_assign(s);
        proof {
            assert forall|x: int, y: int| #[trigger]
                s.has_xy(x, y) == (on_board(x, y) && is_kth(ax, ay, d, n + 1, x, y)) by {
                lemma_shifted_xy(s0, d, x, y);
                assert(s0.has_xy(x - d.dx(), y - d.dy()) == (on_board(x - d.dx(), y - d.dy())
                    && is_kth(ax, ay, d, n, x - d.dx(), y - d.dy())));
            }
            assert forall|x: int, y: int| #[trigger]
                r.has_xy(x, y) == (on_board(x, y) && exists|k: int|
                    1 <= k <= n + 1 && #[trigger] is_kth(ax, ay, d, k, x, y)) by {
                lemma_algebra_xy(r0, s, x, y);
                if s.has_xy(x, y) {
                    assert(is_kth(ax, ay, d, n + 1, x, y));
                }
                if r0.has_xy(x, y) {
                    let k = choose|k: int| 1 <= k <= n && #[trigger] is_kth(ax, ay, d, k, x, y);
                    assert(is_kth(ax, ay, d, k, x, y));
                }
            }
            n = n + 1;
        }
    }
    proof {
        assert forall|t: Square| r.contains(t) == ray_spec(sq, d).contains(t) by {
            lemma_from_set(Set::new(|t: Square| on_ray(sq, d, t)), t);
            lemma_has_xy(r, t);
            lemma_square_index(t);
            let x = t.file_index();
            let y = t.rank_index();
            lemma_ray_steps(ax, ay, d, x, y);
            if on_ray(sq, d, t) {
                let k = choose|k: int| 1 <= k <= 7 && #[trigger] is_kth(ax, ay, d, k, x, y);
                if k >= n {
                    let px = ax + scale(d.dx(), n);
                    let py = ay + scale(d.dy(), n);
                    assert(on_board(px, py));
                    assert(s.has_xy(px, py));
                    lemma_has_xy_at(s, px, py);
                    lemma_empty(s);
                    assert(false);
                }
                assert(is_kth(ax, ay, d, k, x, y));
            }
        }
        lemma_ext(r, ray_spec(sq, d));
    }
    r
}

/// The squares that a pawn of `color` on `sq` attacks, found by shifting.
pub fn compute_pawn(sq: Square, color: Color) -> (r: Bitboard)
    ensures
        r == pawn_spec(sq, color),
{
    let s = Bitboard::from_square(sq);
    let w = s.shift(Direction::West);
    let e = s.shift(Direction::East);
    let sides = w.bitor(e);
    let r = sides.shift(color.forward());
    proof {
        let d = color.forward_spec();
        assert forall|t: Square| r.contains(t) == pawn_spec(sq, color).contains(t) by {
            lemma_from_set(Set::new(|t: Square| pawn_step(sq, color, t)), t);
            lemma_has_xy(r, t);
            lemma_square_index(t);
            lemma_square_index(sq);
            let x = t.file_index();
            let y = t.rank_index();
            lemma_shifted_xy(sides, d, x, y);
            lemma_algebra_xy(w, e, x, y - d.dy());
            lemma_shifted_xy(s, Direction::West, x, y - d.dy());
            lemma_shifted_xy(s, Direction::East, x, y - d.dy());
            lemma_single_xy(sq, x + 1, y - d.dy());
            lemma_single_xy(sq, x - 1, y - d.dy());
        }
        lemma_ext(r, pawn_spec(sq, color));
    }
    r
}

/// The squares that a king on `sq` attacks, found by shifting.
pub fn compute_king(sq: Square) -> (r: Bitboard)
    ensures
        r == king_spec(sq),
{
    let s = Bitboard::from_square(sq);
    let w = s.shift(Direction::West);
    let e = s.shift(Direction::East);
    let sides = w.bitor(e);
    let row = sides.bitor(s);
    let up = row.shift(Direction::North);
    let down = row.shift(Direction::South);
    let r = up.bitor(down).bitor(sides);
    proof {
        assert forall|t: Square| r.contains(t) == king_spec(sq).contains(t) by {
            lemma_from_set(Set::new(|t: Square| king_distance(sq, t) == 1), t);
            lemma_has_xy(r, t);
            lemma_square_index(t);
            lemma_square_index(sq);
            let x = t.file_index();
            let y = t.rank_index();
            lemma_algebra_xy(up.or(down), sides, x, y);
            lemma_algebra_xy(up, down, x, y);
            lemma_shifted_xy(row, Direction::North, x, y);
            lemma_shifted_xy(row, Direction::South, x, y);
            lemma_row_xy(sq, x, y - 1);
            lemma_row_xy(sq, x, y + 1);
            lemma_row_xy(sq, x, y);
        }
        lemma_ext(r, king_spec(sq));
    }
    r
}

/// The files and ranks of a square together with its neighbours to the east and west.
proof fn lemma_row_xy(sq: Square, x: int, y: int)
    ensures
        ({
            let s = Bitboard::single(sq);
            let w = s.shifted(Direction::West);
            let e = s.shifted(Direction::East);
            &&& w.or(e).has_xy(x, y) == (on_board(x, y) && y == sq.rank_index() && abs_diff(
                x,
                sq.file_index(),
            ) == 1)
            &&& w.or(e).or(s).has_xy(x, y) == (on_board(x, y) && y == sq.rank_index() && abs_diff(
                x,
                sq.file_index(),
            ) <= 1)
        }),
{
    let s = Bitboard::single(sq);
    let w = s.shifted(Direction::West);
    let e = s.shifted(Direction::East);
    lemma_square_index(sq);
    lemma_algebra_xy(w.or(e), s, x, y);
    lemma_algebra_xy(w, e, x, y);
    lemma_shifted_xy(s, Direction::West, x, y);
    lemma_shifted_xy(s, Direction::East, x, y);
    lemma_single_xy(sq, x + 1, y);
    lemma_single_xy(sq, x - 1, y);
    lemma_single_xy(sq, x, y);
}

/// The squares two steps in direction `v` and one step aside, or one step in
/// direction `v` and two steps aside.
fn knight_half(s: Bitboard, v: Direction, Ghost(sq): Ghost<Square>) -> (r: Bitboard)
    requires
        s == Bitboard::single(sq),
        v == Direction::North || v == Direction::South,
    ensures
        forall|x: int, y: int| #[trigger]
            r.has_xy(x, y) == (on_board(x, y) && ((y == sq.rank_index() + 2 * v.dy() && abs_diff(
                x,
                sq.file_index(),
            ) == 1) || (y == sq.rank_index() + v.dy() && abs_diff(x, sq.file_index()) == 2))),
{
    let one = s.shift(v);
    let two = one.shift(v);
    let dde = two.shift(Direction::East);
    let ddw = two.shift(Direction::West);
    let de = one.shift(Direction::East);
    let dw = one.shift(Direction::West);
    let dee = de.shift(Direction::East);
    let dww = dw.shift(Direction::West);
    let r = dde.bitor(ddw).bitor(dee).bitor(dww);
    proof {
        lemma_square_index(sq);
        assert forall|x: int, y: int| #[trigger]
            r.has_xy(x, y) == (on_board(x, y) && ((y == sq.rank_index() + 2 * v.dy() && abs_diff(
                x,
                sq.file_index(),
            ) == 1) || (y == sq.rank_index() + v.dy() && abs_diff(x, sq.file_index())
                == 2))) by {
            lemma_algebra_xy(dde.or(ddw).or(dee), dww, x, y);
            lemma_algebra_xy(dde.or(ddw), dee, x, y);
            lemma_algebra_xy(dde, ddw, x, y);
            lemma_shifted_xy(two, Direction::East, x, y);
            lemma_shifted_xy(two, Direction::West, x, y);
            lemma_shifted_xy(de, Direction::East, x, y);
            lemma_shifted_xy(dw, Direction::West, x, y);
            lemma_shifted_xy(one, Direction::East, x - 1, y);
            lemma_shifted_xy(one, Direction::West, x + 1, y);
            lemma_shifted_xy(one, v, x - 1, y);
            lemma_shifted_xy(one, v, x + 1, y);
            lemma_shifted_xy(s, v, x - 1, y - v.dy());
            lemma_shifted_xy(s, v, x + 1, y - v.dy());
            lemma_shifted_xy(s, v, x - 2, y);
            lemma_shifted_xy(s, v, x + 2, y);
            lemma_single_xy(sq, x - 1, y - 2 * v.dy());
            lemma_single_xy(sq, x + 1, y - 2 * v.dy());
            lemma_single_xy(sq, x - 2, y - v.dy());
            lemma_single_xy(sq, x + 2, y - v.dy());
        }
    }
    r
}

/// The squares that a knight on `sq` attacks, found by shifting.
pub fn compute_knight(sq: Square) -> (r: Bitboard)
    ensures
        r == knight_spec(sq),
{
    let s = Bitboard::from_square(sq);
    let north = knight_half(s, Direction::North, Ghost(sq));
    let south = knight_half(s, Direction::South, Ghost(sq));
    let r = north.bitor(south);
    proof {
        assert forall|t: Square| r.contains(t) == knight_spec(sq).contains(t) by {
            lemma_from_set(Set::new(|t: Square| knight_step(sq, t)), t);
            lemma_has_xy(r, t);
            lemma_square_index(t);
            lemma_square_index(sq);
            lemma_algebra_xy(north, south, t.file_index(), t.rank_index());
        }
        lemma_ext(r, knight_spec(sq));
    }
    r
}

/// At most one direction leads from one square to another.
pub proof fn lemma_ray_unique(a: Square, d1: Direction, d2: Direction, t: Square)
    requires
        on_ray(a, d1, t),
        on_ray(a, d2, t),
    ensures
        d1 == d2,
{
}

/// Going on in the same direction stays on the ray, and looking back from a square on
/// the ray shows its start in the opposite direction.
pub proof fn lemma_ray_chain(a: Square, d: Direction, u: Square, t: Square)
    ensures
        on_ray(a, d, u) && on_ray(u, d, t) ==> on_ray(a, d, t),
        on_ray(a, d, u) == on_ray(u, d.opposite(), a),
        !on_ray(a, d, a),
{
}

/// Of two different squares on one ray, the one nearer to the start sees the other in
/// the direction of the ray, and it has the lower number exactly when the direction
/// leads to higher numbers.
pub proof fn lemma_ray_order(a: Square, d: Direction, u: Square, t: Square)
    requires
        on_ray(a, d, u),
        on_ray(a, d, t),
        u != t,
    ensures
        on_ray(u, d, t) || on_ray(t, d, u),
        on_ray(u, d, t) == ((u.index() < t.index()) == (d.dx() + 8 * d.dy() > 0)),
{
    lemma_square_index(a);
    lemma_square_index(u);
    lemma_square_index(t);
    if u.file_index() == t.file_index() && u.rank_index() == t.rank_index() {
        lemma_square_eq(u, t);
    }
}

/// The squares between two squares are the same in whichever order the two are given.
pub proof fn lemma_interval_symmetric(a: Square, b: Square)
    ensures
        interval_spec(a, b) == interval_spec(b, a),
{
    assert forall|t: Square| interval_spec(a, b).contains(t) == interval_spec(b, a).contains(
        t,
    ) by {
        lemma_from_set(Set::new(|t: Square| between(a, b, t)), t);
        lemma_from_set(Set::new(|t: Square| between(b, a, t)), t);
        if between(a, b, t) {
            let d = choose|d: Direction| on_ray(a, d, t) && #[trigger] on_ray(t, d, b);
            lemma_ray_chain(a, d, t, b);
            lemma_ray_chain(t, d, b, a);
            assert(on_ray(b, d.opposite(), t) && on_ray(t, d.opposite(), a));
        }
        if between(b, a, t) {
            let d = choose|d: Direction| on_ray(b, d, t) && #[trigger] on_ray(t, d, a);
            lemma_ray_chain(b, d, t, a);
            lemma_ray_chain(t, d, a, b);
            assert(on_ray(a, d.opposite(), t) && on_ray(t, d.opposite(), b));
        }
    }
    lemma_ext(interval_spec(a, b), interval_spec(b, a));
}

/// Two squares that share no rank, file or diagonal have nothing between them.
pub proof fn lemma_interval_unaligned(a: Square, b: Square)
    requires
        !aligned(a, b),
    ensures
        interval_spec(a, b).is_empty(),
{
    assert forall|t: Square| !interval_spec(a, b).contains(t) by {
        lemma_from_set(Set::new(|t: Square| between(a, b, t)), t);
        if between(a, b, t) {
            let d = choose|d: Direction| on_ray(a, d, t) && #[trigger] on_ray(t, d, b);
            lemma_ray_chain(a, d, t, b);
            assert(on_ray(a, d, b));
        }
    }
    lemma_empty(interval_spec(a, b));
}

/// The squares between two squares include neither of the two.
pub proof fn lemma_interval_open(a: Square, b: Square)
    ensures
        !interval_spec(a, b).contains(a),
        !interval_spec(a, b).contains(b),
{
    lemma_from_set(Set::new(|t: Square| between(a, b, t)), a);
    lemma_from_set(Set::new(|t: Square| between(a, b, t)), b);
    assert forall|d: Direction| !on_ray(a, d, a) && !on_ray(b, d, b) by {
        lemma_ray_chain(a, d, a, a);
        lemma_ray_chain(b, d, b, b);
    }
}

/// Where `d` leads from `a` to `b`, the squares between them are those that `a` sees
/// in direction `d` and `b` sees in the opposite direction.
pub proof fn lemma_interval_rays(a: Square, b: Square, d: Direction)
    requires
        on_ray(a, d, b),
    ensures
        interval_spec(a, b) == ray_spec(a, d).and(ray_spec(b, d.opposite())),
{
    let r = ray_spec(a, d).and(ray_spec(b, d.opposite()));
    assert forall|t: Square| interval_spec(a, b).contains(t) == r.contains(t) by {
        lemma_from_set(Set::new(|t: Square| between(a, b, t)), t);
        lemma_from_set(Set::new(|t: Square| on_ray(a, d, t)), t);
        lemma_from_set(Set::new(|t: Square| on_ray(b, d.opposite(), t)), t);
        lemma_algebra(ray_spec(a, d), ray_spec(b, d.opposite()), t);
        lemma_ray_chain(t, d, b, b);
        if between(a, b, t) {
            let e = choose|e: Direction| on_ray(a, e, t) && #[trigger] on_ray(t, e, b);
            lemma_ray_chain(a, e, t, b);
            lemma_ray_unique(a, d, e, b);
        }
    }
    lemma_ext(interval_spec(a, b), r);
}

/// The precomputed attack tables: rays, lines, and the attacks of knights, kings and
/// pawns from every square.
pub struct Tables {
    rays: Vec<Bitboard>,
    lines: Vec<Bitboard>,
    knight: Vec<Bitboard>,
    king: Vec<Bitboard>,
    pawns: Vec<Bitboard>,
    bishops: MagicTable,
    rooks: MagicTable,
}

/// Builds all the tables. This is done once, before any position is used; the tables
/// are then handed to whoever needs them.
pub fn initialize() -> (r: Tables)
    ensures
        r.wf(),
        built(r.bishop_table(), false, false),
        built(r.rook_table(), true, false),
{
    Tables::new()
}

/// The side with number `i`: White for 0, Black otherwise.
pub open spec fn color_at(i: int) -> Color {
    if i == 0 {
        Color::White
    } else {
        Color::Black
    }
}

/// Whether the first `n` entries of a table of rays are right.
pub open spec fn rays_ok(rays: Seq<Bitboard>, n: int) -> bool {
    forall|k: int|
        0 <= k < n ==> #[trigger] rays[k] == ray_spec(Square::at(k / 8), Direction::at(k % 8))
}

/// Whether the first `n` entries of a table of lines are right.
pub open spec fn lines_ok(lines: Seq<Bitboard>, n: int) -> bool {
    forall|k: int|
        0 <= k < n ==> #[trigger] lines[k] == line_spec(Square::at(k / 64), Square::at(k % 64))
}

/// Whether the first `n` entries of a table of knight attacks are right.
pub open spec fn knights_ok(knight: Seq<Bitboard>, n: int) -> bool {
    forall|k: int| 0 <= k < n ==> #[trigger] knight[k] == knight_spec(Square::at(k))
}

/// Whether the first `n` entries of a table of king attacks are right.
pub open spec fn kings_ok(king: Seq<Bitboard>, n: int) -> bool {
    forall|k: int| 0 <= k < n ==> #[trigger] king[k] == king_spec(Square::at(k))
}

/// Whether the first `n` entries of a table of pawn attacks are right.
pub open spec fn pawns_ok(pawns: Seq<Bitboard>, n: int) -> bool {
    forall|k: int|
        0 <= k < n ==> #[trigger] pawns[k] == pawn_spec(Square::at(k / 2), color_at(k % 2))
}

/// The whole line through `a` and `b`, put together from the rays that leave `a`.
fn compute_line(rays: &Vec<Bitboard>, a: Square, b: Square) -> (r: Bitboard)
    requires
        rays@.len() == 512,
        rays_ok(rays@, 512),
    ensures
        r == line_spec(a, b),
{
    proof {
        lemma_square_index(a);
    }
    match a.dir_to(b) {
        Some(d) => {
            let e = d.not();
            let i: usize = a.idx() as usize * 8 + d as usize;
            let j: usize = a.idx() as usize * 8 + e as usize;
            let r = rays[i].bitor(rays[j]).bitor(Bitboard::from_square(a));
            proof {
                assert(rays@[i as int] == ray_spec(a, d));
                assert(rays@[j as int] == ray_spec(a, e));
                assert forall|t: Square| r.contains(t) == line_spec(a, b).contains(t) by {
                    lemma_from_set(Set::new(|t: Square| on_line(a, b, t)), t);
                    lemma_from_set(Set::new(|t: Square| on_ray(a, d, t)), t);
                    lemma_from_set(Set::new(|t: Square| on_ray(a, e, t)), t);
                    lemma_algebra(rays@[i as int].or(rays@[j as int]), Bitboard::single(a), t);
                    lemma_algebra(rays@[i as int], rays@[j as int], t);
                    lemma_single(a, t);
                    if on_line(a, b, t) {
                        let f = choose|f: Direction| #[trigger]
                            on_ray(a, f, b) && (t == a || on_ray(a, f, t) || on_ray(
                                a,
                                f.opposite(),
                                t,
                            ));
                        lemma_ray_unique(a, d, f, b);
                    }
                }
                lemma_ext(r, line_spec(a, b));
            }
            r
        },
        None => {
            let r = Bitboard::new(0);
            proof {
                assert forall|t: Square| r.contains(t) == line_spec(a, b).contains(t) by {
                    lemma_from_set(Set::new(|t: Square| on_line(a, b, t)), t);
                    lemma_algebra(r, r, t);
                }
                lemma_ext(r, line_spec(a, b));
            }
            r
        },
    }
}

impl Tables {
    /// Whether every entry of every table is the set that it stands for.
    #[verifier::type_invariant]
    pub closed spec fn wf(&self) -> bool {
        &&& self.rays@.len() == 512
        &&& rays_ok(self.rays@, 512)
        &&& self.lines@.len() == 4096
        &&& lines_ok(self.lines@, 4096)
        &&& self.knight@.len() == 64
        &&& knights_ok(self.knight@, 64)
        &&& self.king@.len() == 64
        &&& kings_ok(self.king@, 64)
        &&& self.pawns@.len() == 128
        &&& pawns_ok(self.pawns@, 128)
        &&& self.bishops.wf()
        &&& built(self.bishops, false, false)
        &&& self.rooks.wf()
        &&& built(self.rooks, true, false)
    }

    /// Builds the tables: the rays, the lines, the attacks of knights, kings and pawns,
    /// and the magic tables of the bishop and of the rook.
    pub fn new() -> (r: Tables)
        ensures
            r.wf(),
            built(r.bishop_table(), false, false),
            built(r.rook_table(), true, false),
    {
        let mut rays: Vec<Bitboard> = Vec::new();
        let mut k: usize = 0;
        while k < 512
            invariant
                k <= 512,
                rays@.len() == k,
                rays_ok(rays@, k as int),
            decreases 512 - k,
        {
            let sq = Square::from_index((k / 8) as u8);
            let d = Direction::from_index((k % 8) as u8);
            let r = compute_ray(sq, d);
            rays.push(r);
            k += 1;
        }
        let mut lines: Vec<Bitboard> = Vec::new();
        k = 0;
        while k < 4096
            invariant
                k <= 4096,
                rays@.len() == 512,
                rays_ok(rays@, 512),
                lines@.len() == k,
                lines_ok(lines@, k as int),
            decreases 4096 - k,
        {
            let a = Square::from_index((k / 64) as u8);
            let b = Square::from_index((k % 64) as u8);
            let r = compute_line(&rays, a, b);
            lines.push(r);
            k += 1;
        }
        let mut knight: Vec<Bitboard> = Vec::new();
        let mut king: Vec<Bitboard> = Vec::new();
        let mut pawns: Vec<Bitboard> = Vec::new();
        k = 0;
        while k < 64
            invariant
                k <= 64,
                knight@.len() == k,
                knights_ok(knight@, k as int),
                king@.len() == k,
                kings_ok(king@, k as int),
                pawns@.len() == 2 * k,
                pawns_ok(pawns@, 2 * k),
            decreases 64 - k,
        {
            let sq = Square::from_index(k as u8);
            pawns.push(compute_pawn(sq, Color::White));
            pawns.push(compute_pawn(sq, Color::Black));
            king.push(compute_king(sq));
            knight.push(compute_knight(sq));
            k += 1;
        }
        let (bishops, rooks) = init_magics();
        Tables { rays, lines, knight, king, pawns, bishops, rooks }
    }

    /// The squares that a slide from `square` in direction `dir` passes over on an
    /// empty board.
    #[inline]
    #[verifier::rlimit(50)]
    pub fn ray(&self, square: Square, dir: Direction) -> (r: Bitboard)
        ensures
            r == ray_spec(square, dir),
    {
        let i: usize = square.idx() as usize * 8 + dir as usize;
        proof {
            use_type_invariant(self);
            lemma_square_index(square);
            assert(i as int / 8 == square.index());
            assert(i as int % 8 == dir.index());
            assert(Direction::at(dir.index()) == dir);
            assert(self.rays@[i as int] == ray_spec(Square::at(i as int / 8), Direction::at(i as int % 8)));
        }
        self.rays[i]
    }

    /// The whole rank, file or diagonal through `a` and `b`; empty where they share
    /// none.
    #[inline]
    #[verifier::rlimit(50)]
    pub fn line(&self, a: Square, b: Square) -> (r: Bitboard)
        ensures
            r == line_spec(a, b),
    {
        let i: usize = a.idx() as usize * 64 + b.idx() as usize;
        proof {
            use_type_invariant(self);
            lemma_square_index(a);
            lemma_square_index(b);
            assert(i as int / 64 == a.index());
            assert(i as int % 64 == b.index());
            assert(self.lines@[i as int] == line_spec(
                Square::at(i as int / 64),
                Square::at(i as int % 64),
            ));
        }
        self.lines[i]
    }

    /// The squares that a pawn of `color` on `square` attacks.
    #[inline]
    #[verifier::rlimit(50)]
    pub fn pawn_attacks(&self, square: Square, color: Color) -> (r: Bitboard)
        ensures
            r == pawn_spec(square, color),
    {
        let i: usize = square.idx() as usize * 2 + color as usize;
        proof {
            use_type_invariant(self);
            lemma_square_index(square);
            assert(i as int / 2 == square.index());
            assert(color_at(i as int % 2) == color);
            assert(self.pawns@[i as int] == pawn_spec(
                Square::at(i as int / 2),
                color_at(i as int % 2),
            ));
        }
        self.pawns[i]
    }

    /// The squares that a knight on `square` attacks.
    #[inline]
    pub fn knight_attacks(&self, square: Square) -> (r: Bitboard)
        ensures
            r == knight_spec(square),
    {
        proof {
            use_type_invariant(self);
            lemma_square_index(square);
        }
        self.knight[square.idx() as usize]
    }

    /// The squares that a king on `square` attacks.
    #[inline]
    pub fn king_attacks(&self, square: Square) -> (r: Bitboard)
        ensures
            r == king_spec(square),
    {
        proof {
            use_type_invariant(self);
            lemma_square_index(square);
        }
        self.king[square.idx() as usize]
    }

    /// The squares that a slide from `square` in direction `dir` reaches: the ray up to
    /// and including the first occupied square.
    #[verifier::rlimit(50)]
    pub fn slide(&self, square: Square, occupancy: Bitboard, dir: Direction) -> (r: Bitboard)
        ensures
            r == slide_spec(square, occupancy, dir),
    {
        let attacks = self.ray(square, dir);
        let blockers = attacks.bitand(occupancy);
        if blockers.nonzero() {
            let blocker = if dir.is_forward() {
                blockers.lsb()
            } else {
                blockers.msb()
            };
            let tail = self.ray(blocker, dir);
            let r = attacks.bitxor(tail);
            proof {
                lemma_algebra(attacks, occupancy, blocker);
                lemma_from_set(Set::new(|t: Square| on_ray(square, dir, t)), blocker);
                assert forall|t: Square|
                    r.contains(t) == slide_spec(square, occupancy, dir).contains(t) by {
                    lemma_from_set(Set::new(|t: Square| reaches(square, occupancy, dir, t)), t);
                    lemma_from_set(Set::new(|t: Square| on_ray(square, dir, t)), t);
                    lemma_from_set(Set::new(|t: Square| on_ray(blocker, dir, t)), t);
                    lemma_algebra(attacks, tail, t);
                    lemma_ray_chain(square, dir, blocker, t);
                    if on_ray(square, dir, t) && !on_ray(blocker, dir, t) {
                        assert forall|u: Square|
                            on_ray(square, dir, u) && on_ray(u, dir, t) implies !(
                            #[trigger] occupancy.contains(u)) by {
                            if occupancy.contains(u) {
                                lemma_algebra(attacks, occupancy, u);
                                lemma_from_set(Set::new(|t: Square| on_ray(square, dir, t)), u);
                                assert(blockers.contains(u));
                                if u != blocker {
                                    lemma_ray_order(square, dir, blocker, u);
                                    lemma_ray_chain(blocker, dir, u, t);
                                }
                            }
                        }
                    }
                }
                lemma_ext(r, slide_spec(square, occupancy, dir));
            }
            r
        } else {
            proof {
                lemma_empty(blockers);
                assert forall|t: Square|
                    attacks.contains(t) == slide_spec(square, occupancy, dir).contains(t) by {
                    lemma_from_set(Set::new(|t: Square| reaches(square, occupancy, dir, t)), t);
                    lemma_from_set(Set::new(|t: Square| on_ray(square, dir, t)), t);
                    if on_ray(square, dir, t) {
                        assert forall|u: Square|
                            on_ray(square, dir, u) && on_ray(u, dir, t) implies !(
                            #[trigger] occupancy.contains(u)) by {
                            lemma_algebra(attacks, occupancy, u);
                            lemma_from_set(Set::new(|t: Square| on_ray(square, dir, t)), u);
                        }
                    }
                }
                lemma_ext(attacks, slide_spec(square, occupancy, dir));
            }
            attacks
        }
    }

    /// The squares that a slider on `square` attacks when it slides in the directions
    /// `dirs`, found by cutting each ray at its first occupied square.
    pub fn sliders(&self, square: Square, occupancy: Bitboard, dirs: &[Direction]) -> (r:
        Bitboard)
        ensures
            r == sliders_spec(square, occupancy, dirs@),
    {
        let mut rv = Bitboard::new(0);
        let mut i: usize = 0;
        proof {
            lemma_empty(rv);
        }
        while i < dirs.len()
            invariant
                i <= dirs@.len(),
                forall|t: Square| #[trigger]
                    rv.contains(t) == reaches_any(square, occupancy, dirs@.take(i as int), t),
            decreases dirs@.len() - i,
        {
            let part = self.slide(square, occupancy, dirs[i]);
            let ghost before = rv;
            rv.bitor_assign(part);
            proof {
                let d0 = dirs@.take(i as int);
                let d1 = dirs@.take(i + 1);
                assert forall|t: Square| #[trigger]
                    rv.contains(t) == reaches_any(square, occupancy, d1, t) by {
                    lemma_algebra(before, part, t);
                    lemma_from_set(
                        Set::new(|t: Square| reaches(square, occupancy, dirs@[i as int], t)),
                        t,
                    );
                    if reaches_any(square, occupancy, d0, t) {
                        let j = choose|j: int|
                            0 <= j < d0.len() && reaches(square, occupancy, #[trigger] d0[j], t);
                        assert(d1[j] == d0[j]);
                    }
                    if part.contains(t) {
                        assert(d1[i as int] == dirs@[i as int]);
                    }
                    if reaches_any(square, occupancy, d1, t) {
                        let j = choose|j: int|
                            0 <= j < d1.len() && reaches(square, occupancy, #[trigger] d1[j], t);
                        if j < i {
                            assert(d0[j] == d1[j]);
                        }
                    }
                }
            }
            i += 1;
        }
        proof {
            assert(dirs@.take(i as int) =~= dirs@);
            assert forall|t: Square|
                rv.contains(t) == sliders_spec(square, occupancy, dirs@).contains(t) by {
                lemma_from_set(
                    Set::new(|t: Square| reaches_any(square, occupancy, dirs@, t)),
                    t,
                );
            }
            lemma_ext(rv, sliders_spec(square, occupancy, dirs@));
        }
        rv
    }
}

/// Sliding in any of the four diagonal directions is what a bishop does, and sliding in
/// any of the four others is what a rook does.
pub proof fn lemma_sliders_by_kind(sq: Square, occ: Bitboard, dirs: Seq<Direction>)
    ensures
        (forall|d: Direction| #[trigger] dirs.contains(d) <==> d.is_diagonal()) ==> sliders_spec(
            sq,
            occ,
            dirs,
        ) == bishop_spec(sq, occ),
        (forall|d: Direction| #[trigger] dirs.contains(d) <==> d.is_orthogonal())
            ==> sliders_spec(sq, occ, dirs) == rook_spec(sq, occ),
{
    if forall|d: Direction| #[trigger] dirs.contains(d) <==> d.is_diagonal() {
        assert forall|t: Square|
            sliders_spec(sq, occ, dirs).contains(t) == bishop_spec(sq, occ).contains(t) by {
            lemma_from_set(Set::new(|t: Square| reaches_any(sq, occ, dirs, t)), t);
            lemma_from_set(Set::new(|t: Square| bishop_reaches(sq, occ, t)), t);
            if reaches_any(sq, occ, dirs, t) {
                let i = choose|i: int| 0 <= i < dirs.len() && reaches(sq, occ, #[trigger] dirs[i], t);
                assert(dirs.contains(dirs[i]));
            }
            if bishop_reaches(sq, occ, t) {
                let d = choose|d: Direction| d.is_diagonal() && #[trigger] reaches(sq, occ, d, t);
                assert(dirs.contains(d));
                let i = choose|i: int| 0 <= i < dirs.len() && dirs[i] == d;
                assert(reaches(sq, occ, dirs[i], t));
            }
        }
        lemma_ext(sliders_spec(sq, occ, dirs), bishop_spec(sq, occ));
    }
    if forall|d: Direction| #[trigger] dirs.contains(d) <==> d.is_orthogonal() {
        assert forall|t: Square|
            sliders_spec(sq, occ, dirs).contains(t) == rook_spec(sq, occ).contains(t) by {
            lemma_from_set(Set::new(|t: Square| reaches_any(sq, occ, dirs, t)), t);
            lemma_from_set(Set::new(|t: Square| rook_reaches(sq, occ, t)), t);
            if reaches_any(sq, occ, dirs, t) {
                let i = choose|i: int| 0 <= i < dirs.len() && reaches(sq, occ, #[trigger] dirs[i], t);
                assert(dirs.contains(dirs[i]));
            }
            if rook_reaches(sq, occ, t) {
                let d = choose|d: Direction| d.is_orthogonal() && #[trigger] reaches(sq, occ, d, t);
                assert(dirs.contains(d));
                let i = choose|i: int| 0 <= i < dirs.len() && dirs[i] == d;
                assert(reaches(sq, occ, dirs[i], t));
            }
        }
        lemma_ext(sliders_spec(sq, occ, dirs), rook_spec(sq, occ));
    }
}

impl Tables {
    /// The squares that a bishop on `square` attacks, found by casting rays.
    pub fn ray_bishop_attacks(&self, square: Square, occupancy: Bitboard) -> (r: Bitboard)
        ensures
            r == bishop_spec(square, occupancy),
    {
        let dirs = Direction::diagonal();
        proof {
            lemma_sliders_by_kind(square, occupancy, dirs@);
        }
        self.sliders(square, occupancy, dirs.as_slice())
    }

    /// The squares that a rook on `square` attacks, found by casting rays.
    pub fn ray_rook_attacks(&self, square: Square, occupancy: Bitboard) -> (r: Bitboard)
        ensures
            r == rook_spec(square, occupancy),
    {
        let dirs = Direction::orthogonal();
        proof {
            lemma_sliders_by_kind(square, occupancy, dirs@);
        }
        self.sliders(square, occupancy, dirs.as_slice())
    }

    /// The squares that a bishop on `square` attacks when the squares of `occupancy` are
    /// occupied.
    #[inline]
    pub fn bishop_attacks(&self, square: Square, occupancy: Bitboard) -> (r: Bitboard)
        ensures
            r == bishop_spec(square, occupancy),
    {
        proof {
            use_type_invariant(self);
        }
        match self.bishops.attack(square, occupancy) {
            Some(a) => a,
            None => self.ray_bishop_attacks(square, occupancy),
        }
    }

    /// The squares that a rook on `square` attacks when the squares of `occupancy` are
    /// occupied.
    #[inline]
    pub fn rook_attacks(&self, square: Square, occupancy: Bitboard) -> (r: Bitboard)
        ensures
            r == rook_spec(square, occupancy),
    {
        proof {
            use_type_invariant(self);
        }
        match self.rooks.attack(square, occupancy) {
            Some(a) => a,
            None => self.ray_rook_attacks(square, occupancy),
        }
    }

    /// The number of squares for which the bishop's tables, and the rook's, hold a
    /// multiplier; on the other squares the attacks are found by casting rays.
    pub fn magic_counts(&self) -> (r: (usize, usize))
        ensures
            r.0 == self.bishop_table().found_below(64),
            r.1 == self.rook_table().found_below(64),
            r.0 <= 64,
            r.1 <= 64,
    {
        (self.bishops.found_count(), self.rooks.found_count())
    }

    /// The magic tables of the bishop, as a value.
    pub closed spec fn bishop_table(&self) -> MagicTable {
        self.bishops
    }

    /// The magic tables of the rook, as a value.
    pub closed spec fn rook_table(&self) -> MagicTable {
        self.rooks
    }

    /// The magic tables of the bishop.
    pub fn bishop_magics(&self) -> (r: &MagicTable)
        ensures
            *r == self.bishop_table(),
            r.wf(),
            !r.rook(),
            built(*r, false, false),
    {
        proof {
            use_type_invariant(self);
        }
        &self.bishops
    }

    /// The magic tables of the rook.
    pub fn rook_magics(&self) -> (r: &MagicTable)
        ensures
            *r == self.rook_table(),
            r.wf(),
            r.rook(),
            built(*r, true, false),
    {
        proof {
            use_type_invariant(self);
        }
        &self.rooks
    }

    /// The squares that a queen on `square` attacks when the squares of `occupancy` are
    /// occupied.
    #[inline]
    pub fn queen_attacks(&self, square: Square, occupancy: Bitboard) -> (r: Bitboard)
        ensures
            r == queen_spec(square, occupancy),
    {
        self.bishop_attacks(square, occupancy).bitor(self.rook_attacks(square, occupancy))
    }
}

impl Bitboard {
    /// The squares strictly between `a` and `b` on the rank, file or diagonal that they
    /// share; empty where they share none. The order of `a` and `b` does not matter.
    pub fn interval(a: Square, b: Square, tables: &Tables) -> (r: Self)
        ensures
            r == interval_spec(a, b),
            r == interval_spec(b, a),
            !aligned(a, b) ==> r.is_empty(),
            !r.contains(a) && !r.contains(b),
            forall|t: Square| #[trigger] r.contains(t) == between(a, b, t),
    {
        proof {
            lemma_interval_symmetric(a, b);
            lemma_interval_open(a, b);
            assert forall|t: Square| #[trigger]
                interval_spec(a, b).contains(t) == between(a, b, t) by {
                lemma_from_set(Set::new(|t: Square| between(a, b, t)), t);
            }
        }
        match a.dir_to(b) {
            Some(dir) => {
                proof {
                    lemma_interval_rays(a, b, dir);
                }
                tables.ray(a, dir).bitand(tables.ray(b, dir.not()))
            },
            None => {
                proof {
                    lemma_interval_unaligned(a, b);
                }
                Bitboard::new(0)
            },
        }
    }
}

} // verus!
