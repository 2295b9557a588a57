use vstd::prelude::*;

use crate::bitboard::{
    lemma_algebra, lemma_algebra_xy, lemma_empty, lemma_ext, lemma_from_set, lemma_has_xy,
    lemma_has_xy_at, lemma_shifted_xy, lemma_single_xy, Bitboard,
};
use crate::bits::{count_ones_below, get_bit};
use crate::precompute::{
    bishop_reaches, bishop_spec, lemma_ray_steps, lemma_sliders_by_kind, reaches, reaches_any,
    rook_reaches, rook_spec, slide_spec, sliders_spec,
};
use crate::square::{
    abs_diff, is_kth, lemma_square_at_xy, lemma_square_index, on_board, on_ray, scale, Direction,
    File, Rank, Square,
};

verus! {

/// The subset of `mask` that follows the subset `b` when the subsets are counted up as
/// numbers; zero after the last.
pub open spec fn next_subset(b: u64, mask: u64) -> u64 {
    vstd::wrapping::u64_specs::wrapping_sub(b, mask) & mask
}

/// The subset that follows `b` is the least subset of `mask` above `b`.
pub proof fn lemma_next_subset(b: u64, mask: u64, s: u64)
    by (bit_vector)
    requires
        b & !mask == 0,
        s & !mask == 0,
    ensures
        next_subset(b, mask) & !mask == 0,
        next_subset(b, mask) == 0 || next_subset(b, mask) > b,
        s > b ==> next_subset(b, mask) != 0 && s >= next_subset(b, mask),
{
}

/// A word shifted right by `shift` places is below two to the power of the places
/// that are left.
pub proof fn lemma_index_bound(x: u64, shift: u64)
    by (bit_vector)
    requires
        52 <= shift <= 63,
    ensures
        (x >> shift) < (1u64 << ((64 - shift) as u64)),
        (1u64 << ((64 - shift) as u64)) <= 4096,
{
}

/// One step of the generator: three shifts, each folded back into the word. A word
/// that is not zero stays so.
pub proof fn lemma_xorshift(s: u64)
    by (bit_vector)
    requires
        s != 0,
    ensures
        xorshift(s) != 0,
{
}

/// The word that follows `s` in the generator's cycle.
pub open spec fn xorshift(s: u64) -> u64 {
    let a = s ^ (s >> 12);
    let b = a ^ (a << 25);
    b ^ (b >> 27)
}

/// The word that a roll gives when the generator holds `s`: the three words that
/// follow, each times the generator's constant, with only the bits that all three hold.
pub open spec fn rolled(s: u64) -> u64 {
    vstd::wrapping::u64_specs::wrapping_mul(xorshift(s), 2685821657736338717)
        & vstd::wrapping::u64_specs::wrapping_mul(xorshift(xorshift(s)), 2685821657736338717)
        & vstd::wrapping::u64_specs::wrapping_mul(
        xorshift(xorshift(xorshift(s))),
        2685821657736338717,
    )
}

/// The word that a generator started from `seed` holds after `n` rolls.
pub open spec fn state_after(seed: u64, n: nat) -> u64
    decreases n,
{
    if n == 0 {
        seed
    } else {
        xorshift(xorshift(xorshift(state_after(seed, (n - 1) as nat))))
    }
}

/// The word that the `n`-th roll of a generator started from `seed` gives, the first
/// roll being number 1.
pub open spec fn candidate(seed: u64, n: nat) -> u64 {
    rolled(state_after(seed, (n - 1) as nat))
}

/// A generator of pseudo-random words that gives the same words for the same seed.
#[derive(Debug, Clone, Copy)]
pub struct SeededPRNG(u64);

impl SeededPRNG {
    #[verifier::type_invariant]
    closed spec fn nonzero(self) -> bool {
        self.0 != 0
    }

    /// The word that the generator holds.
    pub closed spec fn state(self) -> u64 {
        self.0
    }

    /// A generator that starts from `seed`.
    pub fn new(seed: u64) -> (r: Self)
        requires
            seed != 0,
        ensures
            r.state() == seed,
    {
        SeededPRNG(seed)
    }

    /// The next word: the generator moves one step on and gives its word times a
    /// constant.
    pub fn get(&mut self) -> (r: u64)
        ensures
            final(self).state() == xorshift(old(self).state()),
            r == vstd::wrapping::u64_specs::wrapping_mul(
                final(self).state(),
                2685821657736338717,
            ),
    {
        proof {
            use_type_invariant(&*self);
            lemma_xorshift(self.0);
        }
        let a = self.0 ^ (self.0 >> 12);
        let b = a ^ (a << 25);
        let c = b ^ (b >> 27);
        self.0 = c;
        c.wrapping_mul(2685821657736338717)
    }

    /// A word with few bits set: three words of the generator, of which only the bits
    /// that all three hold are kept.
    pub fn roll(&mut self) -> (r: u64)
        ensures
            final(self).state() == xorshift(xorshift(xorshift(old(self).state()))),
            r == rolled(old(self).state()),
            r == vstd::wrapping::u64_specs::wrapping_mul(
                xorshift(old(self).state()),
                2685821657736338717,
            ) & vstd::wrapping::u64_specs::wrapping_mul(
                xorshift(xorshift(old(self).state())),
                2685821657736338717,
            ) & vstd::wrapping::u64_specs::wrapping_mul(final(self).state(), 2685821657736338717),
    {
        let a = self.get();
        let b = self.get();
        let c = self.get();
        a & b & c
    }
}

/// Whether the square `j` steps from `(ax, ay)` in direction `d` is occupied.
pub open spec fn nth_has(occ: Bitboard, ax: int, ay: int, d: Direction, j: int) -> bool {
    occ.has_xy(ax + scale(d.dx(), j), ay + scale(d.dy(), j))
}

/// Whether none of the first `k - 1` squares from `(ax, ay)` in direction `d` is
/// occupied.
pub open spec fn clear_before(occ: Bitboard, ax: int, ay: int, d: Direction, k: int) -> bool {
    forall|j: int| 1 <= j < k ==> !#[trigger] nth_has(occ, ax, ay, d, j)
}

/// A slide reaches a square exactly when the square lies some steps along the ray and
/// none of the squares passed on the way is occupied.
pub proof fn lemma_reaches_steps(sq: Square, occ: Bitboard, d: Direction, t: Square)
    ensures
        reaches(sq, occ, d, t) <==> exists|k: int|
            1 <= k <= 7 && #[trigger] is_kth(
                sq.file_index(),
                sq.rank_index(),
                d,
                k,
                t.file_index(),
                t.rank_index(),
            ) && clear_before(occ, sq.file_index(), sq.rank_index(), d, k),
{
    let ax = sq.file_index();
    let ay = sq.rank_index();
    let tx = t.file_index();
    let ty = t.rank_index();
    lemma_square_index(sq);
    lemma_square_index(t);
    lemma_ray_steps(ax, ay, d, tx, ty);
    if reaches(sq, occ, d, t) {
        let k = choose|k: int| 1 <= k <= 7 && #[trigger] is_kth(ax, ay, d, k, tx, ty);
        assert forall|j: int| 1 <= j < k implies !#[trigger] nth_has(occ, ax, ay, d, j) by {
            let ux = ax + scale(d.dx(), j);
            let uy = ay + scale(d.dy(), j);
            assert(on_board(ux, uy));
            lemma_square_at_xy(ux, uy);
            let u = Square::at_xy(ux, uy);
            lemma_has_xy_at(occ, ux, uy);
            assert(on_ray(sq, d, u) && on_ray(u, d, t));
        }
        assert(is_kth(ax, ay, d, k, tx, ty) && clear_before(occ, ax, ay, d, k));
    }
    if exists|k: int|
        1 <= k <= 7 && #[trigger] is_kth(ax, ay, d, k, tx, ty) && clear_before(occ, ax, ay, d, k) {
        let k = choose|k: int|
            1 <= k <= 7 && #[trigger] is_kth(ax, ay, d, k, tx, ty) && clear_before(
                occ,
                ax,
                ay,
                d,
                k,
            );
        assert(on_ray(sq, d, t));
        assert forall|u: Square| on_ray(sq, d, u) && on_ray(u, d, t) implies !(
        #[trigger] occ.contains(u)) by {
            lemma_square_index(u);
            lemma_has_xy(occ, u);
            let j = if u.file_index() != ax {
                abs_diff(u.file_index(), ax)
            } else {
                abs_diff(u.rank_index(), ay)
            };
            assert(1 <= j < k);
            assert(!nth_has(occ, ax, ay, d, j));
        }
    }
}

/// The squares that a slide from `square` in direction `dir` reaches, found by
/// stepping until a square is occupied or the board ends.
#[verifier::rlimit(50)]
pub fn slide_gen(square: Square, occ: Bitboard, dir: Direction) -> (r: Bitboard)
    ensures
        r == slide_spec(square, occ, dir),
{
    let mut s = Bitboard::from_square(square);
    let mut rv = Bitboard::new(0);
    let mask = occ.not();
    let ghost mut n: int = 0;
    let ghost ax = square.file_index();
    let ghost ay = square.rank_index();
    let ghost d = dir;
    proof {
        lemma_square_index(square);
        assert forall|x: int, y: int| #[trigger]
            s.has_xy(x, y) == (on_board(x, y) && is_kth(ax, ay, d, n, x, y) && clear_before(
                occ,
                ax,
                ay,
                d,
                n + 1,
            )) by {
            lemma_single_xy(square, x, y);
        }
        assert forall|x: int, y: int| !(#[trigger] rv.has_xy(x, y)) by {
            lemma_algebra_xy(rv, rv, x, y);
        }
    }
    while s.nonzero()
        invariant
            0 <= n <= 8,
            d == dir,
            ax == square.file_index(),
            ay == square.rank_index(),
            on_board(ax, ay),
            mask == occ.complement(),
            forall|x: int, y: int| #[trigger]
                s.has_xy(x, y) == (on_board(x, y) && is_kth(ax, ay, d, n, x, y) && clear_before(
                    occ,
                    ax,
                    ay,
                    d,
                    n + 1,
                )),
            forall|x: int, y: int| #[trigger]
                rv.has_xy(x, y) == (on_board(x, y) && exists|k: int|
                    1 <= k <= n && #[trigger] is_kth(ax, ay, d, k, x, y) && clear_before(
                        occ,
                        ax,
                        ay,
                        d,
                        k,
                    )),
        decreases 8 - n,
    {
        proof {
            lemma_empty(s);
            let t = choose|t: Square| s.contains(t);
            lemma_has_xy(s, t);
            assert(s.has_xy(t.file_index(), t.rank_index()));
            assert(n <= 7);
        }
        let ghost s0 = s;
        let ghost r0 = rv;
        s = s.shift(dir);
        let ghost s1 = s;
        rv.bitor_assign(s);
        s.bitand_assign(mask);
        proof {
            assert forall|x: int, y: int| #[trigger]
                s1.has_xy(x, y) == (on_board(x, y) && is_kth(ax, ay, d, n + 1, x, y)
                    && clear_before(occ, ax, ay, d, n + 1)) by {
                lemma_shifted_xy(s0, d, x, y);
                assert(s0.has_xy(x - d.dx(), y - d.dy()) == (on_board(x - d.dx(), y - d.dy())
                    && is_kth(ax, ay, d, n, x - d.dx(), y - d.dy()) && clear_before(
                    occ,
                    ax,
                    ay,
                    d,
                    n + 1,
                )));
            }
            assert forall|x: int, y: int| #[trigger]
                s.has_xy(x, y) == (on_board(x, y) && is_kth(ax, ay, d, n + 1, x, y)
                    && clear_before(occ, ax, ay, d, n + 2)) by {
                lemma_algebra_xy(s1, mask, x, y);
                if on_board(x, y) {
                    lemma_square_at_xy(x, y);
                    lemma_has_xy_at(mask, x, y);
                    lemma_has_xy_at(occ, x, y);
                    lemma_algebra(occ, occ, Square::at_xy(x, y));
                }
                if on_board(x, y) && is_kth(ax, ay, d, n + 1, x, y) {
                    assert(nth_has(occ, ax, ay, d, n + 1) == occ.has_xy(x, y));
                    if clear_before(occ, ax, ay, d, n + 2) {
                        assert(!nth_has(occ, ax, ay, d, n + 1));
                    }
                }
            }
            assert forall|x: int, y: int| #[trigger]
                rv.has_xy(x, y) == (on_board(x, y) && exists|k: int|
                    1 <= k <= n + 1 && #[trigger] is_kth(ax, ay, d, k, x, y) && clear_before(
                        occ,
                        ax,
                        ay,
                        d,
                        k,
                    )) by {
                lemma_algebra_xy(r0, s1, x, y);
                if s1.has_xy(x, y) {
                    assert(is_kth(ax, ay, d, n + 1, x, y) && clear_before(occ, ax, ay, d, n + 1));
                }
                if r0.has_xy(x, y) {
                    let k = choose|k: int|
                        1 <= k <= n && #[trigger] is_kth(ax, ay, d, k, x, y) && clear_before(
                            occ,
                            ax,
                            ay,
                            d,
                            k,
                        );
                    assert(is_kth(ax, ay, d, k, x, y) && clear_before(occ, ax, ay, d, k));
                }
            }
            n = n + 1;
        }
    }
    proof {
        assert forall|t: Square| rv.contains(t) == slide_spec(square, occ, dir).contains(t) by {
            lemma_from_set(Set::new(|t: Square| reaches(square, occ, dir, t)), t);
            lemma_has_xy(rv, t);
            lemma_square_index(t);
            let x = t.file_index();
            let y = t.rank_index();
            lemma_reaches_steps(square, occ, dir, t);
            if reaches(square, occ, dir, t) {
                let k = choose|k: int|
                    1 <= k <= 7 && #[trigger] is_kth(ax, ay, d, k, x, y) && clear_before(
                        occ,
                        ax,
                        ay,
                        d,
                        k,
                    );
                if k > n {
                    let px = ax + scale(d.dx(), n);
                    let py = ay + scale(d.dy(), n);
                    assert(on_board(px, py));
                    assert(is_kth(ax, ay, d, n, px, py));
                    assert(clear_before(occ, ax, ay, d, n + 1)) by {
                        assert forall|j: int| 1 <= j < n + 1 implies !#[trigger] nth_has(
                            occ,
                            ax,
                            ay,
                            d,
                            j,
                        ) by {
                            assert(j < k);
                        }
                    }
                    assert(s.has_xy(px, py));
                    lemma_has_xy_at(s, px, py);
                    lemma_empty(s);
                    assert(false);
                }
                assert(is_kth(ax, ay, d, k, x, y) && clear_before(occ, ax, ay, d, k));
            }
            if rv.contains(t) {
                let k = choose|k: int|
                    1 <= k <= n && #[trigger] is_kth(ax, ay, d, k, x, y) && clear_before(
                        occ,
                        ax,
                        ay,
                        d,
                        k,
                    );
                assert(k <= 7);
                assert(is_kth(ax, ay, d, k, x, y) && clear_before(occ, ax, ay, d, k));
            }
        }
        lemma_ext(rv, slide_spec(square, occ, dir));
    }
    rv
}

/// The squares that a rook, or else a bishop, on `square` attacks when the squares of
/// `occ` are occupied, found by stepping in each of its four directions.
pub fn slider_gen(square: Square, occ: Bitboard, is_rook: bool) -> (r: Bitboard)
    ensures
        r == if is_rook {
            rook_spec(square, occ)
        } else {
            bishop_spec(square, occ)
        },
{
    let dirs = if is_rook {
        Direction::orthogonal()
    } else {
        Direction::diagonal()
    };
    let mut rv = Bitboard::new(0);
    let mut i: usize = 0;
    proof {
        lemma_empty(rv);
        lemma_sliders_by_kind(square, occ, dirs@);
    }
    while i < 4
        invariant
            i <= 4,
            forall|t: Square| #[trigger]
                rv.contains(t) == reaches_any(square, occ, dirs@.take(i as int), t),
        decreases 4 - i,
    {
        let part = slide_gen(square, occ, dirs[i]);
        let ghost before = rv;
        rv.bitor_assign(part);
        proof {
            let d0 = dirs@.take(i as int);
            let d1 = dirs@.take(i + 1);
            assert forall|t: Square| #[trigger]
                rv.contains(t) == reaches_any(square, occ, d1, t) by {
                lemma_algebra(before, part, t);
                lemma_from_set(Set::new(|t: Square| reaches(square, occ, dirs@[i as int], t)), t);
                if reaches_any(square, occ, d0, t) {
                    let j = choose|j: int|
                        0 <= j < d0.len() && reaches(square, occ, #[trigger] d0[j], t);
                    assert(d1[j] == d0[j]);
                }
                if part.contains(t) {
                    assert(d1[i as int] == dirs@[i as int]);
                }
                if reaches_any(square, occ, d1, t) {
                    let j = choose|j: int|
                        0 <= j < d1.len() && reaches(square, occ, #[trigger] d1[j], t);
                    if j < i {
                        assert(d0[j] == d1[j]);
                    }
                }
            }
        }
        i += 1;
    }
    proof {
        assert(dirs@.take(4) =~= dirs@);
        assert forall|t: Square| rv.contains(t) == sliders_spec(square, occ, dirs@).contains(t) by {
            lemma_from_set(Set::new(|t: Square| reaches_any(square, occ, dirs@, t)), t);
        }
        lemma_ext(rv, sliders_spec(square, occ, dirs@));
    }
    rv
}

/// The squares that a rook, or else a bishop, on `sq` attacks when the squares of `occ`
/// are occupied.
pub open spec fn kind_spec(sq: Square, is_rook: bool, occ: Bitboard) -> Bitboard {
    if is_rook {
        rook_spec(sq, occ)
    } else {
        bishop_spec(sq, occ)
    }
}

/// Whether `u` lies on an edge of the board that a slider on `sq` does not slide
/// along: the first or last rank unless `sq` is on it, the first or last file unless
/// `sq` is on it.
pub open spec fn on_far_edge(sq: Square, u: Square) -> bool {
    ((u.rank_index() == 0 || u.rank_index() == 7) && u.rank_index() != sq.rank_index()) || ((
    u.file_index() == 0 || u.file_index() == 7) && u.file_index() != sq.file_index())
}

/// The squares whose occupancy matters to a rook, or else a bishop, on `sq`: those it
/// attacks on an empty board, without the far edges.
pub open spec fn mask_spec(sq: Square, is_rook: bool) -> Bitboard {
    Bitboard::from_set(
        Set::new(
            |u: Square| kind_spec(sq, is_rook, Bitboard::empty()).contains(u) && !on_far_edge(sq, u),
        ),
    )
}

/// A slide reaches the same squares whether all the occupied squares are counted or
/// only those of the mask.
proof fn lemma_reaches_masked(sq: Square, is_rook: bool, occ: Bitboard, d: Direction, t: Square)
    requires
        if is_rook {
            d.is_orthogonal()
        } else {
            d.is_diagonal()
        },
    ensures
        reaches(sq, occ, d, t) == reaches(sq, mask_spec(sq, is_rook).and(occ), d, t),
{
    let mask = mask_spec(sq, is_rook);
    let none = Bitboard::empty();
    if on_ray(sq, d, t) {
        assert forall|u: Square| on_ray(sq, d, u) && on_ray(u, d, t) implies occ.contains(u)
            == mask.and(occ).contains(u) by {
            lemma_square_index(sq);
            lemma_square_index(u);
            lemma_square_index(t);
            lemma_algebra(mask, occ, u);
            lemma_from_set(
                Set::new(
                    |u: Square|
                        kind_spec(sq, is_rook, Bitboard::empty()).contains(u) && !on_far_edge(
                            sq,
                            u,
                        ),
                ),
                u,
            );
            assert(reaches(sq, none, d, u)) by {
                assert forall|w: Square| on_ray(sq, d, w) && on_ray(w, d, u) implies !(
                #[trigger] none.contains(w)) by {
                    lemma_algebra(none, none, w);
                }
            }
            lemma_from_set(Set::new(|t: Square| rook_reaches(sq, none, t)), u);
            lemma_from_set(Set::new(|t: Square| bishop_reaches(sq, none, t)), u);
            assert(!on_far_edge(sq, u));
            assert(mask.contains(u));
        }
        if reaches(sq, occ, d, t) {
            assert forall|u: Square| on_ray(sq, d, u) && on_ray(u, d, t) implies !(
            #[trigger] mask.and(occ).contains(u)) by {
                assert(!occ.contains(u));
            }
        }
        if reaches(sq, mask.and(occ), d, t) {
            assert forall|u: Square| on_ray(sq, d, u) && on_ray(u, d, t) implies !(
            #[trigger] occ.contains(u)) by {
                assert(!mask.and(occ).contains(u));
            }
        }
    }
}

/// A slider attacks the same squares whether all the occupied squares are counted or
/// only those of its mask.
pub proof fn lemma_mask_relevance(sq: Square, is_rook: bool, occ: Bitboard)
    ensures
        kind_spec(sq, is_rook, occ) == kind_spec(sq, is_rook, mask_spec(sq, is_rook).and(occ)),
{
    let m = mask_spec(sq, is_rook).and(occ);
    assert forall|t: Square|
        kind_spec(sq, is_rook, occ).contains(t) == kind_spec(sq, is_rook, m).contains(t) by {
        lemma_from_set(Set::new(|t: Square| rook_reaches(sq, occ, t)), t);
        lemma_from_set(Set::new(|t: Square| bishop_reaches(sq, occ, t)), t);
        lemma_from_set(Set::new(|t: Square| rook_reaches(sq, m, t)), t);
        lemma_from_set(Set::new(|t: Square| bishop_reaches(sq, m, t)), t);
        assert forall|d: Direction|
            (if is_rook {
                d.is_orthogonal()
            } else {
                d.is_diagonal()
            }) implies #[trigger] reaches(sq, occ, d, t) == reaches(sq, m, d, t) by {
            lemma_reaches_masked(sq, is_rook, occ, d, t);
        }
        if is_rook {
            if rook_reaches(sq, occ, t) {
                let d = choose|d: Direction| d.is_orthogonal() && #[trigger] reaches(sq, occ, d, t);
                assert(reaches(sq, m, d, t));
            }
            if rook_reaches(sq, m, t) {
                let d = choose|d: Direction| d.is_orthogonal() && #[trigger] reaches(sq, m, d, t);
                assert(reaches(sq, occ, d, t));
            }
        } else {
            if bishop_reaches(sq, occ, t) {
                let d = choose|d: Direction| d.is_diagonal() && #[trigger] reaches(sq, occ, d, t);
                assert(reaches(sq, m, d, t));
            }
            if bishop_reaches(sq, m, t) {
                let d = choose|d: Direction| d.is_diagonal() && #[trigger] reaches(sq, m, d, t);
                assert(reaches(sq, occ, d, t));
            }
        }
    }
    lemma_ext(kind_spec(sq, is_rook, occ), kind_spec(sq, is_rook, m));
}

/// One more place counted adds one where the bit at that place is set.
proof fn lemma_count_step(b: Bitboard, n: nat)
    requires
        n < 64,
    ensures
        count_ones_below(b.0, n + 1) == count_ones_below(b.0, n) + if b.bit(n as int) {
            1nat
        } else {
            0nat
        },
{
}

/// Over a run of places the count grows by no more than the length of the run.
proof fn lemma_range_le(b: Bitboard, lo: nat, n: nat)
    requires
        lo + n <= 64,
    ensures
        count_ones_below(b.0, lo) <= count_ones_below(b.0, lo + n) <= count_ones_below(b.0, lo)
            + n,
    decreases n,
{
    if n > 0 {
        lemma_range_le(b, lo, (n - 1) as nat);
        lemma_count_step(b, (lo + n - 1) as nat);
    }
}

/// Over a run of places in which only the places `a` and `c` may hold a set bit, the
/// count grows by no more than the number of those two that lie in the run.
proof fn lemma_range_two(b: Bitboard, lo: nat, n: nat, a: int, c: int)
    requires
        lo + n <= 64,
        forall|i: int| lo <= i < lo + n && #[trigger] b.bit(i) ==> i == a || i == c,
    ensures
        count_ones_below(b.0, lo + n) <= count_ones_below(b.0, lo) + (if lo <= a < lo + n {
            1nat
        } else {
            0nat
        }) + (if lo <= c < lo + n && c != a {
            1nat
        } else {
            0nat
        }),
    decreases n,
{
    if n > 0 {
        lemma_range_two(b, lo, (n - 1) as nat, a, c);
        lemma_count_step(b, (lo + n - 1) as nat);
    }
}

/// Where the squares of a mask lie: those of a rook's on its rank or file, those of a
/// bishop's on its diagonals, none on the square itself or on a far edge.
proof fn lemma_mask_bit(sq: Square, is_rook: bool, i: int)
    requires
        mask_spec(sq, is_rook).bit(i),
    ensures
        ({
            let x = i % 8;
            let y = i / 8;
            let sx = sq.file_index();
            let sy = sq.rank_index();
            if is_rook {
                (y == sy && x != 0 && x != 7 && x != sx) || (x == sx && y != 0 && y != 7 && y
                    != sy)
            } else {
                x != 0 && x != 7 && y != 0 && y != 7 && y != sy && (x == sx + (y - sy) || x == sx
                    - (y - sy))
            }
        }),
{
    let u = Square::at(i);
    let none = Bitboard::empty();
    crate::square::lemma_square_at(i);
    lemma_square_index(sq);
    lemma_from_set(
        Set::new(
            |u: Square| kind_spec(sq, is_rook, Bitboard::empty()).contains(u) && !on_far_edge(sq, u),
        ),
        u,
    );
    lemma_from_set(Set::new(|t: Square| rook_reaches(sq, none, t)), u);
    lemma_from_set(Set::new(|t: Square| bishop_reaches(sq, none, t)), u);
    if is_rook {
        let d = choose|d: Direction| d.is_orthogonal() && #[trigger] reaches(sq, none, d, u);
        assert(on_ray(sq, d, u));
    } else {
        let d = choose|d: Direction| d.is_diagonal() && #[trigger] reaches(sq, none, d, u);
        assert(on_ray(sq, d, u));
    }
}

/// The most squares of a mask that lie on the rank with number `y`.
pub open spec fn rank_share(sq: Square, is_rook: bool, y: int) -> nat {
    if is_rook {
        if y == sq.rank_index() {
            6
        } else if y == 0 || y == 7 {
            0
        } else {
            1
        }
    } else if y == sq.rank_index() || y == 0 || y == 7 {
        0
    } else {
        2
    }
}

/// A mask has no more squares on a rank than the rank's share.
proof fn lemma_mask_rank(sq: Square, is_rook: bool, y: nat)
    requires
        y < 8,
    ensures
        count_ones_below(mask_spec(sq, is_rook).0, 8 * y + 8) <= count_ones_below(
            mask_spec(sq, is_rook).0,
            8 * y,
        ) + rank_share(sq, is_rook, y as int),
{
    let mask = mask_spec(sq, is_rook);
    let sx = sq.file_index();
    let sy = sq.rank_index();
    lemma_square_index(sq);
    assert forall|i: int| #[trigger] mask.bit(i) implies ({
        let x = i % 8;
        let y = i / 8;
        if is_rook {
            (y == sy && x != 0 && x != 7 && x != sx) || (x == sx && y != 0 && y != 7 && y != sy)
        } else {
            x != 0 && x != 7 && y != 0 && y != 7 && y != sy && (x == sx + (y - sy) || x == sx - (y
                - sy))
        }
    }) by {
        lemma_mask_bit(sq, is_rook, i);
    }
    if is_rook {
        if y == sy {
            lemma_count_step(mask, 8 * y);
            lemma_range_le(mask, 8 * y + 1, 6);
            lemma_count_step(mask, 8 * y + 7);
            assert(!mask.bit(8 * y as int)) by {
                if mask.bit(8 * y as int) {
                    assert((8 * y as int) % 8 == 0);
                }
            }
            assert(!mask.bit((8 * y + 7) as int)) by {
                if mask.bit((8 * y + 7) as int) {
                    assert((8 * y + 7) % 8 == 7 && (8 * y + 7) / 8 == y);
                }
            }
        } else {
            let a = if y == 0 || y == 7 {
                -1
            } else {
                sx + 8 * y
            };
            assert forall|i: int| 8 * y <= i < 8 * y + 8 && #[trigger] mask.bit(i) implies i == a
                || i == a by {
                assert(i / 8 == y);
            }
            lemma_range_two(mask, 8 * y, 8, a, a);
        }
    } else {
        let skip = y == sy || y == 0 || y == 7;
        let a = if skip {
            -1
        } else {
            sx + (y - sy) + 8 * y
        };
        let c = if skip {
            -1
        } else {
            sx - (y - sy) + 8 * y
        };
        assert forall|i: int| 8 * y <= i < 8 * y + 8 && #[trigger] mask.bit(i) implies i == a || i
            == c by {
            assert(i / 8 == y);
        }
        lemma_range_two(mask, 8 * y, 8, a, c);
    }
}

/// From one to twelve squares matter to a slider, wherever it stands.
pub proof fn lemma_mask_small(sq: Square, is_rook: bool)
    ensures
        1 <= mask_spec(sq, is_rook).count() <= 12,
{
    let mask = mask_spec(sq, is_rook);
    lemma_square_index(sq);
    lemma_mask_rank(sq, is_rook, 0);
    lemma_mask_rank(sq, is_rook, 1);
    lemma_mask_rank(sq, is_rook, 2);
    lemma_mask_rank(sq, is_rook, 3);
    lemma_mask_rank(sq, is_rook, 4);
    lemma_mask_rank(sq, is_rook, 5);
    lemma_mask_rank(sq, is_rook, 6);
    lemma_mask_rank(sq, is_rook, 7);
    assert(count_ones_below(mask.0, 0) == 0);
    // One square towards the middle of the board always matters.
    let sx = sq.file_index();
    let sy = sq.rank_index();
    let ux = if is_rook {
        if sx == 1 {
            2
        } else {
            1
        }
    } else if sx <= 3 {
        sx + 1
    } else {
        sx - 1
    };
    let uy = if is_rook {
        sy
    } else if sy <= 3 {
        sy + 1
    } else {
        sy - 1
    };
    let u = Square::at_xy(ux, uy);
    let none = Bitboard::empty();
    lemma_square_at_xy(ux, uy);
    let d = if is_rook {
        if ux > sx {
            Direction::East
        } else {
            Direction::West
        }
    } else if ux > sx {
        if uy > sy {
            Direction::NorthEast
        } else {
            Direction::SouthEast
        }
    } else if uy > sy {
        Direction::NorthWest
    } else {
        Direction::SouthWest
    };
    assert(reaches(sq, none, d, u)) by {
        assert(on_ray(sq, d, u));
        assert forall|w: Square| on_ray(sq, d, w) && on_ray(w, d, u) implies !(
        #[trigger] none.contains(w)) by {
            lemma_algebra(none, none, w);
        }
    }
    lemma_from_set(Set::new(|t: Square| rook_reaches(sq, none, t)), u);
    lemma_from_set(Set::new(|t: Square| bishop_reaches(sq, none, t)), u);
    lemma_from_set(
        Set::new(
            |u: Square| kind_spec(sq, is_rook, Bitboard::empty()).contains(u) && !on_far_edge(sq, u),
        ),
        u,
    );
    assert(mask.contains(u));
    lemma_square_index(u);
    lemma_count_step(mask, u.index() as nat);
    lemma_range_le(mask, 0, u.index() as nat);
    lemma_range_le(mask, (u.index() + 1) as nat, (63 - u.index()) as nat);
}

/// The squares whose occupancy matters to a rook, or else a bishop, on `square`.
pub fn relevant_mask(square: Square, is_rook: bool) -> (r: Bitboard)
    ensures
        r == mask_spec(square, is_rook),
{
    let ends = Bitboard::from_ranks([Rank::One, Rank::Eight]);
    let own_rank = Bitboard::from_rank(square.rank());
    let sides = Bitboard::from_files([File::A, File::H]);
    let own_file = Bitboard::from_file(square.file());
    let edges = ends.bitand(own_rank.not()).bitor(sides.bitand(own_file.not()));
    let open = slider_gen(square, Bitboard::new(0), is_rook);
    let r = open.bitand(edges.not());
    proof {
        let ranks = [Rank::One, Rank::Eight];
        let files = [File::A, File::H];
        assert forall|u: Square| r.contains(u) == mask_spec(square, is_rook).contains(u) by {
            lemma_from_set(
                Set::new(
                    |u: Square|
                        kind_spec(square, is_rook, Bitboard::empty()).contains(u) && !on_far_edge(
                            square,
                            u,
                        ),
                ),
                u,
            );
            lemma_square_index(u);
            lemma_algebra(open, edges.complement(), u);
            lemma_algebra(edges, edges, u);
            lemma_algebra(ends.and(own_rank.complement()), sides.and(own_file.complement()), u);
            lemma_algebra(ends, own_rank.complement(), u);
            lemma_algebra(sides, own_file.complement(), u);
            lemma_algebra(own_rank, own_file, u);
            lemma_algebra(own_file, own_rank, u);
            if ends.contains(u) {
                let i = choose|i: int| 0 <= i < 2 && (#[trigger] ranks@[i]) as int == u.rank_index();
                assert(u.rank_index() == 0 || u.rank_index() == 7);
            }
            if u.rank_index() == 0 {
                assert(ranks@[0] as int == u.rank_index());
            }
            if u.rank_index() == 7 {
                assert(ranks@[1] as int == u.rank_index());
            }
            if sides.contains(u) {
                let i = choose|i: int| 0 <= i < 2 && (#[trigger] files@[i]) as int == u.file_index();
                assert(u.file_index() == 0 || u.file_index() == 7);
            }
            if u.file_index() == 0 {
                assert(files@[0] as int == u.file_index());
            }
            if u.file_index() == 7 {
                assert(files@[1] as int == u.file_index());
            }
        }
        lemma_ext(r, mask_spec(square, is_rook));
    }
    r
}

/// The subsets of `mask` from `b` on, counted up as numbers.
pub open spec fn subsets_after(b: u64, mask: u64) -> Seq<u64>
    decreases u64::MAX - b,
{
    if next_subset(b, mask) > b {
        seq![b] + subsets_after(next_subset(b, mask), mask)
    } else {
        seq![b]
    }
}

/// All the subsets of `mask`, counted up as numbers from the empty one.
pub open spec fn subsets_seq(mask: u64) -> Seq<u64> {
    subsets_after(0, mask)
}

/// All the subsets of `mask`, each once, counted up as numbers from the empty one.
pub fn subsets_of(mask: u64) -> (r: Vec<u64>)
    ensures
        r@ == subsets_seq(mask),
        forall|s: u64| s & !mask == 0 ==> r@.contains(s),
        forall|j: int| 0 <= j < r@.len() ==> (#[trigger] r@[j]) & !mask == 0,
        forall|i: int, j: int| 0 <= i < j < r@.len() ==> r@[i] < r@[j],
{
    let mut out: Vec<u64> = Vec::new();
    let mut b: u64 = 0;
    let mut going = true;
    proof {
        lemma_zero_subset(mask);
    }
    while going
        invariant
            b & !mask == 0,
            forall|j: int| 0 <= j < out@.len() ==> (#[trigger] out@[j]) & !mask == 0,
            forall|i: int, j: int| 0 <= i < j < out@.len() ==> out@[i] < out@[j],
            going ==> forall|j: int| 0 <= j < out@.len() ==> out@[j] < b,
            going ==> out@ + subsets_after(b, mask) == subsets_seq(mask),
            !going ==> out@ == subsets_seq(mask),
            going ==> forall|s: u64| s & !mask == 0 && s < b ==> out@.contains(s),
            !going ==> forall|s: u64| s & !mask == 0 ==> out@.contains(s),
        decreases
                (if going {
                    1int
                } else {
                    0int
                }),
                u64::MAX - b,
    {
        let ghost before = out@;
        out.push(b);
        let next = b.wrapping_sub(mask) & mask;
        proof {
            assert(next == next_subset(b, mask));
            lemma_next_subset(b, mask, b);
            if next == 0 {
                assert(out@ =~= before + subsets_after(b, mask));
            } else {
                assert(out@ + subsets_after(next, mask) =~= before + subsets_after(b, mask));
            }
            assert forall|s: u64| s & !mask == 0 && s <= b implies out@.contains(s) by {
                if s < b {
                    assert(before.contains(s));
                    let j = choose|j: int| 0 <= j < before.len() && before[j] == s;
                    assert(out@[j] == s);
                } else {
                    assert(out@[before.len() as int] == s);
                }
            }
            assert forall|s: u64| s & !mask == 0 && (next == 0 || s < next) implies out@.contains(
                s,
            ) by {
                lemma_next_subset(b, mask, s);
            }
        }
        if next == 0 {
            going = false;
        } else {
            b = next;
        }
    }
    out
}

/// The empty set is a subset of every mask.
pub proof fn lemma_zero_subset(mask: u64)
    by (bit_vector)
    ensures
        0u64 & !mask == 0,
{
}

/// The part of a word inside a mask is a subset of the mask.
pub proof fn lemma_subset_bits(x: u64, mask: u64)
    by (bit_vector)
    ensures
        (mask & x) & !mask == 0,
{
}

/// The bits of `a` at the places of the lowest `n` bits of `mask` that are set, packed
/// side by side from bit 0 up.
pub open spec fn pext_below(a: u64, mask: u64, n: nat) -> u64
    decreases n,
{
    if n == 0 {
        0
    } else {
        let rest = pext_below(a, mask, (n - 1) as nat);
        if get_bit(mask, (n - 1) as u64) && get_bit(a, (n - 1) as u64) {
            rest | (1u64 << (count_ones_below(mask, (n - 1) as nat) as u64))
        } else {
            rest
        }
    }
}

/// The bits of `a` at the places where `mask` has a bit set, packed side by side from
/// bit 0 up: what a bit-extract instruction gives.
pub open spec fn pext_spec(a: u64, mask: u64) -> u64 {
    pext_below(a, mask, 64)
}

/// One more bit on top of a word below it.
proof fn lemma_bit_on_top(r: u64, k: u64)
    by (bit_vector)
    requires
        k < 63,
        r < (1u64 << k),
    ensures
        (r | (1u64 << k)) < (1u64 << ((k + 1) as u64)),
        r < (1u64 << ((k + 1) as u64)),
{
}

/// Two to a power of up to twelve is a number from 1 to 4096.
proof fn lemma_pow_small(k: u64)
    by (bit_vector)
    requires
        k <= 12,
    ensures
        0 < (1u64 << k) <= 4096,
        0 < (1u64 << 0),
{
}

/// Two words below a bit, each with or without that bit on top, are equal only if
/// they are equal below and alike on top.
proof fn lemma_top_bit_tells(r1: u64, b1: bool, r2: u64, b2: bool, k: u64)
    by (bit_vector)
    requires
        k < 63,
        r1 < (1u64 << k),
        r2 < (1u64 << k),
        (if b1 {
            r1 | (1u64 << k)
        } else {
            r1
        }) == (if b2 {
            r2 | (1u64 << k)
        } else {
            r2
        }),
    ensures
        r1 == r2,
        b1 == b2,
{
}

/// The number of set bits grows with the number of places counted.
proof fn lemma_count_grows(mask: u64, n: nat, m: nat)
    requires
        n <= m,
    ensures
        count_ones_below(mask, n) <= count_ones_below(mask, m),
        count_ones_below(mask, n) <= n,
    decreases m,
{
    if n < m {
        lemma_count_grows(mask, n, (m - 1) as nat);
    } else if n > 0 {
        lemma_count_grows(mask, (n - 1) as nat, (n - 1) as nat);
    }
}

/// What is extracted through a mask of fewer than 63 bits is below two to the power of the
/// number of the mask's bits.
pub proof fn lemma_pext_bound(a: u64, mask: u64, n: nat)
    requires
        n <= 64,
        count_ones_below(mask, 64) < 63,
    ensures
        pext_below(a, mask, n) < (1u64 << (count_ones_below(mask, n) as u64)),
    decreases n,
{
    lemma_count_grows(mask, n, 64);
    if n == 0 {
        lemma_pow_small(0);
    } else {
        lemma_pext_bound(a, mask, (n - 1) as nat);
        lemma_count_grows(mask, (n - 1) as nat, 64);
        let k = count_ones_below(mask, (n - 1) as nat) as u64;
        if get_bit(mask, (n - 1) as u64) {
            lemma_bit_on_top(pext_below(a, mask, (n - 1) as nat), k);
        }
    }
}

/// Only the bits of `a` inside the mask matter to what is extracted.
pub proof fn lemma_pext_masked(a: u64, mask: u64, n: nat)
    requires
        n <= 64,
    ensures
        pext_below(a, mask, n) == pext_below(mask & a, mask, n),
    decreases n,
{
    if n > 0 {
        lemma_pext_masked(a, mask, (n - 1) as nat);
        crate::bits::lemma_bit_ops(mask, a, (n - 1) as u64);
    }
}

/// Two subsets of a mask from which the same is extracted agree on every bit.
proof fn lemma_pext_tells(s1: u64, s2: u64, mask: u64, n: nat, i: u64)
    requires
        n <= 64,
        count_ones_below(mask, 64) < 63,
        s1 & !mask == 0,
        s2 & !mask == 0,
        pext_below(s1, mask, n) == pext_below(s2, mask, n),
        i < n,
    ensures
        get_bit(s1, i) == get_bit(s2, i),
    decreases n,
{
    let m = (n - 1) as nat;
    let k = count_ones_below(mask, m) as u64;
    lemma_count_grows(mask, m, 64);
    lemma_pext_bound(s1, mask, m);
    lemma_pext_bound(s2, mask, m);
    let r1 = pext_below(s1, mask, m);
    let r2 = pext_below(s2, mask, m);
    let b1 = get_bit(mask, m as u64) && get_bit(s1, m as u64);
    let b2 = get_bit(mask, m as u64) && get_bit(s2, m as u64);
    lemma_top_bit_tells(r1, b1, r2, b2, k);
    if i < m {
        lemma_pext_tells(s1, s2, mask, m, i);
    } else {
        lemma_outside_mask(s1, mask, i);
        lemma_outside_mask(s2, mask, i);
    }
}

/// A subset of a mask has no bit where the mask has none.
proof fn lemma_outside_mask(s: u64, mask: u64, i: u64)
    by (bit_vector)
    requires
        i < 64,
        s & !mask == 0,
    ensures
        get_bit(s, i) ==> get_bit(mask, i),
{
}

/// Two different subsets of a mask never give the same when their bits are extracted.
pub proof fn lemma_pext_injective(s1: u64, s2: u64, mask: u64)
    requires
        count_ones_below(mask, 64) < 63,
        s1 & !mask == 0,
        s2 & !mask == 0,
        pext_spec(s1, mask) == pext_spec(s2, mask),
    ensures
        s1 == s2,
{
    assert forall|i: u64| i < 64 implies get_bit(s1, i) == get_bit(s2, i) by {
        lemma_pext_tells(s1, s2, mask, 64, i);
    }
    crate::bits::lemma_bits_equal(s1, s2);
}

/// The bits of `a` at the places where `mask` has a bit set, packed side by side from
/// bit 0 up. This is what a bit-extract instruction of the processor computes; here it
/// is computed place by place.
pub fn pext(a: u64, mask: u64) -> (r: u64)
    ensures
        r == pext_spec(a, mask),
{
    let mut res: u64 = 0;
    let mut k: u64 = 0;
    let mut i: u64 = 0;
    while i < 64
        invariant
            i <= 64,
            k == count_ones_below(mask, i as nat),
            k <= i,
            res == pext_below(a, mask, i as nat),
        decreases 64 - i,
    {
        if (mask >> i) & 1 == 1 {
            if (a >> i) & 1 == 1 {
                res = res | (1u64 << k);
            }
            k += 1;
        }
        i += 1;
    }
    res
}

/// The slot of a table that a masked occupancy is sent to.
pub open spec fn hash(x: u64, magic: u64, shift: u64) -> int {
    (vstd::wrapping::u64_specs::wrapping_mul(x, magic) >> shift) as int
}

/// The most multipliers that are tried for one square.
pub const TRIAL_LIMIT: u32 = 100_000_000;

/// Whether the multiplier spreads the mask well: its product with the mask has six bits
/// or more set among its highest eight. Only such multipliers are tried on the table.
pub open spec fn dense(magic: u64, mask: u64) -> bool {
    count_ones_below(vstd::wrapping::u64_specs::wrapping_mul(magic, mask) >> 56, 64) >= 6
}

/// Whether the multiplier sends no two of the subsets to one slot unless their attacks
/// are the same.
pub open spec fn clash_free(
    magic: u64,
    shift: u64,
    subsets: Seq<u64>,
    reference: Seq<Bitboard>,
) -> bool {
    forall|i: int, j: int|
        #![trigger hash(subsets[i], magic, shift), hash(subsets[j], magic, shift)]
        0 <= i < subsets.len() && 0 <= j < subsets.len() && hash(subsets[i], magic, shift) == hash(
            subsets[j],
            magic,
            shift,
        ) ==> reference[i] == reference[j]
}

/// Whether the `n`-th word rolled from `seed` serves as a multiplier: it spreads the
/// mask well and sends the subsets to their slots without a clash.
pub open spec fn serves(
    seed: u64,
    n: nat,
    mask: u64,
    shift: u64,
    subsets: Seq<u64>,
    reference: Seq<Bitboard>,
) -> bool {
    dense(candidate(seed, n), mask) && clash_free(candidate(seed, n), shift, subsets, reference)
}

/// Whether the `n`-th word rolled from `seed` is the first that serves as a multiplier.
pub open spec fn first_to_serve(
    seed: u64,
    n: nat,
    mask: u64,
    shift: u64,
    subsets: Seq<u64>,
    reference: Seq<Bitboard>,
) -> bool {
    &&& 1 <= n
    &&& serves(seed, n, mask, shift, subsets, reference)
    &&& forall|m: nat| 1 <= m < n ==> !#[trigger] serves(seed, m, mask, shift, subsets, reference)
}

/// Looks for a multiplier that sends the given subsets of a mask to slots of a table
/// so that no two subsets with different attacks share a slot, and fills the table.
/// The words rolled from `seed` are tried in turn; the first that spreads the mask
/// well and makes no clash is the multiplier. Gives nothing only where none of the
/// first `TRIAL_LIMIT` words serves.
#[verifier::rlimit(100)]
fn find_magic(mask: u64, bits: u32, subsets: &Vec<u64>, reference: &Vec<Bitboard>, seed: u64) -> (r:
    Option<(u64, Vec<Bitboard>)>)
    requires
        1 <= bits <= 12,
        subsets@.len() == reference@.len(),
        seed != 0,
    ensures
        match r {
            Some((magic, table)) => {
                &&& exists|n: nat|
                    n <= TRIAL_LIMIT && magic == candidate(seed, n) && #[trigger] first_to_serve(
                        seed,
                        n,
                        mask,
                        (64 - bits) as u64,
                        subsets@,
                        reference@,
                    )
                &&& table@.len() == (1u64 << (bits as u64))
                &&& forall|j: int|
                    0 <= j < subsets@.len() ==> 0 <= #[trigger] hash(
                        subsets@[j],
                        magic,
                        (64 - bits) as u64,
                    ) < table@.len() && table@[hash(subsets@[j], magic, (64 - bits) as u64)]
                        == reference@[j]
            },
            None => forall|n: nat|
                1 <= n <= TRIAL_LIMIT ==> !#[trigger] serves(
                    seed,
                    n,
                    mask,
                    (64 - bits) as u64,
                    subsets@,
                    reference@,
                ),
        },
{
    let shift: u64 = 64 - bits as u64;
    let size64: u64 = 1u64 << (bits as u64);
    proof {
        lemma_index_bound(0, shift);
    }
    let size: usize = size64 as usize;
    let mut table: Vec<Bitboard> = vec![Bitboard::new(0); size];
    let mut epoch: Vec<u32> = vec![0u32; size];
    let mut prng = SeededPRNG::new(seed);
    let mut count: u32 = 0;
    while count < TRIAL_LIMIT
        invariant
            shift == 64 - bits,
            52 <= shift <= 63,
            size == (1u64 << ((64 - shift) as u64)),
            subsets@.len() == reference@.len(),
            table@.len() == size,
            epoch@.len() == size,
            count <= TRIAL_LIMIT,
            shift == (64 - bits) as u64,
            prng.state() == state_after(seed, count as nat),
            forall|k: int| 0 <= k < size ==> (#[trigger] epoch@[k]) <= count,
            forall|m: nat|
                1 <= m <= count ==> !#[trigger] serves(seed, m, mask, shift, subsets@, reference@),
        decreases TRIAL_LIMIT - count,
    {
        count += 1;
        let magic = prng.roll();
        proof {
            assert(magic == candidate(seed, count as nat));
            assert(prng.state() == state_after(seed, count as nat));
        }
        if (magic.wrapping_mul(mask) >> 56).count_ones() >= 6 {
            let mut i: usize = 0;
            let mut clash = false;
            while i < subsets.len() && !clash
                invariant
                    52 <= shift <= 63,
                    size == (1u64 << ((64 - shift) as u64)),
                    subsets@.len() == reference@.len(),
                    i <= subsets@.len(),
                    table@.len() == size,
                    epoch@.len() == size,
                    1 <= count <= TRIAL_LIMIT,
                    shift == (64 - bits) as u64,
                    1 <= bits <= 12,
                    magic == candidate(seed, count as nat),
                    dense(magic, mask),
                    forall|m: nat|
                        1 <= m < count ==> !#[trigger] serves(
                            seed,
                            m,
                            mask,
                            shift,
                            subsets@,
                            reference@,
                        ),
                    forall|k: int| 0 <= k < size ==> (#[trigger] epoch@[k]) <= count,
                    forall|k: int|
                        0 <= k < size && (#[trigger] epoch@[k]) == count ==> exists|j: int|
                            0 <= j < i && #[trigger] hash(subsets@[j], magic, shift) == k,
                    forall|j: int|
                        0 <= j < i ==> 0 <= #[trigger] hash(subsets@[j], magic, shift) < size
                            && epoch@[hash(subsets@[j], magic, shift)] == count && table@[hash(
                            subsets@[j],
                            magic,
                            shift,
                        )] == reference@[j],
                    clash ==> !clash_free(magic, shift, subsets@, reference@),
                decreases
                        subsets@.len() - i + if clash {
                            0int
                        } else {
                            1int
                        },
            {
                let x = subsets[i];
                proof {
                    lemma_index_bound(vstd::wrapping::u64_specs::wrapping_mul(x, magic), shift);
                }
                let index: usize = (x.wrapping_mul(magic) >> shift) as usize;
                let ghost stamps = epoch@;
                if epoch[index] < count {
                    epoch[index] = count;
                    table[index] = reference[i];
                    proof {
                        assert forall|k: int|
                            0 <= k < size && (#[trigger] epoch@[k]) == count implies exists|j: int|
                            0 <= j < i + 1 && #[trigger] hash(subsets@[j], magic, shift) == k by {
                            if k == index {
                                assert(hash(subsets@[i as int], magic, shift) == k);
                            } else {
                                assert(stamps[k] == count);
                                let j = choose|j: int|
                                    0 <= j < i && #[trigger] hash(subsets@[j], magic, shift) == k;
                                assert(hash(subsets@[j], magic, shift) == k);
                            }
                        }
                    }
                    i += 1;
                } else if table[index] != reference[i] {
                    proof {
                        assert(epoch@[index as int] == count);
                        let j = choose|j: int|
                            0 <= j < i && #[trigger] hash(subsets@[j], magic, shift) == index;
                        assert(table@[hash(subsets@[j], magic, shift)] == reference@[j]);
                        assert(hash(subsets@[j], magic, shift) == hash(
                            subsets@[i as int],
                            magic,
                            shift,
                        ));
                        assert(reference@[j] != reference@[i as int]);
                    }
                    clash = true;
                } else {
                    proof {
                        assert forall|k: int|
                            0 <= k < size && (#[trigger] epoch@[k]) == count implies exists|j: int|
                            0 <= j < i + 1 && #[trigger] hash(subsets@[j], magic, shift) == k by {
                            let j = choose|j: int|
                                0 <= j < i && #[trigger] hash(subsets@[j], magic, shift) == k;
                            assert(hash(subsets@[j], magic, shift) == k);
                        }
                        assert(epoch@[index as int] == count);
                    }
                    i += 1;
                }
            }
            if !clash {
                proof {
                    assert(clash_free(magic, shift, subsets@, reference@)) by {
                        assert forall|a: int, b: int|
                            #![trigger hash(subsets@[a], magic, shift), hash(subsets@[b], magic, shift)]
                            0 <= a < subsets@.len() && 0 <= b < subsets@.len() && hash(
                                subsets@[a],
                                magic,
                                shift,
                            ) == hash(subsets@[b], magic, shift) implies reference@[a]
                            == reference@[b] by {
                            assert(table@[hash(subsets@[a], magic, shift)] == reference@[a]);
                            assert(table@[hash(subsets@[b], magic, shift)] == reference@[b]);
                        }
                    }
                    let n = count as nat;
                    let sh = (64 - bits) as u64;
                    assert(sh == shift);
                    assert((64 - shift) as u64 == bits as u64);
                    assert(table@.len() == (1u64 << (bits as u64)));
                    assert(serves(seed, n, mask, sh, subsets@, reference@));
                    assert(first_to_serve(seed, n, mask, sh, subsets@, reference@));
                    assert(exists|n: nat|
                        n <= TRIAL_LIMIT && magic == candidate(seed, n) && #[trigger] first_to_serve(
                            seed,
                            n,
                            mask,
                            sh,
                            subsets@,
                            reference@,
                        ));
                    assert forall|j: int| 0 <= j < subsets@.len() implies 0 <= #[trigger] hash(
                        subsets@[j],
                        magic,
                        sh,
                    ) < table@.len() && table@[hash(subsets@[j], magic, sh)] == reference@[j] by {
                        assert(0 <= hash(subsets@[j], magic, shift) < size);
                    }
                }
                return Some((magic, table));
            }
        }
    }
    None
}

/// What is kept for one square: the mask of the squares that matter, the multiplier
/// and the shift that send a masked occupancy to a slot, and the place where the
/// square's slots start in the table of attacks, with their number.
#[derive(Debug, Clone, Copy)]
pub struct Magic {
    mask: Bitboard,
    magic: Bitboard,
    shift: i32,
    offset: usize,
    size: usize,
    found: bool,
    extract: bool,
}

impl Magic {
    #[verifier::type_invariant]
    closed spec fn shift_ok(self) -> bool {
        52 <= self.shift < 64 && (self.extract ==> count_ones_below(self.mask.0, 64) <= 12)
    }

    /// Whether a multiplier was found for the square.
    pub closed spec fn found_spec(self) -> bool {
        self.found
    }

    /// The place in the table of attacks where the square's slots start.
    pub closed spec fn offset_spec(self) -> int {
        self.offset as int
    }

    /// The mask of the squares whose occupancy matters.
    pub closed spec fn mask_val(self) -> Bitboard {
        self.mask
    }

    /// The multiplier.
    pub closed spec fn multiplier_val(self) -> u64 {
        self.magic.0
    }

    /// The number of the square's slots; none where no multiplier was found.
    pub closed spec fn size_spec(self) -> int {
        self.size as int
    }

    /// The slot, among those of the square, that an occupancy is sent to.
    pub closed spec fn index_spec(self, occupancy: Bitboard) -> int {
        if self.extract {
            pext_spec(occupancy.0, self.mask.0) as int
        } else {
            hash(self.mask.0 & occupancy.0, self.magic.0, self.shift as u64)
        }
    }


    /// The entry without a multiplier, as a value.
    pub closed spec fn blank() -> Magic {
        Magic {
            mask: Bitboard(0),
            magic: Bitboard(0),
            shift: 63,
            offset: 0,
            size: 0,
            found: false,
            extract: false,
        }
    }

    /// An entry without a multiplier and without slots, placed at `offset`.
    fn none(offset: usize) -> (r: Self)
        ensures
            !r.found_spec(),
            r.offset_spec() == offset,
            r.size_spec() == 0,
    {
        Self {
            mask: Bitboard::new(0),
            magic: Bitboard::new(0),
            shift: 63,
            offset,
            size: 0,
            found: false,
            extract: false,
        }
    }

    /// An entry without a multiplier.
    pub fn new() -> (r: Self)
        ensures
            r == Magic::blank(),
            !r.found_spec(),
    {
        Self {
            mask: Bitboard::new(0),
            magic: Bitboard::new(0),
            shift: 63,
            offset: 0,
            size: 0,
            found: false,
            extract: false,
        }
    }

    /// The slot, among those of the square, that an occupancy is sent to: the part of
    /// the occupancy inside the mask, times the multiplier, shifted down; or, where the
    /// entry has no multiplier, the bits of the occupancy inside the mask, packed.
    pub fn index(&self, occupancy: Bitboard) -> (r: usize)
        ensures
            r == self.index_spec(occupancy),
    {
        proof {
            use_type_invariant(self);
            lemma_index_bound(
                vstd::wrapping::u64_specs::wrapping_mul(self.mask.0 & occupancy.0, self.magic.0),
                self.shift as u64,
            );
        }
        if self.extract {
            proof {
                lemma_extract_fits(occupancy.0, self.mask.0);
            }
            pext(occupancy.into_inner(), self.mask.into_inner()) as usize
        } else {
            self.mask.bitand(occupancy).mul(self.magic).shr(self.shift).into_inner() as usize
        }
    }
}

/// Whether the entry of square `sq`, where it has a multiplier, leads every occupancy
/// to a slot that holds the attacks of the slider under that occupancy.
pub open spec fn entry_ok(m: Magic, sq: Square, is_rook: bool, attacks: Seq<Bitboard>) -> bool {
    m.found_spec() ==> m.offset_spec() + m.size_spec() <= attacks.len() && forall|occ: Bitboard|
        0 <= #[trigger] m.index_spec(occ) < m.size_spec() && attacks[m.offset_spec() + m.index_spec(
            occ,
        )] == kind_spec(sq, is_rook, occ)
}

/// The number of slots of the first `n` entries together.
pub open spec fn slots_before(magics: Seq<Magic>, n: int) -> int
    decreases n,
{
    if n <= 0 {
        0
    } else {
        slots_before(magics, n - 1) + magics[n - 1].size_spec()
    }
}

/// Whether the slots of each of the first `n` entries start where those of the
/// entries before it end, the first at the start of the table, and the table has no
/// slot more.
pub open spec fn laid_out(magics: Seq<Magic>, n: int, slots: int) -> bool {
    slots == slots_before(magics, n) && forall|i: int|
        0 <= i < n ==> (#[trigger] magics[i]).offset_spec() == slots_before(magics, i)
}

/// One more entry leaves the slots of the entries before it where they are.
proof fn lemma_slots_prefix(magics: Seq<Magic>, e: Magic, n: int)
    requires
        n <= magics.len(),
    ensures
        slots_before(magics.push(e), n) == slots_before(magics, n),
    decreases n,
{
    if n > 0 {
        lemma_slots_prefix(magics, e, n - 1);
    }
}

/// With one more entry that starts where the table ended, the table is still laid
/// out.
proof fn lemma_laid_out_push(magics: Seq<Magic>, e: Magic, slots: int)
    requires
        laid_out(magics, magics.len() as int, slots),
        e.offset_spec() == slots,
    ensures
        laid_out(magics.push(e), (magics.len() + 1) as int, slots + e.size_spec()),
{
    let n = magics.len() as int;
    let ext = magics.push(e);
    lemma_slots_prefix(magics, e, n);
    assert forall|i: int| 0 <= i < n + 1 implies (#[trigger] ext[i]).offset_spec() == slots_before(
        ext,
        i,
    ) by {
        lemma_slots_prefix(magics, e, i);
    }
}

/// Whether the first `n` entries are right.
pub open spec fn entries_ok(magics: Seq<Magic>, n: int, is_rook: bool, attacks: Seq<Bitboard>) -> bool {
    forall|i: int| 0 <= i < n ==> entry_ok(#[trigger] magics[i], Square::at(i), is_rook, attacks)
}

/// The magic tables of one kind of slider: an entry for each square, and the attacks
/// of all squares in one run of slots.
pub struct MagicTable {
    magics: Vec<Magic>,
    attacks: Vec<Bitboard>,
    is_rook: bool,
}

impl MagicTable {
    /// Whether every square's entry leads every occupancy to the slider's attacks.
    #[verifier::type_invariant]
    pub closed spec fn wf(&self) -> bool {
        &&& self.magics@.len() == 64
        &&& entries_ok(self.magics@, 64, self.is_rook, self.attacks@)
        &&& laid_out(self.magics@, 64, self.attacks@.len() as int)
    }

    /// The place in the table of attacks where the slots of `square` start.
    pub closed spec fn offset_of(&self, square: Square) -> int {
        self.magics@[square.index()].offset_spec()
    }

    /// The mask of the squares whose occupancy matters to the slider on `square`.
    pub closed spec fn mask_of(&self, square: Square) -> Bitboard {
        self.magics@[square.index()].mask_val()
    }

    /// The multiplier of `square`.
    pub closed spec fn multiplier_of(&self, square: Square) -> u64 {
        self.magics@[square.index()].multiplier_val()
    }

    /// The number of slots of `square`.
    pub closed spec fn size_of(&self, square: Square) -> int {
        self.magics@[square.index()].size_spec()
    }

    /// The slots of the first square start at the start of the table, and the slots of
    /// every other square start where those of the square before it end.
    pub proof fn lemma_layout(&self, i: int)
        requires
            self.wf(),
            0 <= i < 64,
        ensures
            self.offset_of(Square::at(0)) == 0,
            i > 0 ==> self.offset_of(Square::at(i)) == self.offset_of(Square::at(i - 1))
                + self.size_of(Square::at(i - 1)),
    {
        crate::square::lemma_square_at(0);
        crate::square::lemma_square_at(i);
        assert(self.magics@[0].offset_spec() == slots_before(self.magics@, 0));
        if i > 0 {
            crate::square::lemma_square_at(i - 1);
            assert(self.magics@[i].offset_spec() == slots_before(self.magics@, i));
            assert(self.magics@[i - 1].offset_spec() == slots_before(self.magics@, i - 1));
        }
    }

    /// The mask of the squares whose occupancy matters to the slider on `square`, and
    /// the multiplier of the square; an empty mask and zero where the square has no
    /// slots or its slots are found by extracting bits.
    pub fn mask_and_multiplier(&self, square: Square) -> (r: (Bitboard, u64))
        ensures
            r.0 == self.mask_of(square),
            r.1 == self.multiplier_of(square),
    {
        proof {
            use_type_invariant(self);
            lemma_square_index(square);
        }
        let m = self.magics[square.idx() as usize];
        (m.mask, m.magic.into_inner())
    }

    /// Where the slots of `square` start in the table of attacks, and how many they
    /// are.
    pub fn span(&self, square: Square) -> (r: (usize, usize))
        ensures
            r.0 == self.offset_of(square),
            r.1 == self.size_of(square),
    {
        proof {
            use_type_invariant(self);
            lemma_square_index(square);
        }
        let m = self.magics[square.idx() as usize];
        (m.offset, m.size)
    }

    /// Whether the tables are those of the rook.
    pub closed spec fn rook(&self) -> bool {
        self.is_rook
    }

    /// What the slot holds that the multiplier of `square` sends the occupancy to.
    pub closed spec fn lookup_spec(&self, square: Square, occupancy: Bitboard) -> Bitboard {
        let m = self.magics@[square.index()];
        self.attacks@[m.offset_spec() + m.index_spec(occupancy)]
    }

    /// For every square and every occupancy, what is looked up through the square's
    /// multiplier is what casting rays from the square gives.
    pub proof fn lemma_magic_equals_ray_cast(&self, square: Square, occupancy: Bitboard)
        requires
            self.wf(),
            self.has_magic(square),
        ensures
            self.lookup_spec(square, occupancy) == kind_spec(square, self.rook(), occupancy),
            self.lookup_spec(square, occupancy) == sliders_spec(
                square,
                occupancy,
                if self.rook() {
                    seq![Direction::North, Direction::South, Direction::East, Direction::West]
                } else {
                    seq![
                        Direction::NorthEast,
                        Direction::SouthEast,
                        Direction::NorthWest,
                        Direction::SouthWest,
                    ]
                },
            ),
    {
        lemma_square_index(square);
        let m = self.magics@[square.index()];
        assert(entry_ok(m, square, self.is_rook, self.attacks@));
        assert(0 <= m.index_spec(occupancy) < m.size_spec());
        let rook_dirs = seq![Direction::North, Direction::South, Direction::East, Direction::West];
        let bishop_dirs = seq![
            Direction::NorthEast,
            Direction::SouthEast,
            Direction::NorthWest,
            Direction::SouthWest,
        ];
        assert forall|d: Direction| #[trigger] rook_dirs.contains(d) <==> d.is_orthogonal() by {
            if d.is_orthogonal() {
                assert(rook_dirs[d.index()] == d);
            }
        }
        assert forall|d: Direction| #[trigger] bishop_dirs.contains(d) <==> d.is_diagonal() by {
            if d.is_diagonal() {
                assert(bishop_dirs[d.index() - 4] == d);
            }
        }
        lemma_sliders_by_kind(square, occupancy, rook_dirs);
        lemma_sliders_by_kind(square, occupancy, bishop_dirs);
    }

    /// Two tables of the same slider hold the same attacks for every square and every
    /// occupancy, however each finds its slots: by a multiplier or by extracting bits.
    pub proof fn lemma_tables_agree(&self, other: &MagicTable, square: Square, occupancy: Bitboard)
        requires
            self.wf(),
            other.wf(),
            self.rook() == other.rook(),
            self.has_magic(square),
            other.has_magic(square),
        ensures
            self.lookup_spec(square, occupancy) == other.lookup_spec(square, occupancy),
    {
        self.lemma_magic_equals_ray_cast(square, occupancy);
        other.lemma_magic_equals_ray_cast(square, occupancy);
    }

    /// The attacks of the slider on `square`, looked up under the occupancy; nothing
    /// where no multiplier was found for the square.
    pub fn attack(&self, square: Square, occupancy: Bitboard) -> (r: Option<Bitboard>)
        ensures
            r is Some ==> r->0 == kind_spec(square, self.rook(), occupancy),
            r is Some ==> r->0 == self.lookup_spec(square, occupancy),
            r is Some == self.has_magic(square),
    {
        proof {
            use_type_invariant(self);
            lemma_square_index(square);
        }
        let m = self.magics[square.idx() as usize];
        if m.found {
            let i = m.index(occupancy);
            let slots = self.attacks.len();
            proof {
                assert(slots <= usize::MAX);
                assert(m == self.magics@[square.index()]);
                assert(entry_ok(m, square, self.is_rook, self.attacks@));
                assert(0 <= m.index_spec(occupancy) < m.size_spec());
                assert(m.offset + i < self.attacks@.len());
            }
            let slot: usize = m.offset + i;
            Some(self.attacks[slot])
        } else {
            None
        }
    }

    /// Whether a multiplier was found for the square.
    pub closed spec fn has_magic(&self, square: Square) -> bool {
        self.magics@[square.index()].found_spec()
    }

    /// The number of squares with numbers below `n` for which a multiplier was found.
    pub closed spec fn found_below(&self, n: nat) -> nat
        decreases n,
    {
        if n == 0 {
            0
        } else {
            self.found_below((n - 1) as nat) + if self.magics@[n - 1].found_spec() {
                1nat
            } else {
                0nat
            }
        }
    }

    /// The count goes up by one at each square for which a multiplier was found.
    pub proof fn lemma_found_below(&self, n: nat)
        requires
            0 < n <= 64,
        ensures
            self.found_below(0) == 0,
            self.found_below(n) == self.found_below((n - 1) as nat) + if self.has_magic(
                Square::at(n - 1),
            ) {
                1nat
            } else {
                0nat
            },
    {
        crate::square::lemma_square_at(n - 1);
    }

    /// Where every square has slots, all 64 are counted.
    pub proof fn lemma_found_all(&self, n: nat)
        requires
            n <= 64,
            forall|sq: Square| self.has_magic(sq),
        ensures
            self.found_below(n) == n,
        decreases n,
    {
        if n > 0 {
            self.lemma_found_all((n - 1) as nat);
            self.lemma_found_below(n);
        }
    }

    /// The number of squares that have slots: those for which a multiplier was found,
    /// or all where the slots are found by extracting bits.
    pub fn found_count(&self) -> (r: usize)
        ensures
            r == self.found_below(64),
            r <= 64,
            (forall|sq: Square| self.has_magic(sq)) ==> r == 64,
    {
        proof {
            use_type_invariant(self);
            if forall|sq: Square| self.has_magic(sq) {
                self.lemma_found_all(64);
            }
        }
        let mut n: usize = 0;
        let mut i: usize = 0;
        while i < 64
            invariant
                i <= 64,
                n <= i,
                n == self.found_below(i as nat),
                self.magics@.len() == 64,
            decreases 64 - i,
        {
            if self.magics[i].found {
                n += 1;
            }
            i += 1;
        }
        n
    }
}

/// The attacks of the slider on `sq` under each of the given occupancies.
pub open spec fn references_seq(sq: Square, is_rook: bool, subsets: Seq<u64>) -> Seq<Bitboard> {
    Seq::new(subsets.len(), |j: int| kind_spec(sq, is_rook, Bitboard(subsets[j])))
}

/// The seed of the generator that rolls the multipliers tried for `sq`: one for each
/// rank.
pub open spec fn seed_of(sq: Square) -> u64 {
    let y = sq.rank_index();
    if y == 0 {
        728
    } else if y == 1 {
        10316
    } else if y == 2 {
        55013
    } else if y == 3 {
        32803
    } else if y == 4 {
        12281
    } else if y == 5 {
        15100
    } else if y == 6 {
        16645
    } else {
        255
    }
}

/// The number of slots that the table of `sq` has: one for each subset of its mask.
pub open spec fn slots_for(sq: Square, is_rook: bool) -> int {
    (1u64 << (mask_spec(sq, is_rook).count() as u64)) as int
}

/// Whether the `n`-th word rolled for `sq` serves as its multiplier: it spreads the
/// mask of `sq` well and sends the subsets of the mask to their slots without a clash
/// of attacks.
pub open spec fn search_serves(sq: Square, is_rook: bool, n: nat) -> bool {
    let mask = mask_spec(sq, is_rook);
    serves(
        seed_of(sq),
        n,
        mask.0,
        (64 - mask.count()) as u64,
        subsets_seq(mask.0),
        references_seq(sq, is_rook, subsets_seq(mask.0)),
    )
}

/// Whether `magic` is the first of the words rolled for `sq` that serves as its
/// multiplier, and comes within the limit of trials.
pub open spec fn search_finds(sq: Square, is_rook: bool, magic: u64) -> bool {
    let mask = mask_spec(sq, is_rook);
    exists|n: nat|
        n <= TRIAL_LIMIT && magic == candidate(seed_of(sq), n) && #[trigger] first_to_serve(
            seed_of(sq),
            n,
            mask.0,
            (64 - mask.count()) as u64,
            subsets_seq(mask.0),
            references_seq(sq, is_rook, subsets_seq(mask.0)),
        )
}

/// Whether the entry is the one that is built for `sq`: it has the mask of `sq` and a
/// slot for each subset of the mask; where slots are found by extracting bits it
/// always has them, and where they are found by a multiplier it has them exactly
/// when one of the words tried serves, the multiplier being the first that does.
pub open spec fn entry_built(m: Magic, sq: Square, is_rook: bool, extract: bool) -> bool {
    &&& m.found_spec() ==> m.mask_val() == mask_spec(sq, is_rook) && m.size_spec() == slots_for(
        sq,
        is_rook,
    )
    &&& extract ==> m.found_spec()
    &&& !extract ==> (m.found_spec() <==> exists|n: nat|
        1 <= n <= TRIAL_LIMIT && #[trigger] search_serves(sq, is_rook, n))
    &&& !extract && m.found_spec() ==> search_finds(sq, is_rook, m.multiplier_val())
}

/// Whether the first `n` entries are those that are built for their squares.
pub open spec fn entries_built(magics: Seq<Magic>, n: int, is_rook: bool, extract: bool) -> bool {
    forall|i: int| 0 <= i < n ==> entry_built(#[trigger] magics[i], Square::at(i), is_rook, extract)
}

/// Whether the tables are those that are built for the rook, or else the bishop: each
/// square has its mask and, where it has slots, one for each subset of the mask.
/// Tables looked up by extracting bits have slots for every square; magic tables have
/// them for exactly the squares for which one of the words tried serves as a
/// multiplier, and the multiplier is the first that does.
pub open spec fn built(t: MagicTable, is_rook: bool, extract: bool) -> bool {
    &&& t.rook() == is_rook
    &&& forall|sq: Square|
        #![trigger t.has_magic(sq)]
        #![trigger t.mask_of(sq)]
        #![trigger t.size_of(sq)]
        t.has_magic(sq) ==> t.mask_of(sq) == mask_spec(sq, is_rook) && t.size_of(sq) == slots_for(
            sq,
            is_rook,
        )
    &&& extract ==> forall|sq: Square|
        #![trigger t.has_magic(sq)]
        #![trigger t.mask_of(sq)]
        #![trigger t.size_of(sq)]
        t.has_magic(sq)
    &&& !extract ==> forall|sq: Square| #[trigger]
        t.has_magic(sq) <==> exists|n: nat|
            1 <= n <= TRIAL_LIMIT && #[trigger] search_serves(sq, is_rook, n)
    &&& !extract ==> forall|sq: Square| #[trigger]
        t.has_magic(sq) ==> search_finds(sq, is_rook, t.multiplier_of(sq))
}

/// The attacks of the slider on `sq` under each of the given occupancies.
fn references(sq: Square, is_rook: bool, subsets: &Vec<u64>) -> (r: Vec<Bitboard>)
    ensures
        r@ == references_seq(sq, is_rook, subsets@),
        r@.len() == subsets@.len(),
        forall|j: int|
            0 <= j < r@.len() ==> #[trigger] r@[j] == kind_spec(sq, is_rook, Bitboard(subsets@[j])),
{
    let mut out: Vec<Bitboard> = Vec::new();
    let mut i: usize = 0;
    while i < subsets.len()
        invariant
            i <= subsets@.len(),
            out@.len() == i,
            forall|j: int|
                0 <= j < i ==> #[trigger] out@[j] == kind_spec(sq, is_rook, Bitboard(subsets@[j])),
        decreases subsets@.len() - i,
    {
        out.push(slider_gen(sq, Bitboard::new(subsets[i]), is_rook));
        i += 1;
    }
    proof {
        assert(out@ =~= references_seq(sq, is_rook, subsets@));
    }
    out
}

/// What is extracted through a mask of at most twelve bits is a number below 4096.
proof fn lemma_extract_fits(a: u64, mask: u64)
    requires
        count_ones_below(mask, 64) <= 12,
    ensures
        pext_spec(a, mask) < (1u64 << (count_ones_below(mask, 64) as u64)),
        (1u64 << (count_ones_below(mask, 64) as u64)) <= 4096,
{
    lemma_pext_bound(a, mask, 64);
    lemma_pow_small(count_ones_below(mask, 64) as u64);
}

/// Fills a table so that each of the given subsets of the mask finds its attacks in
/// the slot that its extracted bits name.
fn fill_by_extract(mask: u64, bits: u32, subsets: &Vec<u64>, reference: &Vec<Bitboard>) -> (table:
    Vec<Bitboard>)
    requires
        bits <= 12,
        bits == count_ones_below(mask, 64),
        subsets@.len() == reference@.len(),
        forall|j: int| 0 <= j < subsets@.len() ==> (#[trigger] subsets@[j]) & !mask == 0,
        forall|i: int, j: int| 0 <= i < j < subsets@.len() ==> subsets@[i] < subsets@[j],
    ensures
        table@.len() == (1u64 << (bits as u64)),
        forall|j: int|
            0 <= j < subsets@.len() ==> pext_spec(#[trigger] subsets@[j], mask) < table@.len()
                && table@[pext_spec(subsets@[j], mask) as int] == reference@[j],
{
    proof {
        lemma_extract_fits(0, mask);
    }
    let size: usize = (1u64 << (bits as u64)) as usize;
    let mut table: Vec<Bitboard> = vec![Bitboard::new(0); size];
    let mut j: usize = 0;
    while j < subsets.len()
        invariant
            j <= subsets@.len(),
            bits <= 12,
            bits == count_ones_below(mask, 64),
            subsets@.len() == reference@.len(),
            table@.len() == size,
            size == (1u64 << (bits as u64)),
            forall|i: int| 0 <= i < subsets@.len() ==> (#[trigger] subsets@[i]) & !mask == 0,
            forall|i: int, k: int| 0 <= i < k < subsets@.len() ==> subsets@[i] < subsets@[k],
            forall|i: int|
                0 <= i < j ==> pext_spec(#[trigger] subsets@[i], mask) < size && table@[pext_spec(
                    subsets@[i],
                    mask,
                ) as int] == reference@[i],
        decreases subsets@.len() - j,
    {
        let s = subsets[j];
        proof {
            lemma_extract_fits(s, mask);
        }
        let index: usize = pext(s, mask) as usize;
        let ghost before = table@;
        table[index] = reference[j];
        proof {
            assert forall|i: int| 0 <= i < j + 1 implies pext_spec(#[trigger] subsets@[i], mask)
                < size && table@[pext_spec(subsets@[i], mask) as int] == reference@[i] by {
                if i < j {
                    if pext_spec(subsets@[i], mask) == pext_spec(s, mask) {
                        lemma_pext_injective(subsets@[i], s, mask);
                    }
                    assert(table@[pext_spec(subsets@[i], mask) as int] == before[pext_spec(
                        subsets@[i],
                        mask,
                    ) as int]);
                }
            }
        }
        j += 1;
    }
    table
}

/// The entries that were right stay right when slots are added at the end of the
/// table, and the new entry joins them.
proof fn lemma_entries_push(
    olds: Seq<Magic>,
    entry: Magic,
    is_rook: bool,
    before: Seq<Bitboard>,
    after: Seq<Bitboard>,
)
    requires
        entries_ok(olds, olds.len() as int, is_rook, before),
        before.len() <= after.len(),
        forall|i: int| 0 <= i < before.len() ==> after[i] == before[i],
        entry_ok(entry, Square::at(olds.len() as int), is_rook, after),
    ensures
        entries_ok(olds.push(entry), (olds.len() + 1) as int, is_rook, after),
{
    let ext = olds.push(entry);
    assert forall|i: int| 0 <= i < olds.len() + 1 implies entry_ok(
        #[trigger] ext[i],
        Square::at(i),
        is_rook,
        after,
    ) by {
        if i < olds.len() {
            assert(ext[i] == olds[i]);
            assert(entry_ok(olds[i], Square::at(i), is_rook, before));
            if olds[i].found_spec() {
                assert forall|occ: Bitboard|
                    0 <= #[trigger] olds[i].index_spec(occ) < olds[i].size_spec()
                        && after[olds[i].offset_spec() + olds[i].index_spec(occ)] == kind_spec(
                        Square::at(i),
                        is_rook,
                        occ,
                    ) by {
                    let slot = olds[i].offset_spec() + olds[i].index_spec(occ);
                    assert(0 <= olds[i].index_spec(occ) < olds[i].size_spec());
                    assert(after[slot] == before[slot]);
                }
            }
        }
    }
}

/// Builds the tables of the rook, or else of the bishop: for each square, the mask,
/// every occupancy inside the mask with the attacks under it, and the slots filled
/// so that each occupancy finds its attacks, either through a multiplier found by
/// trial or by extracting bits. The slots of the squares follow one another in the
/// table, those of the first square at its start.
#[verifier::rlimit(100)]
fn build_tables(is_rook: bool, extract: bool) -> (r: MagicTable)
    ensures
        r.wf(),
        built(r, is_rook, extract),
{
    let seeds: [u64; 8] = [728, 10316, 55013, 32803, 12281, 15100, 16645, 255];
    let mut magics: Vec<Magic> = Vec::new();
    let mut attacks: Vec<Bitboard> = Vec::new();
    let mut k: usize = 0;
    while k < 64
        invariant
            k <= 64,
            magics@.len() == k,
            attacks@.len() <= 4096 * k,
            entries_ok(magics@, k as int, is_rook, attacks@),
            entries_built(magics@, k as int, is_rook, extract),
            laid_out(magics@, k as int, attacks@.len() as int),
            seeds@ == seq![728u64, 10316, 55013, 32803, 12281, 15100, 16645, 255],
        decreases 64 - k,
    {
        let square = Square::from_index(k as u8);
        let mask = relevant_mask(square, is_rook);
        let bits = mask.popcount();
        let ghost before = attacks@;
        let ghost olds = magics@;
        let offset = attacks.len();
        let mut entry = Magic::none(offset);
        proof {
            lemma_mask_small(square, is_rook);
            lemma_square_index(square);
        }
        let subsets = subsets_of(mask.into_inner());
        let reference = references(square, is_rook, &subsets);
        let filled = if extract {
            Some((0u64, fill_by_extract(mask.into_inner(), bits as u32, &subsets, &reference)))
        } else {
            let seed = seeds[square.rank() as usize];
            proof {
                assert(seed == seed_of(square));
            }
            find_magic(mask.into_inner(), bits as u32, &subsets, &reference, seed)
        };
        match filled {
            Some((magic, table)) => {
                let mut table = table;
                let size = table.len();
                let ghost slots = table@;
                proof {
                    lemma_pow_small(bits as u64);
                }
                attacks.append(&mut table);
                entry =
                Magic {
                    mask,
                    magic: Bitboard::new(magic),
                    shift: 64 - bits,
                    offset,
                    size,
                    found: true,
                    extract,
                };
                proof {
                    assert forall|occ: Bitboard|
                        0 <= #[trigger] entry.index_spec(occ) < entry.size_spec()
                            && attacks@[entry.offset_spec() + entry.index_spec(occ)] == kind_spec(
                            square,
                            is_rook,
                            occ,
                        ) by {
                        let s = mask.0 & occ.0;
                        lemma_subset_bits(occ.0, mask.0);
                        lemma_pext_masked(occ.0, mask.0, 64);
                        assert(subsets@.contains(s));
                        let j = choose|j: int| 0 <= j < subsets@.len() && subsets@[j] == s;
                        if extract {
                            assert(entry.index_spec(occ) == pext_spec(subsets@[j], mask.0));
                        } else {
                            assert(entry.index_spec(occ) == hash(
                                subsets@[j],
                                magic,
                                (64 - bits) as u64,
                            ));
                        }
                        assert(slots[entry.index_spec(occ)] == reference@[j]);
                        lemma_mask_relevance(square, is_rook, occ);
                        assert(Bitboard(s) == mask.and(occ));
                    }
                    lemma_built_found(square, is_rook, extract, entry, magic);
                }
            },
            None => {
                proof {
                    assert(!extract);
                    assert forall|n: nat| 1 <= n <= TRIAL_LIMIT implies !#[trigger] search_serves(
                        square,
                        is_rook,
                        n,
                    ) by {
                        assert(!serves(
                            seed_of(square),
                            n,
                            mask.0,
                            (64 - bits) as u64,
                            subsets@,
                            reference@,
                        ));
                    }
                    assert(entry_built(entry, square, is_rook, extract));
                }
            },
        }
        proof {
            assert(entry_built(entry, square, is_rook, extract));
            lemma_entries_push(olds, entry, is_rook, before, attacks@);
            lemma_laid_out_push(olds, entry, before.len() as int);
            assert forall|i: int| 0 <= i < k + 1 implies entry_built(
                #[trigger] olds.push(entry)[i],
                Square::at(i),
                is_rook,
                extract,
            ) by {
                if i < k {
                    assert(olds.push(entry)[i] == olds[i]);
                }
            }
        }
        magics.push(entry);
        k += 1;
    }
    let r = MagicTable { magics, attacks, is_rook };
    proof {
        assert forall|sq: Square| entry_built(r.magics@[sq.index()], sq, is_rook, extract) by {
            lemma_square_index(sq);
        }
        assert(built(r, is_rook, extract));
    }
    r
}

/// An entry with the mask of its square, a slot for each subset of the mask and, where
/// it has one, the first multiplier that serves is the entry built for the square.
proof fn lemma_built_found(sq: Square, is_rook: bool, extract: bool, entry: Magic, magic: u64)
    requires
        entry.found_spec(),
        entry.mask_val() == mask_spec(sq, is_rook),
        entry.size_spec() == slots_for(sq, is_rook),
        entry.multiplier_val() == magic,
        !extract ==> search_finds(sq, is_rook, magic),
    ensures
        entry_built(entry, sq, is_rook, extract),
{
    if !extract {
        let mask = mask_spec(sq, is_rook);
        let n = choose|n: nat|
            n <= TRIAL_LIMIT && magic == candidate(seed_of(sq), n) && #[trigger] first_to_serve(
                seed_of(sq),
                n,
                mask.0,
                (64 - mask.count()) as u64,
                subsets_seq(mask.0),
                references_seq(sq, is_rook, subsets_seq(mask.0)),
            );
        assert(1 <= n <= TRIAL_LIMIT && search_serves(sq, is_rook, n));
    }
}

/// Builds the magic tables of the rook, or else of the bishop: for each square, the
/// mask, every occupancy inside the mask with the attacks under it, and a multiplier,
/// found by trial, that sends the occupancies to slots without a clash. A square for
/// which no multiplier is found within the limit of trials gets no slots.
pub fn init_magics_for(is_rook: bool) -> (r: MagicTable)
    ensures
        r.wf(),
        r.rook() == is_rook,
        built(r, is_rook, false),
{
    build_tables(is_rook, false)
}

/// Builds the tables of the rook, or else of the bishop, that are looked up by
/// extracting the bits of the mask from the occupancy: the same masks and the same
/// attacks as the magic tables hold, found without a search for multipliers.
pub fn init_pext_for(is_rook: bool) -> (r: MagicTable)
    ensures
        r.wf(),
        r.rook() == is_rook,
        built(r, is_rook, true),
        forall|sq: Square| #[trigger] r.has_magic(sq),
{
    build_tables(is_rook, true)
}

/// Builds the tables of the bishop and of the rook that are looked up by extracting
/// bits.
pub fn init_pext() -> (r: (MagicTable, MagicTable))
    ensures
        r.0.wf(),
        !r.0.rook(),
        built(r.0, false, true),
        r.1.wf(),
        r.1.rook(),
        built(r.1, true, true),
{
    (init_pext_for(false), init_pext_for(true))
}

/// Builds the magic tables of the bishop and of the rook.
pub fn init_magics() -> (r: (MagicTable, MagicTable))
    ensures
        r.0.wf(),
        !r.0.rook(),
        built(r.0, false, false),
        r.1.wf(),
        r.1.rook(),
        built(r.1, true, false),
{
    (init_magics_for(false), init_magics_for(true))
}

} // verus!
