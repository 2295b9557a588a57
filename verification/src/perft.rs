use vstd::prelude::*;

use crate::movegen::generate::legal;
use crate::movegen::Move;
use crate::position::play::{lemma_after, lemma_legal_playable};
use crate::position::{Position, PositionView};
use crate::precompute::Tables;

verus! {

/// The number of positions reached by `depth` legal moves from the position `v`,
/// counted with their multiplicity.
pub open spec fn perft_nodes(v: PositionView, depth: nat) -> nat
    decreases depth, 0nat,
{
    if depth == 0 {
        1
    } else {
        perft_sum(v, v.legal_moves(), (depth - 1) as nat)
    }
}

/// The number of positions reached by one of the moves `moves` from the position `v`
/// and `depth` legal moves after it.
pub open spec fn perft_sum(v: PositionView, moves: Seq<Move>, depth: nat) -> nat
    decreases depth, 1 + moves.len(),
{
    if moves.len() == 0 {
        0
    } else {
        perft_sum(v, moves.drop_last(), depth) + perft_nodes(v.after(moves.last()), depth)
    }
}

/// A count, or the largest number that fits where the count does not.
pub open spec fn capped(n: nat) -> nat {
    if n > usize::MAX {
        usize::MAX as nat
    } else {
        n
    }
}

/// With no move to follow, each move counts once.
pub proof fn lemma_perft_sum_zero(v: PositionView, moves: Seq<Move>)
    ensures
        perft_sum(v, moves, 0) == moves.len(),
    decreases moves.len(),
{
    if moves.len() > 0 {
        lemma_perft_sum_zero(v, moves.drop_last());
        assert(perft_nodes(v.after(moves.last()), 0) == 1);
    }
}

/// One more move adds the positions that lie behind it.
pub proof fn lemma_perft_sum_push(v: PositionView, head: Seq<Move>, m: Move, depth: nat)
    ensures
        perft_sum(v, head.push(m), depth) == perft_sum(v, head, depth) + perft_nodes(
            v.after(m),
            depth,
        ),
{
    assert(head.push(m).drop_last() =~= head);
}

/// Makes the move, counts the positions that lie `depth - 1` moves behind it, and
/// takes the move back.
fn perft_step(pos: &mut Position, tables: &Tables, m: Move, depth: usize) -> (nodes: usize)
    requires
        old(pos).inv(),
        depth >= 1,
        old(pos)@.ply + depth < i32::MAX,
        old(pos)@.shape_ok(m),
        old(pos)@.legal(m),
    ensures
        final(pos).inv(),
        final(pos)@ == old(pos)@,
        nodes == capped(perft_nodes(old(pos)@.after(m), (depth - 1) as nat)),
    decreases depth, 0nat,
{
    let ghost v = pos@;
    proof {
        lemma_legal_playable(v, m);
    }
    pos.make_move(m, tables);
    proof {
        lemma_after(v, m, pos@);
    }
    let c = perft__(pos, tables, depth - 1);
    pos.unmake_move(m);
    c
}

/// Counts the positions reached by `depth` legal moves from the position, making and
/// taking back each move in turn. The position is left as it was found. A count that
/// does not fit is given as the largest number that does.
pub fn perft(pos: &mut Position, tables: &Tables, depth: usize) -> (nodes: usize)
    requires
        old(pos).inv(),
        old(pos)@.ply + depth < i32::MAX,
    ensures
        final(pos).inv(),
        final(pos)@ == old(pos)@,
        nodes == capped(perft_nodes(old(pos)@, depth as nat)),
{
    perft__(pos, tables, depth)
}

/// Counts, move by move, the positions reached by `depth` legal moves from the
/// position: for each legal move, in the order of generation, the move and the number
/// of positions that lie `depth - 1` moves behind it. The position is left as it was
/// found.
pub fn perft_divide(pos: &mut Position, tables: &Tables, depth: usize) -> (r: Vec<(Move, usize)>)
    requires
        old(pos).inv(),
        depth >= 1,
        old(pos)@.ply + depth < i32::MAX,
    ensures
        final(pos).inv(),
        final(pos)@ == old(pos)@,
        r@.len() == old(pos)@.legal_moves().len(),
        forall|i: int|
            0 <= i < r@.len() ==> (#[trigger] r@[i]).0 == old(pos)@.legal_moves()[i] && r@[i].1
                == capped(
                perft_nodes(old(pos)@.after(old(pos)@.legal_moves()[i]), (depth - 1) as nat),
            ),
{
    let ghost v = pos@;
    let moves = legal(pos, tables);
    let mut out: Vec<(Move, usize)> = Vec::new();
    let mut i: usize = 0;
    while i < moves.len()
        invariant
            pos.inv(),
            pos@ == v,
            depth >= 1,
            v.ply + depth < i32::MAX,
            moves@ == v.legal_moves(),
            forall|j: int|
                0 <= j < moves@.len() ==> v.shape_ok(#[trigger] moves@[j]) && v.legal(moves@[j]),
            i <= moves@.len(),
            out@.len() == i,
            forall|j: int|
                0 <= j < i ==> (#[trigger] out@[j]).0 == moves@[j] && out@[j].1 == capped(
                    perft_nodes(v.after(moves@[j]), (depth - 1) as nat),
                ),
        decreases moves@.len() - i,
    {
        let m = moves.get(i).unwrap();
        proof {
            assert(v.shape_ok(moves@[i as int]));
        }
        let c = perft_step(pos, tables, m, depth);
        out.push((m, c));
        i += 1;
    }
    out
}

/// Counts the positions reached by `depth` legal moves from the position.
pub fn perft__(pos: &mut Position, tables: &Tables, depth: usize) -> (nodes: usize)
    requires
        old(pos).inv(),
        old(pos)@.ply + depth < i32::MAX,
    ensures
        final(pos).inv(),
        final(pos)@ == old(pos)@,
        nodes == capped(perft_nodes(old(pos)@, depth as nat)),
    decreases depth, 1nat,
{
    if depth == 0 {
        return 1;
    }
    let ghost v = pos@;
    let moves = legal(pos, tables);
    if depth == 1 {
        proof {
            lemma_perft_sum_zero(v, moves@);
        }
        return moves.len();
    }
    let ghost below = (depth - 1) as nat;
    let mut nodes: usize = 0;
    let mut i: usize = 0;
    proof {
        assert(moves@.take(0) =~= Seq::<Move>::empty());
    }
    while i < moves.len()
        invariant
            pos.inv(),
            pos@ == v,
            depth >= 2,
            below == depth - 1,
            v.ply + depth < i32::MAX,
            moves@ == v.legal_moves(),
            forall|j: int|
                0 <= j < moves@.len() ==> v.shape_ok(#[trigger] moves@[j]) && v.legal(moves@[j]),
            i <= moves@.len(),
            nodes == capped(perft_sum(v, moves@.take(i as int), below)),
        decreases moves@.len() - i,
    {
        let m = moves.get(i).unwrap();
        proof {
            assert(v.shape_ok(moves@[i as int]));
            lemma_perft_sum_push(v, moves@.take(i as int), m, below);
            assert(moves@.take(i + 1) =~= moves@.take(i as int).push(m));
        }
        let c = perft_step(pos, tables, m, depth);
        nodes = nodes.saturating_add(c);
        i += 1;
    }
    proof {
        assert(moves@.take(i as int) =~= moves@);
    }
    nodes
}

} // verus!
