use crate::board::{Board, Position};
use crate::chess_move::Move;
use crate::definitions::{Piece, PieceType};
use crate::generate_moves::{extends_with, generated, kings, legal_moves};
use vstd::prelude::*;
use vstd::seq_lib::seq_to_set_is_finite;
use vstd::set::fold::{lemma_fold_empty, lemma_fold_insert};

verus! {

/// What move `m` adds to the count of depth `d` below `p`: the count of depth
/// `d - 1` below the position after it; nothing where `from` holds no piece.
pub open spec fn child_count(p: Position, m: Move, d: nat) -> nat
    decreases d, 0nat,
{
    if d > 0 && p.piece_at(m.from.idx()) is Some {
        perft_count(p.after(m), (d - 1) as nat)
    } else {
        0
    }
}

/// The leaves of the game tree of depth `d` below `p`: 1 at depth 0; otherwise
/// nothing where the side to move has no king, else the sum over the moves the
/// generator produces of the count below the position after each.
pub open spec fn perft_count(p: Position, d: nat) -> nat
    decreases d, 3nat,
{
    if d == 0 {
        1
    } else if kings(p, p.stm) == Set::<int>::empty() {
        0
    } else {
        moves_sum(p, Set::new(|m: Move| generated(p, m)), d)
    }
}

/// The sum of `child_count` over a set of moves.
pub open spec fn moves_sum(p: Position, s: Set<Move>, d: nat) -> nat
    decreases d, 2nat,
{
    s.fold(0nat, add_child(p, d))
}

/// Adds the `child_count` of a move to a running sum.
pub open spec fn add_child(p: Position, d: nat) -> spec_fn(nat, Move) -> nat
    decreases d, 1nat,
{
    |acc: nat, m: Move| acc + child_count(p, m, d)
}

/// The sum of the child counts over a sequence of moves.
pub open spec fn children_sum(p: Position, s: Seq<Move>, d: nat) -> nat
    decreases s.len(),
{
    if s.len() == 0 {
        0
    } else {
        children_sum(p, s.drop_last(), d) + child_count(p, s.last(), d)
    }
}

/// Over a sequence without repeats, the sum equals the sum over its set of moves.
proof fn lemma_children_sum_set(p: Position, s: Seq<Move>, d: nat)
    requires
        s.no_duplicates(),
    ensures
        children_sum(p, s, d) == moves_sum(p, s.to_set(), d),
    decreases s.len(),
{
    let f = add_child(p, d);
    assert(vstd::set::fold::is_fun_commutative(f));
    if s.len() == 0 {
        assert(s.to_set() =~= Set::<Move>::empty());
        lemma_fold_empty(0nat, f);
    } else {
        let t = s.drop_last();
        assert(t.no_duplicates());
        lemma_children_sum_set(p, t, d);
        seq_to_set_is_finite(t);
        assert(!t.contains(s.last())) by {
            if t.contains(s.last()) {
                let i = choose|i: int| 0 <= i < t.len() && t[i] == s.last();
                assert(s[i] == s[s.len() - 1]);
            }
        }
        assert(!t.to_set().contains(s.last()));
        assert(s.to_set() =~= t.to_set().insert(s.last())) by {
            assert forall|m: Move| s.to_set().contains(m) == t.to_set().insert(s.last()).contains(
                m,
            ) by {
                if s.contains(m) && m != s.last() {
                    let i = choose|i: int| 0 <= i < s.len() && s[i] == m;
                    assert(t[i] == m);
                }
                if t.contains(m) {
                    let i = choose|i: int| 0 <= i < t.len() && t[i] == m;
                    assert(s[i] == m);
                }
            }
        }
        lemma_fold_insert(t.to_set(), 0nat, f, s.last());
    }
}

fn saturating_min_step(count: u64, c: u64, Ghost(total): Ghost<nat>, Ghost(child): Ghost<nat>) -> (r: u64)
    requires
        count as int == if total > u64::MAX { u64::MAX as int } else { total as int },
        c as int == if child > u64::MAX { u64::MAX as int } else { child as int },
    ensures
        r as int == if total + child > u64::MAX { u64::MAX as int } else { (total + child) as int },
{
    count.saturating_add(c)
}

/// Counts the leaves of the game tree of the given depth below `board`: see
/// `perft_count`. The count saturates at `u64::MAX`.
pub fn perft(board: &Board, depth: u32) -> (r: u64)
    requires
        depth > 0 ==> board@.wf(),
        depth > 0 ==> board.halfmove_clock + depth < u32::MAX,
        depth > 0 ==> board.fullmove_number + depth < u32::MAX,
    ensures
        r as int == if perft_count(board@, depth as nat) > u64::MAX {
            u64::MAX as int
        } else {
            perft_count(board@, depth as nat) as int
        },
        depth == 0 ==> r == 1,
    decreases depth,
{
    if depth == 0 {
        return 1;
    }
    if board.get_piece_bb(Piece::from_type(PieceType::King, board.stm)).is_empty() {
        return 0;
    }
    let mut moves: Vec<Move> = Vec::new();
    legal_moves(board, &mut moves);
    let ghost d = depth as nat;
    let ghost p = board@;
    proof {
        assert(moves@.skip(0) =~= moves@);
    }
    let mut count: u64 = 0;
    let mut i: usize = 0;
    while i < moves.len()
        invariant
            p == board@,
            board@.wf(),
            depth > 0,
            d == depth,
            board.halfmove_clock + depth < u32::MAX,
            board.fullmove_number + depth < u32::MAX,
            i <= moves@.len(),
            count as int == if children_sum(p, moves@.subrange(0, i as int), d) > u64::MAX {
                u64::MAX as int
            } else {
                children_sum(p, moves@.subrange(0, i as int), d) as int
            },
        decreases moves.len() - i,
    {
        let m = moves[i];
        let ghost before = children_sum(p, moves@.subrange(0, i as int), d);
        assert(moves@.subrange(0, i + 1).drop_last() =~= moves@.subrange(0, i as int));
        let c: u64 = if board.get_square(m.from).is_some() {
            let mut child = *board;
            child.make_move(&m);
            perft(&child, depth - 1)
        } else {
            0
        };
        count = saturating_min_step(count, c, Ghost(before), Ghost(child_count(p, m, d)));
        i = i + 1;
    }
    proof {
        assert(moves@.subrange(0, moves@.len() as int) =~= moves@);
        lemma_children_sum_set(p, moves@, d);
        assert(moves@.to_set() =~= Set::new(|m: Move| generated(p, m)));
    }
    count
}


/// A count capped at `u64::MAX`.
pub open spec fn capped(n: nat) -> int {
    if n > u64::MAX {
        u64::MAX as int
    } else {
        n as int
    }
}

/// The legal moves of `board`, each with the count of depth `depth - 1` below the
/// board after it (capped at `u64::MAX`): the counts whose sum is `perft`.
pub fn perft_divide_counts(board: &Board, depth: u32) -> (r: Vec<(Move, u64)>)
    requires
        depth > 0,
        board@.wf(),
        kings(board@, board.stm) != Set::<int>::empty(),
        board.halfmove_clock + depth < u32::MAX,
        board.fullmove_number + depth < u32::MAX,
    ensures
        extends_with(
            Seq::<Move>::empty(),
            r@.map_values(|e: (Move, u64)| e.0),
            |m: Move| generated(board@, m),
        ),
        forall|i: int|
            0 <= i < r@.len() ==> #[trigger] r@[i].1 as int == capped(
                child_count(board@, r@[i].0, depth as nat),
            ),
{
    let mut moves: Vec<Move> = Vec::new();
    legal_moves(board, &mut moves);
    let mut out: Vec<(Move, u64)> = Vec::new();
    let mut i: usize = 0;
    while i < moves.len()
        invariant
            board@.wf(),
            depth > 0,
            board.halfmove_clock + depth < u32::MAX,
            board.fullmove_number + depth < u32::MAX,
            i <= moves@.len(),
            out@.len() == i,
            forall|k: int| 0 <= k < i ==> #[trigger] out@[k].0 == moves@[k],
            forall|k: int|
                0 <= k < out@.len() ==> #[trigger] out@[k].1 as int == capped(
                    child_count(board@, out@[k].0, depth as nat),
                ),
        decreases moves.len() - i,
    {
        let m = moves[i];
        let c: u64 = if board.get_square(m.from).is_some() {
            let mut child = *board;
            child.make_move(&m);
            perft(&child, depth - 1)
        } else {
            0
        };
        out.push((m, c));
        i = i + 1;
    }
    assert(moves@.skip(0) =~= moves@);
    assert(out@.map_values(|e: (Move, u64)| e.0).skip(0) =~= moves@);
    assert(out@.map_values(|e: (Move, u64)| e.0).subrange(0, 0) =~= Seq::<Move>::empty());
    out
}

} // verus!
