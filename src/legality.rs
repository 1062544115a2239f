use crate::board::{least, lemma_first_from, lemma_piece_at_some, Position};
use crate::chess_move::{Move, MoveFlag};
use crate::definitions::{
    all_squares, antidiagonal_set, between, between_set, bishop_line, bishop_targets,
    diagonal_set, file_of, file_set, king_targets, knight_targets, pawn_targets, queen_targets,
    rank_of, rank_set, rook_line, rook_targets, Piece, PieceType,
};
use crate::generate_moves::{
    attacked, castle_move, clear_path, extends_with, generated, in_check, kept, kings,
    knight_promotion, line_pins, loud_move, own_pawns, pawn_capture, piece_move, pinned_set,
    promotion_flag, puts_in_check, quiet_move, slides_to,
};
use vstd::prelude::*;

verus! {

/// A square strictly between `k` and `s` splits that stretch: what lies between `k`
/// and it lies between `k` and `s` as well.
proof fn lemma_between_prefix(k: int, s: int, f: int)
    requires
        between(k, s, f),
    ensures
        forall|x: int| #[trigger] between(k, f, x) ==> between(k, s, x) && x != f,
{
}

/// A square strictly between `k` and `s` lies on the line that joins them.
proof fn lemma_between_line(k: int, s: int, f: int)
    requires
        between(k, s, f),
    ensures
        rook_line(k, s) ==> (file_of(f) == file_of(k) && file_of(s) == file_of(k)) || (rank_of(f)
            == rank_of(k) && rank_of(s) == rank_of(k)),
        bishop_line(k, s) ==> (file_of(f) - rank_of(f) == file_of(k) - rank_of(k) && file_of(s)
            - rank_of(s) == file_of(k) - rank_of(k)) || (file_of(f) + rank_of(f) == file_of(k)
            + rank_of(k) && file_of(s) + rank_of(s) == file_of(k) + rank_of(k)),
{
}

proof fn lemma_least_single(k: int)
    ensures
        least(set![k]) == k,
{
    assert(set![k].contains(k) && forall|j: int| set![k].contains(j) ==> k <= j);
}


proof fn lemma_nonempty_grows(a: Set<int>, b: Set<int>)
    requires
        a.subset_of(b),
        a != Set::<int>::empty(),
    ensures
        b != Set::<int>::empty(),
{
    if b == Set::<int>::empty() {
        assert(a =~= Set::<int>::empty());
    }
}

/// The enemy queens and rooks.
pub open spec fn straight_sliders(p: Position) -> Set<int> {
    p.set(Piece::of(PieceType::Queen, p.stm.flip())).union(
        p.set(Piece::of(PieceType::Rook, p.stm.flip())),
    )
}

/// The enemy queens and bishops.
pub open spec fn diagonal_sliders(p: Position) -> Set<int> {
    p.set(Piece::of(PieceType::Queen, p.stm.flip())).union(
        p.set(Piece::of(PieceType::Bishop, p.stm.flip())),
    )
}

/// A piece of the side to move that stands alone between its king and an enemy
/// slider that could reach the king along that line is in the pin mask.
proof fn lemma_shield(p: Position, k: int, sl: int, f: int)
    requires
        kings(p, p.stm) == set![k],
        !in_check(p, p.stm),
        between(sl, k, f),
        0 <= f < 64,
        0 <= sl < 64,
        0 <= k < 64,
        forall|x: int| #[trigger] between(sl, k, x) && p.occupied().contains(x) ==> x == f,
        p.side_set(p.stm).contains(f),
        (rook_line(k, sl) && straight_sliders(p).contains(sl)) || (bishop_line(k, sl)
            && diagonal_sliders(p).contains(sl)),
    ensures
        pinned_set(p).contains(f),
{
    lemma_least_single(k);
    assert(between(k, sl, f));
    lemma_between_prefix(k, sl, f);
    lemma_between_line(k, sl, f);
    assert forall|x: int| !#[trigger] between_set(k, f).intersect(p.occupied()).contains(x) by {
        if between(k, f, x) && p.occupied().contains(x) {
            assert(between(sl, k, x));
        }
    }
    assert(between_set(k, f).intersect(p.occupied()) =~= Set::<int>::empty());
    assert(clear_path(k, f, p.occupied()));
    let qb = diagonal_sliders(p);
    let qr = straight_sliders(p);
    if rook_line(k, sl) && qr.contains(sl) {
        if file_of(f) == file_of(k) && file_of(sl) == file_of(k) {
            assert(file_set(file_of(k)).intersect(qr).contains(sl));
            assert(line_pins(p, k, file_set(file_of(k)), qr).contains(f));
        } else {
            assert(rank_set(rank_of(k)).intersect(qr).contains(sl));
            assert(line_pins(p, k, rank_set(rank_of(k)), qr).contains(f));
        }
    } else {
        if file_of(f) - rank_of(f) == file_of(k) - rank_of(k) && file_of(sl) - rank_of(sl)
            == file_of(k) - rank_of(k) {
            let d = diagonal_set(7 + file_of(k) - rank_of(k));
            assert(d.intersect(qb).contains(sl));
            assert(line_pins(p, k, d, qb).contains(f));
        } else {
            let d = antidiagonal_set(14 - file_of(k) - rank_of(k));
            assert(d.intersect(qb).contains(sl));
            assert(line_pins(p, k, d, qb).contains(f));
        }
    }
}


/// The pieces after a move that is no castle and no en-passant capture: `to` is
/// taken by `placed` (the moving piece, or what it promotes to) and `from` is emptied.
proof fn lemma_simple_after(p: Position, m: Move, placed: Piece)
    requires
        p.wf(),
        !m.castles(),
        m.flag != MoveFlag::EnPassant,
        placed == (if m.promotes() {
            Piece::of(m.flag.promoted_kind(), p.stm)
        } else {
            p.piece_at(m.from.idx())->Some_0
        }),
    ensures
        p.after(m).pieces.len() == 12,
        forall|q: int|
            0 <= q < 12 ==> #[trigger] p.after(m).pieces[q] == (if q == placed.idx() {
                p.pieces[q].remove(m.to.idx()).insert(m.to.idx())
            } else {
                p.pieces[q].remove(m.to.idx())
            }).remove(m.from.idx()),
{
    reveal(Position::moved);
    placed.lemma_idx();
}

/// A move of a piece of the side to move, other than its king, from a square
/// outside the pin mask to a square that no piece of its own holds, leaves the king
/// safe. Castles and en-passant captures are left out: the generator checks those
/// itself.
pub proof fn lemma_unpinned_move_is_safe(p: Position, m: Move, k: int)
    requires
        p.wf(),
        kings(p, p.stm) == set![k],
        p.side_set(p.stm).contains(m.from.idx()),
        !p.side_set(p.stm).contains(m.to.idx()),
        !pinned_set(p).contains(m.from.idx()),
        !m.castles(),
        m.flag != MoveFlag::EnPassant,
    ensures
        !puts_in_check(p, m),
{
    let s = p.stm;
    let e = s.flip();
    let f = m.from.idx();
    let t = m.to.idx();
    m.from.lemma_of_idx();
    m.to.lemma_of_idx();
    lemma_least_single(k);
    if in_check(p, s) {
        assert(pinned_set(p).contains(f));
    }
    assert(!in_check(p, s));
    assert(f != k);
    let ko = Piece::of(PieceType::King, s).idx();
    assert(p.pieces[ko].contains(k));
    assert(p.pieces[ko].subset_of(all_squares()));
    assert(0 <= k < 64);
    assert(p.side_set(s).contains(k));
    assert(t != k);
    assert(f != t);
    // the moving piece is one of the side to move, and not its king
    let kk = choose|kk: int| 6 * s.idx() <= kk < 6 * s.idx() + 6 && #[trigger] p.pieces[kk].contains(f);
    lemma_piece_at_some(p, f, kk, 0);
    lemma_first_from(p, f, 0);
    let fp = p.piece_at(f)->Some_0;
    fp.lemma_idx();
    if fp.idx() != kk {
        assert(p.pieces[fp.idx()].disjoint(p.pieces[kk]));
    }
    assert(fp.idx() == kk);
    assert(kk != ko);
    let placed = if m.promotes() {
        Piece::of(m.flag.promoted_kind(), s)
    } else {
        fp
    };
    placed.lemma_idx();
    assert(6 * s.idx() <= placed.idx() < 6 * s.idx() + 6 && placed.idx() != ko);
    lemma_simple_after(p, m, placed);
    let a = p.after(m);
    // the enemy pieces only lose squares, the king stays
    assert forall|q: int| 6 * e.idx() <= q < 6 * e.idx() + 6 implies #[trigger] a.pieces[q].subset_of(
        p.pieces[q],
    ) by {}
    assert(a.pieces[ko] =~= set![k]);
    assert(kings(a, s) == set![k]);
    // every occupied square but `from` stays occupied
    assert forall|x: int| p.occupied().contains(x) && x != f implies #[trigger] a.occupied().contains(
        x,
    ) by {
        let q = choose|q: int| 0 <= q < 12 && #[trigger] p.pieces[q].contains(x);
        if x == t {
            assert(a.pieces[placed.idx()].contains(x));
        } else {
            assert(a.pieces[q].contains(x));
        }
    }
    assert(!attacked(p, k, s));
    let en = Piece::of(PieceType::Knight, e);
    let ep = Piece::of(PieceType::Pawn, e);
    let ek = Piece::of(PieceType::King, e);
    let eq = Piece::of(PieceType::Queen, e);
    let eb = Piece::of(PieceType::Bishop, e);
    let er = Piece::of(PieceType::Rook, e);
    if knight_targets(k).intersect(a.set(en)) != Set::<int>::empty() {
        lemma_nonempty_grows(knight_targets(k).intersect(a.set(en)), knight_targets(k).intersect(p.set(en)));
    }
    if pawn_targets(s, k).intersect(a.set(ep)) != Set::<int>::empty() {
        lemma_nonempty_grows(pawn_targets(s, k).intersect(a.set(ep)), pawn_targets(s, k).intersect(p.set(ep)));
    }
    if king_targets(k).intersect(a.set(ek)) != Set::<int>::empty() {
        lemma_nonempty_grows(king_targets(k).intersect(a.set(ek)), king_targets(k).intersect(p.set(ek)));
    }
    lemma_no_slider(p, a, m, k, queen_targets(k), eq);
    lemma_no_slider(p, a, m, k, bishop_targets(k), eb);
    lemma_no_slider(p, a, m, k, rook_targets(k), er);
    assert(!attacked(a, k, s));
}

/// No enemy slider of piece `q` on a square of `targets` reaches the king after the
/// move, where none did before and `from` shields nothing.
proof fn lemma_no_slider(p: Position, a: Position, m: Move, k: int, targets: Set<int>, q: Piece)
    requires
        p.wf(),
        0 <= k < 64,
        kings(p, p.stm) == set![k],
        !in_check(p, p.stm),
        !pinned_set(p).contains(m.from.idx()),
        p.side_set(p.stm).contains(m.from.idx()),
        0 <= m.from.idx() < 64,
        a.set(q).subset_of(p.set(q)),
        forall|x: int| p.occupied().contains(x) && x != m.from.idx() ==> #[trigger] a.occupied().contains(x),
        !slides_to(p, targets.intersect(p.set(q)), k),
        (q == Piece::of(PieceType::Queen, p.stm.flip()) && targets == queen_targets(k)) || (q
            == Piece::of(PieceType::Bishop, p.stm.flip()) && targets == bishop_targets(k)) || (q
            == Piece::of(PieceType::Rook, p.stm.flip()) && targets == rook_targets(k)),
    ensures
        !slides_to(a, targets.intersect(a.set(q)), k),
{
    let f = m.from.idx();
    if slides_to(a, targets.intersect(a.set(q)), k) {
        let sl = choose|sl: int| targets.intersect(a.set(q)).contains(sl) && #[trigger] clear_path(sl, k, a.occupied());
        assert(targets.intersect(p.set(q)).contains(sl));
        assert(!clear_path(sl, k, p.occupied()));
        assert forall|x: int| #[trigger] between(sl, k, x) && p.occupied().contains(x) implies x == f by {
            if x != f {
                assert(a.occupied().contains(x));
                assert(between_set(sl, k).intersect(a.occupied()).contains(x));
            }
        }
        if !between(sl, k, f) {
            assert forall|x: int| !#[trigger] between_set(sl, k).intersect(p.occupied()).contains(x) by {
                if between_set(sl, k).intersect(p.occupied()).contains(x) {
                    assert(x == f);
                }
            }
            assert(between_set(sl, k).intersect(p.occupied()) =~= Set::<int>::empty());
        }
        assert(between(sl, k, f));
        lemma_shield(p, k, sl, f);
    }
}


/// Two promotions of the same pawn move, to whatever pieces, are equally safe for
/// the mover's king: the promoted piece only stands on `to`.
pub proof fn lemma_promotions_equally_safe(p: Position, m: Move, n: Move)
    requires
        p.wf(),
        m.from == n.from,
        m.to == n.to,
        m.promotes(),
        n.promotes(),
    ensures
        puts_in_check(p, m) == puts_in_check(p, n),
{
    let s = p.stm;
    let pm = Piece::of(m.flag.promoted_kind(), s);
    let pn = Piece::of(n.flag.promoted_kind(), s);
    lemma_simple_after(p, m, pm);
    lemma_simple_after(p, n, pn);
    let a = p.after(m);
    let b = p.after(n);
    pm.lemma_idx();
    pn.lemma_idx();
    assert forall|q: int|
        0 <= q < 12 && q != pm.idx() && q != pn.idx() implies #[trigger] a.pieces[q] == b.pieces[q] by {}
    let t = m.to.idx();
    let f = m.from.idx();
    assert forall|x: int| a.occupied().contains(x) == b.occupied().contains(x) by {
        if a.occupied().contains(x) {
            let q = choose|q: int| 0 <= q < 12 && #[trigger] a.pieces[q].contains(x);
            if x == t {
                assert(b.pieces[pn.idx()].contains(x));
            } else {
                assert(b.pieces[q].contains(x));
            }
        }
        if b.occupied().contains(x) {
            let q = choose|q: int| 0 <= q < 12 && #[trigger] b.pieces[q].contains(x);
            if x == t {
                assert(a.pieces[pm.idx()].contains(x));
            } else {
                assert(a.pieces[q].contains(x));
            }
        }
    }
    assert(a.occupied() =~= b.occupied());
    let e = s.flip();
    assert(kings(a, s) == kings(b, s));
    assert(a.set(Piece::of(PieceType::Knight, e)) == b.set(Piece::of(PieceType::Knight, e)));
    assert(a.set(Piece::of(PieceType::Pawn, e)) == b.set(Piece::of(PieceType::Pawn, e)));
    assert(a.set(Piece::of(PieceType::King, e)) == b.set(Piece::of(PieceType::King, e)));
    assert(a.set(Piece::of(PieceType::Queen, e)) == b.set(Piece::of(PieceType::Queen, e)));
    assert(a.set(Piece::of(PieceType::Bishop, e)) == b.set(Piece::of(PieceType::Bishop, e)));
    assert(a.set(Piece::of(PieceType::Rook, e)) == b.set(Piece::of(PieceType::Rook, e)));
}


proof fn lemma_safe_if_kept(p: Position, m: Move, k: int)
    requires
        p.wf(),
        kings(p, p.stm) == set![k],
        p.side_set(p.stm).contains(m.from.idx()),
        !p.side_set(p.stm).contains(m.to.idx()),
        !m.castles(),
        m.flag != MoveFlag::EnPassant,
        kept(p, pinned_set(p), m),
    ensures
        !puts_in_check(p, m),
{
    if !pinned_set(p).contains(m.from.idx()) {
        lemma_unpinned_move_is_safe(p, m, k);
    }
}

proof fn lemma_safe_if_promotion_kept(p: Position, m: Move, k: int, c: bool)
    requires
        p.wf(),
        kings(p, p.stm) == set![k],
        p.side_set(p.stm).contains(m.from.idx()),
        !p.side_set(p.stm).contains(m.to.idx()),
        m.promotes(),
        kept(p, pinned_set(p), Move { flag: knight_promotion(c), ..m }),
    ensures
        !puts_in_check(p, m),
{
    if pinned_set(p).contains(m.from.idx()) {
        lemma_promotions_equally_safe(p, m, Move { flag: knight_promotion(c), ..m });
    } else {
        lemma_unpinned_move_is_safe(p, m, k);
    }
}

/// Every move that the generator produces, castles aside, leaves the mover's king
/// unattacked, on a board where the side to move has one king.
pub proof fn lemma_generated_moves_are_safe(p: Position, m: Move, k: int)
    requires
        p.wf(),
        kings(p, p.stm) == set![k],
        generated(p, m),
        !m.castles(),
    ensures
        !puts_in_check(p, m),
{
    let s = p.stm;
    let e = s.flip();
    let pinned = pinned_set(p);
    let own = p.side_set(s);
    let f = m.from.idx();
    let t = m.to.idx();
    let pawn = Piece::of(PieceType::Pawn, s).idx();
    assert(own_pawns(p).contains(f) ==> p.pieces[pawn].contains(f));
    assert(own.contains(t) ==> p.occupied().contains(t));
    if own.contains(t) && p.side_set(e).contains(t) {
        let k1 = choose|k1: int| 6 * s.idx() <= k1 < 6 * s.idx() + 6 && #[trigger] p.pieces[k1].contains(t);
        let k2 = choose|k2: int| 6 * e.idx() <= k2 < 6 * e.idx() + 6 && #[trigger] p.pieces[k2].contains(t);
        assert(p.pieces[k1].disjoint(p.pieces[k2]));
    }
    if quiet_move(p, pinned, m) {
        let empty = all_squares().difference(p.occupied());
        if piece_move(p, pinned, PieceType::Knight, empty, MoveFlag::Quiet, m) {
            lemma_safe_if_kept(p, m, k);
        } else if piece_move(p, pinned, PieceType::King, empty, MoveFlag::Quiet, m) {
            lemma_safe_if_kept(p, m, k);
        } else if piece_move(p, pinned, PieceType::Bishop, empty, MoveFlag::Quiet, m) {
            lemma_safe_if_kept(p, m, k);
        } else if piece_move(p, pinned, PieceType::Rook, empty, MoveFlag::Quiet, m) {
            lemma_safe_if_kept(p, m, k);
        } else if piece_move(p, pinned, PieceType::Queen, empty, MoveFlag::Quiet, m) {
            lemma_safe_if_kept(p, m, k);
        } else {
            lemma_safe_if_kept(p, m, k);
        }
    } else {
        assert(loud_move(p, pinned, m));
        let enemy = p.side_set(e);
        if piece_move(p, pinned, PieceType::Knight, enemy, MoveFlag::Capture, m) {
            lemma_safe_if_kept(p, m, k);
        } else if piece_move(p, pinned, PieceType::King, enemy, MoveFlag::Capture, m) {
            lemma_safe_if_kept(p, m, k);
        } else if piece_move(p, pinned, PieceType::Bishop, enemy, MoveFlag::Capture, m) {
            lemma_safe_if_kept(p, m, k);
        } else if piece_move(p, pinned, PieceType::Rook, enemy, MoveFlag::Capture, m) {
            lemma_safe_if_kept(p, m, k);
        } else if piece_move(p, pinned, PieceType::Queen, enemy, MoveFlag::Capture, m) {
            lemma_safe_if_kept(p, m, k);
        } else if pawn_capture(p, pinned, m) {
            if m.promotes() {
                lemma_safe_if_promotion_kept(p, m, k, true);
            } else {
                lemma_safe_if_kept(p, m, k);
            }
        } else if m.flag == MoveFlag::EnPassant {
        } else {
            lemma_safe_if_promotion_kept(p, m, k, false);
        }
    }
}


/// A legal move of the side to move: a move by the piece rules that leaves the
/// king safe (for a promotion, the knight promotion of the same pawn move does), or
/// a castle whose path is free and whose three king squares are not attacked.
/// This is what the generator makes of a position when it checks every move.
pub open spec fn legal(p: Position, m: Move) -> bool {
    quiet_move(p, all_squares(), m) || loud_move(p, all_squares(), m)
}

proof fn lemma_kept_same(p: Position, m: Move, k: int)
    requires
        p.wf(),
        kings(p, p.stm) == set![k],
        p.side_set(p.stm).contains(m.from.idx()),
        !p.side_set(p.stm).contains(m.to.idx()),
        !m.castles(),
        m.flag != MoveFlag::EnPassant,
    ensures
        kept(p, pinned_set(p), m) == kept(p, all_squares(), m),
{
    m.from.lemma_of_idx();
    if !pinned_set(p).contains(m.from.idx()) {
        lemma_unpinned_move_is_safe(p, m, k);
    }
}

/// On a board where the side to move has one king, the generator produces exactly
/// the legal moves: the pin mask only spares the check of moves that pass it anyway.
pub proof fn lemma_generated_iff_legal(p: Position, m: Move, k: int)
    requires
        p.wf(),
        kings(p, p.stm) == set![k],
    ensures
        generated(p, m) == legal(p, m),
{
    let s = p.stm;
    let e = s.flip();
    let own = p.side_set(s);
    let f = m.from.idx();
    let t = m.to.idx();
    let pawn = Piece::of(PieceType::Pawn, s).idx();
    assert(own_pawns(p).contains(f) ==> p.pieces[pawn].contains(f));
    assert(own.contains(t) ==> p.occupied().contains(t));
    if own.contains(t) && p.side_set(e).contains(t) {
        let k1 = choose|k1: int| 6 * s.idx() <= k1 < 6 * s.idx() + 6 && #[trigger] p.pieces[k1].contains(t);
        let k2 = choose|k2: int| 6 * e.idx() <= k2 < 6 * e.idx() + 6 && #[trigger] p.pieces[k2].contains(t);
        assert(p.pieces[k1].disjoint(p.pieces[k2]));
    }
    if own.contains(f) && !own.contains(t) && !m.castles() && m.flag != MoveFlag::EnPassant {
        lemma_kept_same(p, m, k);
        lemma_kept_same(p, Move { flag: knight_promotion(true), ..m }, k);
        lemma_kept_same(p, Move { flag: knight_promotion(false), ..m }, k);
    }
}

/// Where the side to move has one king and no legal move, the generator appends
/// nothing.
pub proof fn lemma_no_legal_move_nothing_appended(
    p: Position,
    k: int,
    before: Seq<Move>,
    after: Seq<Move>,
)
    requires
        p.wf(),
        kings(p, p.stm) == set![k],
        forall|m: Move| !#[trigger] legal(p, m),
        extends_with(before, after, |m: Move| generated(p, m)),
    ensures
        after == before,
{
    if after.len() > before.len() {
        let m = after[before.len() as int];
        assert(after.skip(before.len() as int)[0] == m);
        assert(after.skip(before.len() as int).contains(m));
        lemma_generated_iff_legal(p, m, k);
        assert(legal(p, m));
    }
    assert(after =~= after.subrange(0, before.len() as int));
}

/// A promotion comes with the other three of the same pawn move.
pub proof fn lemma_promotions_come_in_fours(p: Position, m: Move, n: Move)
    requires
        generated(p, m),
        m.promotes(),
        n.from == m.from,
        n.to == m.to,
        promotion_flag(n.flag, m.captures()),
    ensures
        generated(p, n),
{
}

/// A castle is produced only with its right held, its path free and none of the
/// king's three squares attacked.
pub proof fn lemma_castles_need_safe_squares(p: Position, m: Move)
    requires
        generated(p, m),
        m.castles(),
    ensures
        castle_move(p, m),
{
}


/// No enemy slider reaches `d` once a castle has put pieces on `v` and `d` and
/// emptied `k0` and `r`, where none did before: `r` never stands between a slider
/// and `d`, and where `k0` does, so does `v`.
proof fn lemma_no_slider_after_castle(
    p: Position,
    a: Position,
    k0: int,
    v: int,
    d: int,
    r: int,
    targets: Set<int>,
    q: Piece,
)
    requires
        a.set(q).subset_of(p.set(q)),
        p.set(q).subset_of(all_squares()),
        forall|x: int| p.occupied().contains(x) && x != k0 && x != r ==> #[trigger] a.occupied().contains(x),
        a.occupied().contains(v),
        0 <= v < 64,
        forall|sl: int| 0 <= sl < 64 ==> !#[trigger] between(sl, d, r),
        forall|sl: int| 0 <= sl < 64 && #[trigger] between(sl, d, k0) ==> between(sl, d, v),
        !slides_to(p, targets.intersect(p.set(q)), d),
    ensures
        !slides_to(a, targets.intersect(a.set(q)), d),
{
    if slides_to(a, targets.intersect(a.set(q)), d) {
        let sl = choose|sl: int| targets.intersect(a.set(q)).contains(sl) && #[trigger] clear_path(sl, d, a.occupied());
        assert(targets.intersect(p.set(q)).contains(sl));
        assert(!clear_path(sl, d, p.occupied()));
        if forall|x: int| !#[trigger] between_set(sl, d).intersect(p.occupied()).contains(x) {
            assert(between_set(sl, d).intersect(p.occupied()) =~= Set::<int>::empty());
        }
        let x = choose|x: int| #[trigger] between_set(sl, d).intersect(p.occupied()).contains(x);
        assert(all_squares().contains(sl));
        if x == k0 {
            assert(between_set(sl, d).intersect(a.occupied()).contains(v));
        } else if x != r {
            assert(between_set(sl, d).intersect(a.occupied()).contains(x));
        }
    }
}

/// The squares of a castle: the king goes from `k0` over `v` to `d`, the rook from
/// `r` to `v`.
proof fn lemma_castle_lines(k0: int, v: int, d: int, r: int)
    requires
        (k0 == 4 && v == 5 && d == 6 && r == 7) || (k0 == 4 && v == 3 && d == 2 && r == 0) || (k0
            == 60 && v == 61 && d == 62 && r == 63) || (k0 == 60 && v == 59 && d == 58 && r == 56),
    ensures
        forall|sl: int| 0 <= sl < 64 ==> !#[trigger] between(sl, d, r),
        forall|sl: int| 0 <= sl < 64 && #[trigger] between(sl, d, k0) ==> between(sl, d, v),
{
}

/// A castle leaves the king unattacked on its new square, where the king of the
/// side to move, its only one, stands on the square the castle starts from.
pub proof fn lemma_castle_is_safe(p: Position, m: Move)
    requires
        p.wf(),
        castle_move(p, m),
        kings(p, p.stm) == set![m.from.idx()],
    ensures
        !puts_in_check(p, m),
{
    reveal(Position::moved);
    let s = p.stm;
    let e = s.flip();
    let k0 = m.from.idx();
    let d = m.to.idx();
    let ko = Piece::of(PieceType::King, s).idx();
    let (v, r, rook) = if k0 == 4 && d == 6 {
        (5int, 7int, Piece::WhiteRook)
    } else if k0 == 4 {
        (3int, 0int, Piece::WhiteRook)
    } else if d == 62 {
        (61int, 63int, Piece::BlackRook)
    } else {
        (59int, 56int, Piece::BlackRook)
    };
    assert(p.pieces[ko].contains(k0));
    lemma_piece_at_some(p, k0, ko, 0);
    lemma_first_from(p, k0, 0);
    let fp = p.piece_at(k0)->Some_0;
    if fp.idx() != ko {
        assert(p.pieces[fp.idx()].disjoint(p.pieces[ko]));
    }
    assert(fp.idx() == ko);
    fp.lemma_idx();
    rook.lemma_idx();
    let a = p.after(m);
    assert forall|q: int| 0 <= q < 12 implies #[trigger] a.pieces[q] == (if q == rook.idx() {
        (if q == ko {
            p.pieces[q].remove(d).insert(d)
        } else {
            p.pieces[q].remove(d)
        }).remove(v).insert(v)
    } else {
        (if q == ko {
            p.pieces[q].remove(d).insert(d)
        } else {
            p.pieces[q].remove(d)
        }).remove(v)
    }).remove(r).remove(k0) by {}
    assert forall|q: int| 6 * e.idx() <= q < 6 * e.idx() + 6 implies #[trigger] a.pieces[q].subset_of(
        p.pieces[q],
    ) by {}
    assert forall|q: int| 0 <= q < 12 implies #[trigger] p.pieces[q].subset_of(all_squares()) by {}
    assert(a.pieces[ko] =~= set![d]);
    lemma_least_single(d);
    assert(a.occupied().contains(v)) by {
        assert(a.pieces[rook.idx()].contains(v));
    }
    assert forall|x: int| p.occupied().contains(x) && x != k0 && x != r implies #[trigger] a.occupied().contains(
        x,
    ) by {
        let q = choose|q: int| 0 <= q < 12 && #[trigger] p.pieces[q].contains(x);
        if x == d {
            assert(a.pieces[ko].contains(x));
        } else if x == v {
            assert(a.pieces[rook.idx()].contains(x));
        } else {
            assert(a.pieces[q].contains(x));
        }
    }
    assert(!attacked(p, d, s));
    let en = Piece::of(PieceType::Knight, e);
    let ep = Piece::of(PieceType::Pawn, e);
    let ek = Piece::of(PieceType::King, e);
    let eq = Piece::of(PieceType::Queen, e);
    let eb = Piece::of(PieceType::Bishop, e);
    let er = Piece::of(PieceType::Rook, e);
    if knight_targets(d).intersect(a.set(en)) != Set::<int>::empty() {
        lemma_nonempty_grows(knight_targets(d).intersect(a.set(en)), knight_targets(d).intersect(p.set(en)));
    }
    if pawn_targets(s, d).intersect(a.set(ep)) != Set::<int>::empty() {
        lemma_nonempty_grows(pawn_targets(s, d).intersect(a.set(ep)), pawn_targets(s, d).intersect(p.set(ep)));
    }
    if king_targets(d).intersect(a.set(ek)) != Set::<int>::empty() {
        lemma_nonempty_grows(king_targets(d).intersect(a.set(ek)), king_targets(d).intersect(p.set(ek)));
    }
    lemma_castle_lines(k0, v, d, r);
    assert(a.set(eq).subset_of(p.set(eq)));
    assert(a.set(eb).subset_of(p.set(eb)));
    assert(a.set(er).subset_of(p.set(er)));
    assert(!slides_to(p, queen_targets(d).intersect(p.set(eq)), d));
    lemma_no_slider_after_castle(p, a, k0, v, d, r, queen_targets(d), eq);
    lemma_no_slider_after_castle(p, a, k0, v, d, r, bishop_targets(d), eb);
    lemma_no_slider_after_castle(p, a, k0, v, d, r, rook_targets(d), er);
    assert(!attacked(a, d, s));
}

/// Every move that the generator produces leaves the mover's king unattacked, on a
/// board where the side to move has one king, and for a castle, has it on the
/// square the castle starts from.
pub proof fn lemma_every_generated_move_is_safe(p: Position, m: Move, k: int)
    requires
        p.wf(),
        kings(p, p.stm) == set![k],
        generated(p, m),
        m.castles() ==> m.from.idx() == k,
    ensures
        !puts_in_check(p, m),
{
    if m.castles() {
        lemma_castles_need_safe_squares(p, m);
        lemma_castle_is_safe(p, m);
    } else {
        lemma_generated_moves_are_safe(p, m, k);
    }
}

} // verus!
