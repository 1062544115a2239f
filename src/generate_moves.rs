use crate::board::{least, lemma_one_piece, lemma_piece_at_some, Board, Position};
use crate::chess_move::{Move, MoveFlag};
use crate::definitions::{
    between_set, bishop_targets, in_between, king_targets, knight_targets, pawn_targets,
    queen_targets, rook_targets, Piece, PieceType, Side, Square, BB,
};
use crate::definitions::{
    all_squares, antidiagonal_bb, antidiagonal_set, diagonal_bb, diagonal_set, file_bb, file_of,
    file_set, rank_bb, rank_of, rank_set, File, Rank,
};
use crate::definitions::{bishop_attacks, king_attacks, knight_attacks, pawn_attacks, queen_attacks, rook_attacks};
use crate::legality::{lemma_generated_iff_legal, legal};
use vstd::prelude::*;

verus! {

/// No piece stands strictly between `a` and `b`.
pub open spec fn clear_path(a: int, b: int, occ: Set<int>) -> bool {
    between_set(a, b).intersect(occ) == Set::<int>::empty()
}

/// Some square of `from` reaches `sq` along a line with nothing in between.
pub open spec fn slides_to(p: Position, from: Set<int>, sq: int) -> bool {
    exists|t: int| from.contains(t) && #[trigger] clear_path(t, sq, p.occupied())
}

/// Square `sq` is attacked by a piece of the side opposed to `side`.
pub open spec fn attacked(p: Position, sq: int, side: Side) -> bool {
    let e = side.flip();
    ||| knight_targets(sq).intersect(p.set(Piece::of(PieceType::Knight, e))) != Set::<int>::empty()
    ||| pawn_targets(side, sq).intersect(p.set(Piece::of(PieceType::Pawn, e))) != Set::<
        int,
    >::empty()
    ||| king_targets(sq).intersect(p.set(Piece::of(PieceType::King, e))) != Set::<int>::empty()
    ||| slides_to(p, queen_targets(sq).intersect(p.set(Piece::of(PieceType::Queen, e))), sq)
    ||| slides_to(p, bishop_targets(sq).intersect(p.set(Piece::of(PieceType::Bishop, e))), sq)
    ||| slides_to(p, rook_targets(sq).intersect(p.set(Piece::of(PieceType::Rook, e))), sq)
}

/// The squares of the king of side `s`.
pub open spec fn kings(p: Position, s: Side) -> Set<int> {
    p.set(Piece::of(PieceType::King, s))
}

/// The king of side `s` (the least, where there are several) is attacked.
pub open spec fn in_check(p: Position, s: Side) -> bool {
    attacked(p, least(kings(p, s)), s)
}

/// After move `m`, the mover has no king or its king is attacked.
pub open spec fn puts_in_check(p: Position, m: Move) -> bool {
    let a = p.after(m);
    kings(a, p.stm) == Set::<int>::empty() || in_check(a, p.stm)
}

/// Whether some square of `cands` reaches `square` with no square of `occ` in between.
fn any_slides_to(candidates: BB, square: Square, occ: BB) -> (r: bool)
    ensures
        r == exists|t: int| candidates@.contains(t) && #[trigger] clear_path(t, square.idx(), occ@),
{
    let ghost c0 = candidates@;
    let mut cands = candidates;
    while !cands.is_empty()
        invariant
            c0 == candidates@,
            cands@.subset_of(c0),
            forall|t: int|
                c0.contains(t) && !cands@.contains(t) ==> !#[trigger] clear_path(
                    t,
                    square.idx(),
                    occ@,
                ),
        decreases cands.0,
    {
        let ghost before = cands@;
        let start = cands.poplsb();
        assert(c0.contains(start.idx()));
        if in_between(start, square).intersect(occ).is_empty() {
            assert(clear_path(start.idx(), square.idx(), occ@));
            return true;
        }
    }
    proof {
        assert forall|t: int| c0.contains(t) implies !#[trigger] clear_path(t, square.idx(), occ@) by {
            assert(!cands@.contains(t));
        }
    }
    false
}

/// Whether a piece of the side opposed to `side` attacks `square`.
pub fn is_square_threatened(board: &Board, square: Square, side: Side) -> (r: bool)
    ensures
        r == attacked(board@, square.idx(), side),
{
    let e = side.opposite();
    if !knight_attacks(square).intersect(board.get_piece_bb(Piece::from_type(PieceType::Knight, e))).is_empty() {
        return true;
    }
    if !pawn_attacks(side, square).intersect(board.get_piece_bb(Piece::from_type(PieceType::Pawn, e))).is_empty() {
        return true;
    }
    if !king_attacks(square).intersect(board.get_piece_bb(Piece::from_type(PieceType::King, e))).is_empty() {
        return true;
    }
    let pieces = board.occupied_squares();
    let queens = queen_attacks(square).intersect(board.get_piece_bb(Piece::from_type(PieceType::Queen, e)));
    if any_slides_to(queens, square, pieces) {
        return true;
    }
    let bishops = bishop_attacks(square).intersect(board.get_piece_bb(Piece::from_type(PieceType::Bishop, e)));
    if any_slides_to(bishops, square, pieces) {
        return true;
    }
    let rooks = rook_attacks(square).intersect(board.get_piece_bb(Piece::from_type(PieceType::Rook, e)));
    any_slides_to(rooks, square, pieces)
}

/// Whether the king of side `s` is attacked.
pub fn is_in_check(board: &Board, s: Side) -> (r: bool)
    requires
        kings(board@, s) != Set::<int>::empty(),
    ensures
        r == in_check(board@, s),
{
    is_square_threatened(board, board.get_king(s), s)
}

/// Whether move `m`, played, leaves the mover without a king or with its king attacked.
fn move_puts_self_in_check(board: &Board, m: &Move) -> (r: bool)
    requires
        board@.piece_at(m.from.idx()) is Some,
        board.halfmove_clock < u32::MAX,
        board.fullmove_number < u32::MAX,
    ensures
        r == puts_in_check(board@, *m),
{
    let mut after = *board;
    after.make_move(m);
    if after.get_piece_bb(Piece::from_type(PieceType::King, board.stm)).is_empty() {
        return true;
    }
    is_in_check(&after, board.stm)
}


/// Something that moves can be appended to.
pub trait MoveContainer {
    /// The moves held, in the order they were appended.
    spec fn moves(&self) -> Seq<Move>;

    fn push(&mut self, value: Move)
        ensures
            final(self).moves() == old(self).moves().push(value),
    ;
}

impl MoveContainer for Vec<Move> {
    open spec fn moves(&self) -> Seq<Move> {
        self@
    }

    fn push(&mut self, value: Move) {
        Vec::push(self, value);
    }
}

/// `new` is `old` followed by moves, each appended once, and a move is among those
/// appended exactly when it satisfies `pred`.
pub open spec fn extends_with(old: Seq<Move>, new: Seq<Move>, pred: spec_fn(Move) -> bool) -> bool {
    &&& old.len() <= new.len()
    &&& new.subrange(0, old.len() as int) == old
    &&& forall|m: Move| #[trigger] new.skip(old.len() as int).contains(m) <==> pred(m)
    &&& new.skip(old.len() as int).no_duplicates()
}

pub proof fn lemma_extends_refl(a: Seq<Move>)
    ensures
        extends_with(a, a, |m: Move| false),
{
    assert(a.subrange(0, a.len() as int) =~= a);
    assert(a.skip(a.len() as int) =~= Seq::<Move>::empty());
}

pub proof fn lemma_extends_push(a: Seq<Move>, b: Seq<Move>, p: spec_fn(Move) -> bool, m: Move)
    requires
        extends_with(a, b, p),
        !p(m),
    ensures
        extends_with(a, b.push(m), |x: Move| p(x) || x == m),
{
    let s = b.skip(a.len() as int);
    assert(b.push(m).skip(a.len() as int) =~= s.push(m));
    assert(b.push(m).subrange(0, a.len() as int) =~= b.subrange(0, a.len() as int));
    assert forall|x: Move| #[trigger] s.push(m).contains(x) <==> (s.contains(x) || x == m) by {
        if s.contains(x) {
            let i = choose|i: int| 0 <= i < s.len() && s[i] == x;
            assert(s.push(m)[i] == x);
        }
        if x == m {
            assert(s.push(m)[s.len() as int] == x);
        }
        if s.push(m).contains(x) && x != m {
            let i = choose|i: int| 0 <= i < s.len() + 1 && s.push(m)[i] == x;
            assert(s[i] == x);
        }
    }
    assert(!s.contains(m));
    assert forall|i: int, j: int|
        0 <= i < s.len() + 1 && 0 <= j < s.len() + 1 && i != j implies s.push(m)[i] != s.push(
        m,
    )[j] by {
        if i == s.len() {
            assert(s.push(m)[j] == s[j]);
        } else if j == s.len() {
            assert(s.push(m)[i] == s[i]);
        }
    }
}

pub proof fn lemma_extends_trans(
    a: Seq<Move>,
    b: Seq<Move>,
    c: Seq<Move>,
    p: spec_fn(Move) -> bool,
    q: spec_fn(Move) -> bool,
)
    requires
        extends_with(a, b, p),
        extends_with(b, c, q),
        forall|x: Move| !(#[trigger] p(x) && q(x)),
    ensures
        extends_with(a, c, |x: Move| p(x) || q(x)),
{
    let s = b.skip(a.len() as int);
    let t = c.skip(b.len() as int);
    assert(c.skip(a.len() as int) =~= s + t);
    assert(c.subrange(0, a.len() as int) =~= b.subrange(0, a.len() as int));
    assert forall|x: Move| #[trigger] (s + t).contains(x) <==> (s.contains(x) || t.contains(x)) by {
        if s.contains(x) {
            let i = choose|i: int| 0 <= i < s.len() && s[i] == x;
            assert((s + t)[i] == x);
        }
        if t.contains(x) {
            let i = choose|i: int| 0 <= i < t.len() && t[i] == x;
            assert((s + t)[s.len() + i] == x);
        }
        if (s + t).contains(x) {
            let i = choose|i: int| 0 <= i < s.len() + t.len() && (s + t)[i] == x;
            if i < s.len() {
                assert(s[i] == x);
            } else {
                assert(t[i - s.len()] == x);
            }
        }
    }
    assert forall|i: int, j: int|
        0 <= i < s.len() + t.len() && 0 <= j < s.len() + t.len() && i != j implies (s + t)[i] != (s
        + t)[j] by {
        if i < s.len() && j >= s.len() {
            assert(s.contains(s[i]) && t.contains(t[j - s.len()]));
            assert(p(s[i]) && q(t[j - s.len()]));
        } else if j < s.len() && i >= s.len() {
            assert(s.contains(s[j]) && t.contains(t[i - s.len()]));
            assert(p(s[j]) && q(t[i - s.len()]));
        }
    }
}

pub proof fn lemma_extends_same(
    a: Seq<Move>,
    b: Seq<Move>,
    p: spec_fn(Move) -> bool,
    q: spec_fn(Move) -> bool,
)
    requires
        extends_with(a, b, p),
        forall|m: Move| #[trigger] p(m) == q(m),
    ensures
        extends_with(a, b, q),
{
}

/// Move `m` is kept by the check against `pinned`: it starts outside `pinned`, or it
/// leaves the mover's king safe.
pub open spec fn kept(p: Position, pinned: Set<int>, m: Move) -> bool {
    !pinned.contains(m.from.idx()) || !puts_in_check(p, m)
}

/// A move from `from` with flag `flag` to a square of `targets` that no square of
/// `occ` blocks, kept by the check against `pinned`.
pub open spec fn target_move(
    p: Position,
    pinned: Set<int>,
    targets: Set<int>,
    from: Square,
    flag: MoveFlag,
    occ: Set<int>,
    m: Move,
) -> bool {
    &&& m.from == from
    &&& m.flag == flag
    &&& targets.contains(m.to.idx())
    &&& clear_path(from.idx(), m.to.idx(), occ)
    &&& kept(p, pinned, m)
}

/// The move generation for a position may play from square `i`: the board has a
/// piece there, and neither clock is at its limit.
pub open spec fn playable(p: Position, i: int) -> bool {
    &&& p.piece_at(i) is Some
    &&& p.halfmove_clock < u32::MAX
    &&& p.fullmove_number < u32::MAX
}

/// Appends the moves from `from` with flag `flag` to the squares of `targets` that
/// `occ` does not block, each kept where `from` is outside `pinned` or the move
/// leaves the king safe.
fn push_targets<T: MoveContainer>(
    board: &Board,
    moves: &mut T,
    pinned: &BB,
    targets: BB,
    from: Square,
    flag: MoveFlag,
    occ: BB,
)
    requires
        playable(board@, from.idx()),
    ensures
        extends_with(
            old(moves).moves(),
            final(moves).moves(),
            |m: Move| target_move(board@, pinned@, targets@, from, flag, occ@, m),
        ),
{
    let ghost start = moves.moves();
    let mut rest = targets;
    proof {
        lemma_extends_refl(start);
        lemma_extends_same(
            start,
            start,
            |m: Move| false,
            |m: Move|
                target_move(board@, pinned@, targets@, from, flag, occ@, m) && !rest@.contains(
                    m.to.idx(),
                ),
        );
    }
    while !rest.is_empty()
        invariant
            playable(board@, from.idx()),
            rest@.subset_of(targets@),
            extends_with(
                start,
                moves.moves(),
                |m: Move|
                    target_move(board@, pinned@, targets@, from, flag, occ@, m) && !rest@.contains(
                        m.to.idx(),
                    ),
            ),
        decreases rest.0,
    {
        let ghost prev = rest@;
        let ghost before = moves.moves();
        let to = rest.poplsb();
        let m = Move { from, to, flag };
        let keep = in_between(from, to).intersect(occ).is_empty() && (!pinned.contains(from)
            || !move_puts_self_in_check(board, &m));
        let ghost p_prev = |x: Move|
            target_move(board@, pinned@, targets@, from, flag, occ@, x) && !prev.contains(
                x.to.idx(),
            );
        let ghost p_next = |x: Move|
            target_move(board@, pinned@, targets@, from, flag, occ@, x) && !rest@.contains(
                x.to.idx(),
            );
        if keep {
            moves.push(m);
            proof {
                lemma_extends_push(start, before, p_prev, m);
                assert forall|x: Move| (p_prev(x) || x == m) == #[trigger] p_next(x) by {
                    x.to.lemma_of_idx();
                    to.lemma_of_idx();
                }
                lemma_extends_same(start, moves.moves(), |x: Move| p_prev(x) || x == m, p_next);
            }
        } else {
            proof {
                assert forall|x: Move| p_prev(x) == #[trigger] p_next(x) by {
                    x.to.lemma_of_idx();
                    to.lemma_of_idx();
                }
                lemma_extends_same(start, moves.moves(), p_prev, p_next);
            }
        }
    }
    proof {
        lemma_extends_same(
            start,
            moves.moves(),
            |m: Move|
                target_move(board@, pinned@, targets@, from, flag, occ@, m) && !rest@.contains(
                    m.to.idx(),
                ),
            |m: Move| target_move(board@, pinned@, targets@, from, flag, occ@, m),
        );
    }
}


/// The squares that a piece of kind `kind` on `a` attacks, blockers ignored; none
/// for a pawn, whose moves are generated apart.
pub open spec fn kind_targets(kind: PieceType, a: int) -> Set<int> {
    match kind {
        PieceType::Knight => knight_targets(a),
        PieceType::King => king_targets(a),
        PieceType::Bishop => bishop_targets(a),
        PieceType::Rook => rook_targets(a),
        PieceType::Queen => queen_targets(a),
        PieceType::Pawn => Set::<int>::empty(),
    }
}

fn attacks_of(kind: PieceType, sq: Square) -> (r: BB)
    ensures
        r@ == kind_targets(kind, sq.idx()),
{
    match kind {
        PieceType::Knight => knight_attacks(sq),
        PieceType::King => king_attacks(sq),
        PieceType::Bishop => bishop_attacks(sq),
        PieceType::Rook => rook_attacks(sq),
        PieceType::Queen => queen_attacks(sq),
        PieceType::Pawn => BB::empty(),
    }
}

/// A move with flag `flag` of a piece of kind `kind` of the side to move, along its
/// attack mask to a square of `allowed` with nothing in between, kept by the check
/// against `pinned`.
pub open spec fn piece_move(
    p: Position,
    pinned: Set<int>,
    kind: PieceType,
    allowed: Set<int>,
    flag: MoveFlag,
    m: Move,
) -> bool {
    &&& p.set(Piece::of(kind, p.stm)).contains(m.from.idx())
    &&& target_move(
        p,
        pinned,
        kind_targets(kind, m.from.idx()).intersect(allowed),
        m.from,
        flag,
        p.occupied(),
        m,
    )
}

/// Appends the moves with flag `flag` of the pieces of kind `kind` of the side to
/// move to the squares of `allowed`.
fn piece_moves<T: MoveContainer>(
    board: &Board,
    moves: &mut T,
    pinned: &BB,
    kind: PieceType,
    allowed: BB,
    flag: MoveFlag,
)
    requires
        board.halfmove_clock < u32::MAX,
        board.fullmove_number < u32::MAX,
    ensures
        extends_with(
            old(moves).moves(),
            final(moves).moves(),
            |m: Move| piece_move(board@, pinned@, kind, allowed@, flag, m),
        ),
{
    let occ = board.occupied_squares();
    let piece = Piece::from_type(kind, board.stm);
    let own = board.get_piece_bb(piece);
    let ghost start = moves.moves();
    let mut rest = own;
    proof {
        lemma_extends_refl(start);
        lemma_extends_same(
            start,
            start,
            |m: Move| false,
            |m: Move|
                piece_move(board@, pinned@, kind, allowed@, flag, m) && !rest@.contains(
                    m.from.idx(),
                ),
        );
    }
    while !rest.is_empty()
        invariant
            board.halfmove_clock < u32::MAX,
            board.fullmove_number < u32::MAX,
            piece == Piece::of(kind, board.stm),
            occ@ == board@.occupied(),
            rest@.subset_of(board@.set(piece)),
            extends_with(
                start,
                moves.moves(),
                |m: Move|
                    piece_move(board@, pinned@, kind, allowed@, flag, m) && !rest@.contains(
                        m.from.idx(),
                    ),
            ),
        decreases rest.0,
    {
        let ghost prev = rest@;
        let ghost before = moves.moves();
        let from = rest.poplsb();
        let targets = attacks_of(kind, from).intersect(allowed);
        proof {
            piece.lemma_idx();
            lemma_piece_at_some(board@, from.idx(), piece.idx(), 0);
        }
        push_targets(board, moves, pinned, targets, from, flag, occ);
        proof {
            let p_prev = |x: Move|
                piece_move(board@, pinned@, kind, allowed@, flag, x) && !prev.contains(
                    x.from.idx(),
                );
            let q = |x: Move| target_move(board@, pinned@, targets@, from, flag, occ@, x);
            let p_next = |x: Move|
                piece_move(board@, pinned@, kind, allowed@, flag, x) && !rest@.contains(
                    x.from.idx(),
                );
            lemma_extends_trans(start, before, moves.moves(), p_prev, q);
            assert forall|x: Move| (p_prev(x) || q(x)) == #[trigger] p_next(x) by {
                x.from.lemma_of_idx();
                from.lemma_of_idx();
            }
            lemma_extends_same(start, moves.moves(), |x: Move| p_prev(x) || q(x), p_next);
        }
    }
    proof {
        lemma_extends_same(
            start,
            moves.moves(),
            |m: Move|
                piece_move(board@, pinned@, kind, allowed@, flag, m) && !rest@.contains(
                    m.from.idx(),
                ),
            |m: Move| piece_move(board@, pinned@, kind, allowed@, flag, m),
        );
    }
}


/// The square `dist` numbers behind `to`, for a pawn that moves up the board when
/// `up` holds (White) and down otherwise.
pub open spec fn origin(to: int, up: bool, dist: int) -> int {
    if up {
        to - dist
    } else {
        to + dist
    }
}

/// A pawn move onto a square of `targets` from the square `dist` behind it, with
/// flag `flag`, kept by the check against `pinned`.
pub open spec fn pawn_move_to(
    p: Position,
    pinned: Set<int>,
    targets: Set<int>,
    up: bool,
    dist: int,
    flag: MoveFlag,
    m: Move,
) -> bool {
    &&& targets.contains(m.to.idx())
    &&& m.from.idx() == origin(m.to.idx(), up, dist)
    &&& m.flag == flag
    &&& kept(p, pinned, m)
}

/// The flag is one of the four promotions, of those that capture where `capture`
/// holds and of those that do not otherwise.
pub open spec fn promotion_flag(f: MoveFlag, capture: bool) -> bool {
    &&& f.code() >= 8
    &&& (f.code() >= 12) == capture
}

/// The first of the four promotion flags: to a knight.
pub open spec fn knight_promotion(capture: bool) -> MoveFlag {
    if capture {
        MoveFlag::KnightPromotionCapture
    } else {
        MoveFlag::KnightPromotion
    }
}

/// A promotion onto a square of `targets` from the square `dist` behind it. The four
/// promotions of one pawn move stand or fall together: the check against `pinned`
/// is made on the knight promotion.
pub open spec fn promotion_to(
    p: Position,
    pinned: Set<int>,
    targets: Set<int>,
    up: bool,
    dist: int,
    capture: bool,
    m: Move,
) -> bool {
    &&& targets.contains(m.to.idx())
    &&& m.from.idx() == origin(m.to.idx(), up, dist)
    &&& promotion_flag(m.flag, capture)
    &&& kept(p, pinned, Move { flag: knight_promotion(capture), ..m })
}

/// Each square of `targets` has a square `dist` behind it with a piece on it.
pub open spec fn origins_playable(p: Position, targets: Set<int>, up: bool, dist: int) -> bool {
    &&& p.halfmove_clock < u32::MAX
    &&& p.fullmove_number < u32::MAX
    &&& forall|t: int|
        #[trigger] targets.contains(t) ==> 0 <= origin(t, up, dist) < 64 && p.piece_at(
            origin(t, up, dist),
        ) is Some
}

fn origin_square(to: Square, up: bool, dist: usize) -> (r: Square)
    requires
        0 <= origin(to.idx(), up, dist as int) < 64,
    ensures
        r.idx() == origin(to.idx(), up, dist as int),
{
    if up {
        Square::from_index(to.index() - dist)
    } else {
        Square::from_index(to.index() + dist)
    }
}

/// Appends, for each square of `targets`, the pawn move onto it from the square
/// `dist` behind it, with flag `flag`, where the check against `pinned` keeps it.
fn push_pawn_moves<T: MoveContainer>(
    board: &Board,
    moves: &mut T,
    pinned: &BB,
    targets: BB,
    up: bool,
    dist: usize,
    flag: MoveFlag,
)
    requires
        origins_playable(board@, targets@, up, dist as int),
    ensures
        extends_with(
            old(moves).moves(),
            final(moves).moves(),
            |m: Move| pawn_move_to(board@, pinned@, targets@, up, dist as int, flag, m),
        ),
{
    let ghost start = moves.moves();
    let ghost d = dist as int;
    let mut rest = targets;
    proof {
        lemma_extends_refl(start);
        lemma_extends_same(
            start,
            start,
            |m: Move| false,
            |m: Move|
                pawn_move_to(board@, pinned@, targets@, up, d, flag, m) && !rest@.contains(
                    m.to.idx(),
                ),
        );
    }
    while !rest.is_empty()
        invariant
            d == dist as int,
            origins_playable(board@, targets@, up, d),
            rest@.subset_of(targets@),
            extends_with(
                start,
                moves.moves(),
                |m: Move|
                    pawn_move_to(board@, pinned@, targets@, up, d, flag, m) && !rest@.contains(
                        m.to.idx(),
                    ),
            ),
        decreases rest.0,
    {
        let ghost prev = rest@;
        let ghost before = moves.moves();
        let to = rest.poplsb();
        assert(targets@.contains(to.idx()));
        let from = origin_square(to, up, dist);
        let m = Move { from, to, flag };
        let keep = !pinned.contains(from) || !move_puts_self_in_check(board, &m);
        let ghost p_prev = |x: Move|
            pawn_move_to(board@, pinned@, targets@, up, d, flag, x) && !prev.contains(x.to.idx());
        let ghost p_next = |x: Move|
            pawn_move_to(board@, pinned@, targets@, up, d, flag, x) && !rest@.contains(
                x.to.idx(),
            );
        if keep {
            moves.push(m);
            proof {
                lemma_extends_push(start, before, p_prev, m);
                assert forall|x: Move| (p_prev(x) || x == m) == #[trigger] p_next(x) by {
                    x.to.lemma_of_idx();
                    x.from.lemma_of_idx();
                    to.lemma_of_idx();
                    from.lemma_of_idx();
                }
                lemma_extends_same(start, moves.moves(), |x: Move| p_prev(x) || x == m, p_next);
            }
        } else {
            proof {
                assert forall|x: Move| p_prev(x) == #[trigger] p_next(x) by {
                    x.to.lemma_of_idx();
                    x.from.lemma_of_idx();
                    to.lemma_of_idx();
                    from.lemma_of_idx();
                }
                lemma_extends_same(start, moves.moves(), p_prev, p_next);
            }
        }
    }
    proof {
        lemma_extends_same(
            start,
            moves.moves(),
            |m: Move|
                pawn_move_to(board@, pinned@, targets@, up, d, flag, m) && !rest@.contains(
                    m.to.idx(),
                ),
            |m: Move| pawn_move_to(board@, pinned@, targets@, up, d, flag, m),
        );
    }
}

/// Appends, for each square of `targets`, the four promotions onto it from the
/// square `dist` behind it, where the check against `pinned` keeps the first.
fn push_promotions<T: MoveContainer>(
    board: &Board,
    moves: &mut T,
    pinned: &BB,
    targets: BB,
    up: bool,
    dist: usize,
    capture: bool,
)
    requires
        origins_playable(board@, targets@, up, dist as int),
    ensures
        extends_with(
            old(moves).moves(),
            final(moves).moves(),
            |m: Move| promotion_to(board@, pinned@, targets@, up, dist as int, capture, m),
        ),
{
    let ghost start = moves.moves();
    let ghost d = dist as int;
    let mut rest = targets;
    proof {
        lemma_extends_refl(start);
        lemma_extends_same(
            start,
            start,
            |m: Move| false,
            |m: Move|
                promotion_to(board@, pinned@, targets@, up, d, capture, m) && !rest@.contains(
                    m.to.idx(),
                ),
        );
    }
    while !rest.is_empty()
        invariant
            d == dist as int,
            origins_playable(board@, targets@, up, d),
            rest@.subset_of(targets@),
            extends_with(
                start,
                moves.moves(),
                |m: Move|
                    promotion_to(board@, pinned@, targets@, up, d, capture, m) && !rest@.contains(
                        m.to.idx(),
                    ),
            ),
        decreases rest.0,
    {
        let ghost prev = rest@;
        let ghost before = moves.moves();
        let to = rest.poplsb();
        assert(targets@.contains(to.idx()));
        let from = origin_square(to, up, dist);
        let (f1, f2, f3, f4) = if capture {
            (
                MoveFlag::KnightPromotionCapture,
                MoveFlag::BishopPromotionCapture,
                MoveFlag::RookPromotionCapture,
                MoveFlag::QueenPromotionCapture,
            )
        } else {
            (
                MoveFlag::KnightPromotion,
                MoveFlag::BishopPromotion,
                MoveFlag::RookPromotion,
                MoveFlag::QueenPromotion,
            )
        };
        let m = Move { from, to, flag: f1 };
        let keep = !pinned.contains(from) || !move_puts_self_in_check(board, &m);
        let ghost p_prev = |x: Move|
            promotion_to(board@, pinned@, targets@, up, d, capture, x) && !prev.contains(
                x.to.idx(),
            );
        let ghost p_next = |x: Move|
            promotion_to(board@, pinned@, targets@, up, d, capture, x) && !rest@.contains(
                x.to.idx(),
            );
        if keep {
            let m2 = Move { from, to, flag: f2 };
            let m3 = Move { from, to, flag: f3 };
            let m4 = Move { from, to, flag: f4 };
            moves.push(m);
            moves.push(m2);
            moves.push(m3);
            moves.push(m4);
            proof {
                let b1 = before.push(m);
                let b2 = b1.push(m2);
                let b3 = b2.push(m3);
                lemma_extends_push(start, before, p_prev, m);
                lemma_extends_push(start, b1, |x: Move| p_prev(x) || x == m, m2);
                lemma_extends_push(start, b2, |x: Move| (p_prev(x) || x == m) || x == m2, m3);
                lemma_extends_push(
                    start,
                    b3,
                    |x: Move| ((p_prev(x) || x == m) || x == m2) || x == m3,
                    m4,
                );
                assert forall|x: Move|
                    ((((p_prev(x) || x == m) || x == m2) || x == m3) || x == m4)
                        == #[trigger] p_next(x) by {
                    x.to.lemma_of_idx();
                    x.from.lemma_of_idx();
                    to.lemma_of_idx();
                    from.lemma_of_idx();
                }
                lemma_extends_same(
                    start,
                    moves.moves(),
                    |x: Move| (((p_prev(x) || x == m) || x == m2) || x == m3) || x == m4,
                    p_next,
                );
            }
        } else {
            proof {
                assert forall|x: Move| p_prev(x) == #[trigger] p_next(x) by {
                    x.to.lemma_of_idx();
                    x.from.lemma_of_idx();
                    to.lemma_of_idx();
                    from.lemma_of_idx();
                }
                lemma_extends_same(start, moves.moves(), p_prev, p_next);
            }
        }
    }
    proof {
        lemma_extends_same(
            start,
            moves.moves(),
            |m: Move|
                promotion_to(board@, pinned@, targets@, up, d, capture, m) && !rest@.contains(
                    m.to.idx(),
                ),
            |m: Move| promotion_to(board@, pinned@, targets@, up, d, capture, m),
        );
    }
}


/// The pawns of the side to move.
pub open spec fn own_pawns(p: Position) -> Set<int> {
    p.set(Piece::of(PieceType::Pawn, p.stm))
}

/// The side to move plays up the board.
pub open spec fn white_to_move(p: Position) -> bool {
    p.stm == Side::White
}

/// The first or the last rank.
pub open spec fn back_rank(t: int) -> bool {
    rank_of(t) == 0 || rank_of(t) == 7
}

/// The empty squares one step ahead of a pawn of the side to move.
pub open spec fn push_squares(p: Position) -> Set<int> {
    Set::new(
        |t: int|
            0 <= t < 64 && own_pawns(p).contains(origin(t, white_to_move(p), 8))
                && !p.occupied().contains(t),
    )
}

/// The squares two steps ahead of a pawn of the side to move on its starting rank,
/// both steps empty.
pub open spec fn double_push_squares(p: Position) -> Set<int> {
    let up = white_to_move(p);
    Set::new(
        |t: int|
            0 <= t < 64 && own_pawns(p).contains(origin(t, up, 16)) && rank_of(origin(t, up, 16))
                == (if up {
                1int
            } else {
                6int
            }) && !p.occupied().contains(origin(t, up, 8)) && !p.occupied().contains(t),
    )
}

/// How far back the pawn of a capture stands from its target: 7 or 9 squares. A
/// capture toward file a (`left`) comes from a pawn off file a, one toward file h
/// from a pawn off file h.
pub open spec fn capture_dist(up: bool, left: bool) -> int {
    if up == left {
        7
    } else {
        9
    }
}

/// The enemy pieces that a pawn of the side to move captures toward file a (`left`)
/// or file h.
pub open spec fn capture_squares(p: Position, left: bool) -> Set<int> {
    let up = white_to_move(p);
    let o = |t: int| origin(t, up, capture_dist(up, left));
    Set::new(
        |t: int|
            0 <= t < 64 && own_pawns(p).contains(o(t)) && file_of(o(t)) != (if left {
                0int
            } else {
                7int
            }) && p.side_set(p.stm.flip()).contains(t),
    )
}

/// A pawn capture of the side to move; onto the first or last rank, one of the four
/// capturing promotions.
pub open spec fn pawn_capture(p: Position, pinned: Set<int>, m: Move) -> bool {
    let up = white_to_move(p);
    ||| pawn_move_to(
        p,
        pinned,
        capture_squares(p, true).filter(|t: int| !back_rank(t)),
        up,
        capture_dist(up, true),
        MoveFlag::Capture,
        m,
    )
    ||| pawn_move_to(
        p,
        pinned,
        capture_squares(p, false).filter(|t: int| !back_rank(t)),
        up,
        capture_dist(up, false),
        MoveFlag::Capture,
        m,
    )
    ||| promotion_to(
        p,
        pinned,
        capture_squares(p, true).filter(|t: int| back_rank(t)),
        up,
        capture_dist(up, true),
        true,
        m,
    )
    ||| promotion_to(
        p,
        pinned,
        capture_squares(p, false).filter(|t: int| back_rank(t)),
        up,
        capture_dist(up, false),
        true,
        m,
    )
}

proof fn lemma_pawn_origins(p: Position, targets: Set<int>, up: bool, dist: int)
    requires
        p.wf(),
        p.halfmove_clock < u32::MAX,
        p.fullmove_number < u32::MAX,
        forall|t: int| #[trigger] targets.contains(t) ==> own_pawns(p).contains(origin(t, up, dist)),
    ensures
        origins_playable(p, targets, up, dist),
{
    let k = Piece::of(PieceType::Pawn, p.stm).idx();
    assert(p.pieces[k].subset_of(all_squares()));
    assert forall|t: int| #[trigger] targets.contains(t) implies 0 <= origin(t, up, dist) < 64
        && p.piece_at(origin(t, up, dist)) is Some by {
        lemma_piece_at_some(p, origin(t, up, dist), k, 0);
    }
}

/// The pawns of the side to move, moved one square ahead.
fn pawns_ahead(board: &Board, dist: u64) -> (r: BB)
    requires
        dist < 64,
    ensures
        board.stm == Side::White ==> r@ == Set::new(
            |i: int| dist <= i < 64 && own_pawns(board@).contains(i - dist),
        ),
        board.stm == Side::Black ==> r@ == Set::new(
            |i: int| 0 <= i && i + dist < 64 && own_pawns(board@).contains(i + dist),
        ),
{
    let pawns = board.get_piece_bb(Piece::from_type(PieceType::Pawn, board.stm));
    match board.stm {
        Side::White => pawns.shift_up(dist),
        Side::Black => pawns.shift_down(dist),
    }
}

/// Appends the single pawn pushes of the side to move that stop short of the last rank.
fn pawn_pushes<T: MoveContainer>(board: &Board, moves: &mut T, pinned: &BB)
    requires
        board@.wf(),
        board.halfmove_clock < u32::MAX,
        board.fullmove_number < u32::MAX,
    ensures
        extends_with(
            old(moves).moves(),
            final(moves).moves(),
            |m: Move|
                pawn_move_to(
                    board@,
                    pinned@,
                    push_squares(board@).filter(|t: int| !back_rank(t)),
                    white_to_move(board@),
                    8,
                    MoveFlag::Quiet,
                    m,
                ),
        ),
{
    let back = rank_bb(Rank::One).union(rank_bb(Rank::Eight));
    let targets = pawns_ahead(board, 8).intersect(board.empty_squares()).intersect(
        back.complement(),
    );
    let up = board.stm == Side::White;
    proof {
        let k = Piece::of(PieceType::Pawn, board.stm).idx();
        assert(board@.pieces[k].subset_of(all_squares()));
        assert(targets@ =~= push_squares(board@).filter(|t: int| !back_rank(t)));
        lemma_pawn_origins(board@, targets@, up, 8);
    }
    push_pawn_moves(board, moves, pinned, targets, up, 8, MoveFlag::Quiet);
}

/// Appends the pawn pushes of the side to move onto the last rank, four promotions each.
fn pawn_promotions<T: MoveContainer>(board: &Board, moves: &mut T, pinned: &BB)
    requires
        board@.wf(),
        board.halfmove_clock < u32::MAX,
        board.fullmove_number < u32::MAX,
    ensures
        extends_with(
            old(moves).moves(),
            final(moves).moves(),
            |m: Move|
                promotion_to(
                    board@,
                    pinned@,
                    push_squares(board@).filter(|t: int| back_rank(t)),
                    white_to_move(board@),
                    8,
                    false,
                    m,
                ),
        ),
{
    let back = rank_bb(Rank::One).union(rank_bb(Rank::Eight));
    let targets = pawns_ahead(board, 8).intersect(board.empty_squares()).intersect(back);
    let up = board.stm == Side::White;
    proof {
        let k = Piece::of(PieceType::Pawn, board.stm).idx();
        assert(board@.pieces[k].subset_of(all_squares()));
        assert(targets@ =~= push_squares(board@).filter(|t: int| back_rank(t)));
        lemma_pawn_origins(board@, targets@, up, 8);
    }
    push_promotions(board, moves, pinned, targets, up, 8, false);
}

/// Appends the double pawn pushes of the side to move.
fn pawn_double_pushes<T: MoveContainer>(board: &Board, moves: &mut T, pinned: &BB)
    requires
        board@.wf(),
        board.halfmove_clock < u32::MAX,
        board.fullmove_number < u32::MAX,
    ensures
        extends_with(
            old(moves).moves(),
            final(moves).moves(),
            |m: Move|
                pawn_move_to(
                    board@,
                    pinned@,
                    double_push_squares(board@),
                    white_to_move(board@),
                    16,
                    MoveFlag::PawnDoubleMove,
                    m,
                ),
        ),
{
    let up = board.stm == Side::White;
    let empty = board.empty_squares();
    let pawns = board.get_piece_bb(Piece::from_type(PieceType::Pawn, board.stm));
    let targets = if up {
        pawns.intersect(rank_bb(Rank::Two)).shift_up(8).intersect(empty).shift_up(8).intersect(
            empty,
        )
    } else {
        pawns.intersect(rank_bb(Rank::Seven)).shift_down(8).intersect(empty).shift_down(
            8,
        ).intersect(empty)
    };
    proof {
        let k = Piece::of(PieceType::Pawn, board.stm).idx();
        assert(board@.pieces[k].subset_of(all_squares()));
        assert(targets@ =~= double_push_squares(board@));
        lemma_pawn_origins(board@, targets@, up, 16);
    }
    push_pawn_moves(board, moves, pinned, targets, up, 16, MoveFlag::PawnDoubleMove);
}

/// The enemy pieces that the pawns of the side to move capture toward file a
/// (`left`) or file h.
fn pawn_capture_squares(board: &Board, left: bool) -> (r: BB)
    requires
        board@.wf(),
    ensures
        r@ == capture_squares(board@, left),
{
    let up = board.stm == Side::White;
    let pawns = board.get_piece_bb(Piece::from_type(PieceType::Pawn, board.stm));
    let enemy = board.get_pieces(board.stm.opposite());
    let edge = if left {
        file_bb(File::A)
    } else {
        file_bb(File::H)
    };
    let movers = pawns.intersect(edge.complement());
    let shifted = if up && left {
        movers.shift_up(7)
    } else if up {
        movers.shift_up(9)
    } else if left {
        movers.shift_down(9)
    } else {
        movers.shift_down(7)
    };
    let r = shifted.intersect(enemy);
    proof {
        let k = Piece::of(PieceType::Pawn, board.stm).idx();
        assert(board@.pieces[k].subset_of(all_squares()));
        assert(r@ =~= capture_squares(board@, left));
    }
    r
}

/// Appends the pawn captures of the side to move, promotions included.
fn pawn_captures<T: MoveContainer>(board: &Board, moves: &mut T, pinned: &BB)
    requires
        board@.wf(),
        board.halfmove_clock < u32::MAX,
        board.fullmove_number < u32::MAX,
    ensures
        extends_with(
            old(moves).moves(),
            final(moves).moves(),
            |m: Move| pawn_capture(board@, pinned@, m),
        ),
{
    let up = board.stm == Side::White;
    let back = rank_bb(Rank::One).union(rank_bb(Rank::Eight));
    let left = pawn_capture_squares(board, true);
    let right = pawn_capture_squares(board, false);
    let (dl, dr): (usize, usize) = if up {
        (7, 9)
    } else {
        (9, 7)
    };
    let ghost s0 = moves.moves();
    let left_plain = left.intersect(back.complement());
    let left_promo = left.intersect(back);
    let right_plain = right.intersect(back.complement());
    let right_promo = right.intersect(back);
    proof {
        assert(left_plain@ =~= capture_squares(board@, true).filter(|t: int| !back_rank(t)));
        assert(left_promo@ =~= capture_squares(board@, true).filter(|t: int| back_rank(t)));
        assert(right_plain@ =~= capture_squares(board@, false).filter(|t: int| !back_rank(t)));
        assert(right_promo@ =~= capture_squares(board@, false).filter(|t: int| back_rank(t)));
        lemma_pawn_origins(board@, left_plain@, up, dl as int);
        lemma_pawn_origins(board@, left_promo@, up, dl as int);
        lemma_pawn_origins(board@, right_plain@, up, dr as int);
        lemma_pawn_origins(board@, right_promo@, up, dr as int);
    }
    push_pawn_moves(board, moves, pinned, left_plain, up, dl, MoveFlag::Capture);
    let ghost s1 = moves.moves();
    push_pawn_moves(board, moves, pinned, right_plain, up, dr, MoveFlag::Capture);
    let ghost s2 = moves.moves();
    push_promotions(board, moves, pinned, left_promo, up, dl, true);
    let ghost s3 = moves.moves();
    push_promotions(board, moves, pinned, right_promo, up, dr, true);
    proof {
        let a = |m: Move| pawn_move_to(board@, pinned@, left_plain@, up, dl as int, MoveFlag::Capture, m);
        let b = |m: Move| pawn_move_to(board@, pinned@, right_plain@, up, dr as int, MoveFlag::Capture, m);
        let c = |m: Move| promotion_to(board@, pinned@, left_promo@, up, dl as int, true, m);
        let d = |m: Move| promotion_to(board@, pinned@, right_promo@, up, dr as int, true, m);
        lemma_extends_trans(s0, s1, s2, a, b);
        lemma_extends_trans(s0, s2, s3, |m: Move| a(m) || b(m), c);
        lemma_extends_trans(s0, s3, moves.moves(), |m: Move| (a(m) || b(m)) || c(m), d);
        lemma_extends_same(
            s0,
            moves.moves(),
            |m: Move| ((a(m) || b(m)) || c(m)) || d(m),
            |m: Move| pawn_capture(board@, pinned@, m),
        );
    }
}


/// An en-passant capture by a pawn of the side to move onto the en-passant square,
/// which leaves the mover's king safe.
pub open spec fn ep_move(p: Position, m: Move) -> bool {
    &&& p.en_passant == Some(m.to)
    &&& own_pawns(p).contains(m.from.idx())
    &&& pawn_targets(p.stm.flip(), m.to.idx()).contains(m.from.idx())
    &&& m.flag == MoveFlag::EnPassant
    &&& !puts_in_check(p, m)
}

/// Appends the en-passant captures of the side to move. Each is always checked for
/// the safety of the king: the captured pawn leaves a square the pin mask ignores.
fn pawn_en_passant<T: MoveContainer>(board: &Board, moves: &mut T)
    requires
        board@.wf(),
        board.halfmove_clock < u32::MAX,
        board.fullmove_number < u32::MAX,
    ensures
        extends_with(old(moves).moves(), final(moves).moves(), |m: Move| ep_move(board@, m)),
{
    let ghost start = moves.moves();
    proof {
        lemma_extends_refl(start);
    }
    let end = match board.en_passant {
        None => {
            proof {
                lemma_extends_same(start, start, |m: Move| false, |m: Move| ep_move(board@, m));
            }
            return ;
        },
        Some(sq) => sq,
    };
    let piece = Piece::from_type(PieceType::Pawn, board.stm);
    let attackers = pawn_attacks(board.stm.opposite(), end).intersect(board.get_piece_bb(piece));
    let mut rest = attackers;
    proof {
        lemma_extends_same(
            start,
            start,
            |m: Move| false,
            |m: Move| ep_move(board@, m) && !rest@.contains(m.from.idx()),
        );
    }
    while !rest.is_empty()
        invariant
            board@.wf(),
            board.halfmove_clock < u32::MAX,
            board.fullmove_number < u32::MAX,
            board.en_passant == Some(end),
            piece == Piece::of(PieceType::Pawn, board.stm),
            attackers@ == pawn_targets(board.stm.flip(), end.idx()).intersect(own_pawns(board@)),
            rest@.subset_of(attackers@),
            extends_with(
                start,
                moves.moves(),
                |m: Move| ep_move(board@, m) && !rest@.contains(m.from.idx()),
            ),
        decreases rest.0,
    {
        let ghost prev = rest@;
        let ghost before = moves.moves();
        let from = rest.poplsb();
        let m = Move { from, to: end, flag: MoveFlag::EnPassant };
        proof {
            piece.lemma_idx();
            lemma_piece_at_some(board@, from.idx(), piece.idx(), 0);
        }
        let keep = !move_puts_self_in_check(board, &m);
        let ghost p_prev = |x: Move| ep_move(board@, x) && !prev.contains(x.from.idx());
        let ghost p_next = |x: Move| ep_move(board@, x) && !rest@.contains(x.from.idx());
        if keep {
            moves.push(m);
            proof {
                lemma_extends_push(start, before, p_prev, m);
                assert forall|x: Move| (p_prev(x) || x == m) == #[trigger] p_next(x) by {
                    x.from.lemma_of_idx();
                    from.lemma_of_idx();
                }
                lemma_extends_same(start, moves.moves(), |x: Move| p_prev(x) || x == m, p_next);
            }
        } else {
            proof {
                assert forall|x: Move| p_prev(x) == #[trigger] p_next(x) by {
                    x.from.lemma_of_idx();
                    from.lemma_of_idx();
                }
                lemma_extends_same(start, moves.moves(), p_prev, p_next);
            }
        }
    }
    proof {
        lemma_extends_same(
            start,
            moves.moves(),
            |m: Move| ep_move(board@, m) && !rest@.contains(m.from.idx()),
            |m: Move| ep_move(board@, m),
        );
    }
}

/// The king on `king` may castle toward the rook on `rook`, passing `via` to
/// `dest`: nothing stands between king and rook, and none of the king's three
/// squares is attacked.
pub open spec fn castle_ok(p: Position, king: int, rook: int, via: int, dest: int) -> bool {
    &&& clear_path(king, rook, p.occupied())
    &&& !attacked(p, king, p.stm)
    &&& !attacked(p, via, p.stm)
    &&& !attacked(p, dest, p.stm)
}

/// A castle of the side to move for which it holds the right.
pub open spec fn castle_move(p: Position, m: Move) -> bool {
    ||| (p.stm == Side::White && p.white_king_castle && m == Move {
        from: Square::E1,
        to: Square::G1,
        flag: MoveFlag::KingCastle,
    } && castle_ok(p, 4, 7, 5, 6))
    ||| (p.stm == Side::White && p.white_queen_castle && m == Move {
        from: Square::E1,
        to: Square::C1,
        flag: MoveFlag::QueenCastle,
    } && castle_ok(p, 4, 0, 3, 2))
    ||| (p.stm == Side::Black && p.black_king_castle && m == Move {
        from: Square::E8,
        to: Square::G8,
        flag: MoveFlag::KingCastle,
    } && castle_ok(p, 60, 63, 61, 62))
    ||| (p.stm == Side::Black && p.black_queen_castle && m == Move {
        from: Square::E8,
        to: Square::C8,
        flag: MoveFlag::QueenCastle,
    } && castle_ok(p, 60, 56, 59, 58))
}

/// Appends the castle of the king on `king` toward the rook on `rook`, through `via`
/// to `dest`, where `allowed` holds and the path permits it.
fn try_castle<T: MoveContainer>(
    board: &Board,
    moves: &mut T,
    allowed: bool,
    flag: MoveFlag,
    rook: Square,
    king: Square,
    via: Square,
    dest: Square,
)
    ensures
        extends_with(
            old(moves).moves(),
            final(moves).moves(),
            |m: Move|
                allowed && m == (Move { from: king, to: dest, flag }) && castle_ok(
                    board@,
                    king.idx(),
                    rook.idx(),
                    via.idx(),
                    dest.idx(),
                ),
        ),
{
    let ghost start = moves.moves();
    proof {
        lemma_extends_refl(start);
    }
    let pieces = board.occupied_squares();
    if allowed && in_between(king, rook).intersect(pieces).is_empty() && !is_square_threatened(
        board,
        king,
        board.stm,
    ) && !is_square_threatened(board, via, board.stm) && !is_square_threatened(
        board,
        dest,
        board.stm,
    ) {
        let m = Move { from: king, to: dest, flag };
        moves.push(m);
        proof {
            lemma_extends_push(start, start, |x: Move| false, m);
            lemma_extends_same(
                start,
                moves.moves(),
                |x: Move| false || x == m,
                |x: Move|
                    allowed && x == (Move { from: king, to: dest, flag }) && castle_ok(
                        board@,
                        king.idx(),
                        rook.idx(),
                        via.idx(),
                        dest.idx(),
                    ),
            );
        }
    } else {
        proof {
            lemma_extends_same(
                start,
                start,
                |x: Move| false,
                |x: Move|
                    allowed && x == (Move { from: king, to: dest, flag }) && castle_ok(
                        board@,
                        king.idx(),
                        rook.idx(),
                        via.idx(),
                        dest.idx(),
                    ),
            );
        }
    }
}

/// Appends the castles of the side to move.
fn castle_moves<T: MoveContainer>(board: &Board, moves: &mut T)
    ensures
        extends_with(old(moves).moves(), final(moves).moves(), |m: Move| castle_move(board@, m)),
{
    let white = board.stm == Side::White;
    let ghost s0 = moves.moves();
    try_castle(
        board,
        moves,
        white && board.white_king_castle,
        MoveFlag::KingCastle,
        Square::H1,
        Square::E1,
        Square::F1,
        Square::G1,
    );
    let ghost s1 = moves.moves();
    try_castle(
        board,
        moves,
        white && board.white_queen_castle,
        MoveFlag::QueenCastle,
        Square::A1,
        Square::E1,
        Square::D1,
        Square::C1,
    );
    let ghost s2 = moves.moves();
    try_castle(
        board,
        moves,
        !white && board.black_king_castle,
        MoveFlag::KingCastle,
        Square::H8,
        Square::E8,
        Square::F8,
        Square::G8,
    );
    let ghost s3 = moves.moves();
    try_castle(
        board,
        moves,
        !white && board.black_queen_castle,
        MoveFlag::QueenCastle,
        Square::A8,
        Square::E8,
        Square::D8,
        Square::C8,
    );
    proof {
        let a = |m: Move|
            (white && board.white_king_castle) && m == (Move {
                from: Square::E1,
                to: Square::G1,
                flag: MoveFlag::KingCastle,
            }) && castle_ok(board@, 4, 7, 5, 6);
        let b = |m: Move|
            (white && board.white_queen_castle) && m == (Move {
                from: Square::E1,
                to: Square::C1,
                flag: MoveFlag::QueenCastle,
            }) && castle_ok(board@, 4, 0, 3, 2);
        let c = |m: Move|
            (!white && board.black_king_castle) && m == (Move {
                from: Square::E8,
                to: Square::G8,
                flag: MoveFlag::KingCastle,
            }) && castle_ok(board@, 60, 63, 61, 62);
        let d = |m: Move|
            (!white && board.black_queen_castle) && m == (Move {
                from: Square::E8,
                to: Square::C8,
                flag: MoveFlag::QueenCastle,
            }) && castle_ok(board@, 60, 56, 59, 58);
        lemma_extends_same(s0, s1, |m: Move| (white && board.white_king_castle) && m == (Move {
                from: Square::E1,
                to: Square::G1,
                flag: MoveFlag::KingCastle,
            }) && castle_ok(board@, Square::E1.idx(), Square::H1.idx(), Square::F1.idx(), Square::G1.idx()), a);
        lemma_extends_same(s1, s2, |m: Move| (white && board.white_queen_castle) && m == (Move {
                from: Square::E1,
                to: Square::C1,
                flag: MoveFlag::QueenCastle,
            }) && castle_ok(board@, Square::E1.idx(), Square::A1.idx(), Square::D1.idx(), Square::C1.idx()), b);
        lemma_extends_same(s2, s3, |m: Move| (!white && board.black_king_castle) && m == (Move {
                from: Square::E8,
                to: Square::G8,
                flag: MoveFlag::KingCastle,
            }) && castle_ok(board@, Square::E8.idx(), Square::H8.idx(), Square::F8.idx(), Square::G8.idx()), c);
        lemma_extends_same(s3, moves.moves(), |m: Move| (!white && board.black_queen_castle) && m == (Move {
                from: Square::E8,
                to: Square::C8,
                flag: MoveFlag::QueenCastle,
            }) && castle_ok(board@, Square::E8.idx(), Square::A8.idx(), Square::D8.idx(), Square::C8.idx()), d);
        lemma_extends_trans(s0, s1, s2, a, b);
        lemma_extends_trans(s0, s2, s3, |m: Move| a(m) || b(m), c);
        lemma_extends_trans(s0, s3, moves.moves(), |m: Move| (a(m) || b(m)) || c(m), d);
        lemma_extends_same(
            s0,
            moves.moves(),
            |m: Move| ((a(m) || b(m)) || c(m)) || d(m),
            |m: Move| castle_move(board@, m),
        );
    }
}


/// A quiet move of the side to move: a single or double pawn push short of the last
/// rank, a castle, or a move of another piece to an empty square; those from
/// squares of `pinned` only where they leave the king safe.
pub open spec fn quiet_move(p: Position, pinned: Set<int>, m: Move) -> bool {
    let empty = all_squares().difference(p.occupied());
    ||| pawn_move_to(
        p,
        pinned,
        push_squares(p).filter(|t: int| !back_rank(t)),
        white_to_move(p),
        8,
        MoveFlag::Quiet,
        m,
    )
    ||| pawn_move_to(p, pinned, double_push_squares(p), white_to_move(p), 16, MoveFlag::PawnDoubleMove, m)
    ||| castle_move(p, m)
    ||| piece_move(p, pinned, PieceType::Knight, empty, MoveFlag::Quiet, m)
    ||| piece_move(p, pinned, PieceType::King, empty, MoveFlag::Quiet, m)
    ||| piece_move(p, pinned, PieceType::Bishop, empty, MoveFlag::Quiet, m)
    ||| piece_move(p, pinned, PieceType::Rook, empty, MoveFlag::Quiet, m)
    ||| piece_move(p, pinned, PieceType::Queen, empty, MoveFlag::Quiet, m)
}

/// A loud move of the side to move: a pawn capture, a pawn push onto the last rank,
/// an en-passant capture, or a capture by another piece; those from squares of
/// `pinned` only where they leave the king safe.
pub open spec fn loud_move(p: Position, pinned: Set<int>, m: Move) -> bool {
    let enemy = p.side_set(p.stm.flip());
    ||| pawn_capture(p, pinned, m)
    ||| promotion_to(
        p,
        pinned,
        push_squares(p).filter(|t: int| back_rank(t)),
        white_to_move(p),
        8,
        false,
        m,
    )
    ||| ep_move(p, m)
    ||| piece_move(p, pinned, PieceType::Knight, enemy, MoveFlag::Capture, m)
    ||| piece_move(p, pinned, PieceType::King, enemy, MoveFlag::Capture, m)
    ||| piece_move(p, pinned, PieceType::Bishop, enemy, MoveFlag::Capture, m)
    ||| piece_move(p, pinned, PieceType::Rook, enemy, MoveFlag::Capture, m)
    ||| piece_move(p, pinned, PieceType::Queen, enemy, MoveFlag::Capture, m)
}

/// Appends the quiet moves of the side to move: see `quiet_move`.
pub fn quiet_moves<T: MoveContainer>(board: &Board, moves: &mut T, pinned: &BB)
    requires
        board@.wf(),
        board.halfmove_clock < u32::MAX,
        board.fullmove_number < u32::MAX,
    ensures
        extends_with(
            old(moves).moves(),
            final(moves).moves(),
            |m: Move| quiet_move(board@, pinned@, m),
        ),
{
    let ghost p = board@;
    let ghost s0 = moves.moves();
    pawn_pushes(board, moves, pinned);
    let ghost s1 = moves.moves();
    pawn_double_pushes(board, moves, pinned);
    let ghost s2 = moves.moves();
    castle_moves(board, moves);
    let ghost s3 = moves.moves();
    let empty = board.empty_squares();
    piece_moves(board, moves, pinned, PieceType::Knight, empty, MoveFlag::Quiet);
    let ghost s4 = moves.moves();
    piece_moves(board, moves, pinned, PieceType::King, empty, MoveFlag::Quiet);
    let ghost s5 = moves.moves();
    piece_moves(board, moves, pinned, PieceType::Bishop, empty, MoveFlag::Quiet);
    let ghost s6 = moves.moves();
    piece_moves(board, moves, pinned, PieceType::Rook, empty, MoveFlag::Quiet);
    let ghost s7 = moves.moves();
    piece_moves(board, moves, pinned, PieceType::Queen, empty, MoveFlag::Quiet);
    proof {
        let e = empty@;
        let a = |m: Move| pawn_move_to(p, pinned@, push_squares(p).filter(|t: int| !back_rank(t)), white_to_move(p), 8, MoveFlag::Quiet, m);
        let b = |m: Move| pawn_move_to(p, pinned@, double_push_squares(p), white_to_move(p), 16, MoveFlag::PawnDoubleMove, m);
        let c = |m: Move| castle_move(p, m);
        let d = |m: Move| piece_move(p, pinned@, PieceType::Knight, e, MoveFlag::Quiet, m);
        let f = |m: Move| piece_move(p, pinned@, PieceType::King, e, MoveFlag::Quiet, m);
        let g = |m: Move| piece_move(p, pinned@, PieceType::Bishop, e, MoveFlag::Quiet, m);
        let h = |m: Move| piece_move(p, pinned@, PieceType::Rook, e, MoveFlag::Quiet, m);
        let k = |m: Move| piece_move(p, pinned@, PieceType::Queen, e, MoveFlag::Quiet, m);
        lemma_one_piece(p);
        lemma_extends_trans(s0, s1, s2, a, b);
        let ab = |m: Move| a(m) || b(m);
        lemma_extends_trans(s0, s2, s3, ab, c);
        let ac = |m: Move| ab(m) || c(m);
        lemma_extends_trans(s0, s3, s4, ac, d);
        let ad = |m: Move| ac(m) || d(m);
        lemma_extends_trans(s0, s4, s5, ad, f);
        let af = |m: Move| ad(m) || f(m);
        lemma_extends_trans(s0, s5, s6, af, g);
        let ag = |m: Move| af(m) || g(m);
        lemma_extends_trans(s0, s6, s7, ag, h);
        let ah = |m: Move| ag(m) || h(m);
        lemma_extends_trans(s0, s7, moves.moves(), ah, k);
        lemma_extends_same(
            s0,
            moves.moves(),
            |m: Move| ah(m) || k(m),
            |m: Move| quiet_move(board@, pinned@, m),
        );
    }
}

/// Appends the loud moves of the side to move: see `loud_move`.
pub fn loud_moves<T: MoveContainer>(board: &Board, moves: &mut T, pinned: &BB)
    requires
        board@.wf(),
        board.halfmove_clock < u32::MAX,
        board.fullmove_number < u32::MAX,
    ensures
        extends_with(
            old(moves).moves(),
            final(moves).moves(),
            |m: Move| loud_move(board@, pinned@, m),
        ),
{
    let ghost p = board@;
    let ghost s0 = moves.moves();
    pawn_captures(board, moves, pinned);
    let ghost s1 = moves.moves();
    pawn_promotions(board, moves, pinned);
    let ghost s2 = moves.moves();
    pawn_en_passant(board, moves);
    let ghost s3 = moves.moves();
    let enemy = board.get_pieces(board.stm.opposite());
    piece_moves(board, moves, pinned, PieceType::Knight, enemy, MoveFlag::Capture);
    let ghost s4 = moves.moves();
    piece_moves(board, moves, pinned, PieceType::King, enemy, MoveFlag::Capture);
    let ghost s5 = moves.moves();
    piece_moves(board, moves, pinned, PieceType::Bishop, enemy, MoveFlag::Capture);
    let ghost s6 = moves.moves();
    piece_moves(board, moves, pinned, PieceType::Rook, enemy, MoveFlag::Capture);
    let ghost s7 = moves.moves();
    piece_moves(board, moves, pinned, PieceType::Queen, enemy, MoveFlag::Capture);
    proof {
        let e = enemy@;
        let a = |m: Move| pawn_capture(p, pinned@, m);
        let b = |m: Move| promotion_to(p, pinned@, push_squares(p).filter(|t: int| back_rank(t)), white_to_move(p), 8, false, m);
        let c = |m: Move| ep_move(p, m);
        let d = |m: Move| piece_move(p, pinned@, PieceType::Knight, e, MoveFlag::Capture, m);
        let f = |m: Move| piece_move(p, pinned@, PieceType::King, e, MoveFlag::Capture, m);
        let g = |m: Move| piece_move(p, pinned@, PieceType::Bishop, e, MoveFlag::Capture, m);
        let h = |m: Move| piece_move(p, pinned@, PieceType::Rook, e, MoveFlag::Capture, m);
        let k = |m: Move| piece_move(p, pinned@, PieceType::Queen, e, MoveFlag::Capture, m);
        lemma_one_piece(p);
        lemma_extends_trans(s0, s1, s2, a, b);
        let ab = |m: Move| a(m) || b(m);
        lemma_extends_trans(s0, s2, s3, ab, c);
        let ac = |m: Move| ab(m) || c(m);
        lemma_extends_trans(s0, s3, s4, ac, d);
        let ad = |m: Move| ac(m) || d(m);
        lemma_extends_trans(s0, s4, s5, ad, f);
        let af = |m: Move| ad(m) || f(m);
        lemma_extends_trans(s0, s5, s6, af, g);
        let ag = |m: Move| af(m) || g(m);
        lemma_extends_trans(s0, s6, s7, ag, h);
        let ah = |m: Move| ag(m) || h(m);
        lemma_extends_trans(s0, s7, moves.moves(), ah, k);
        lemma_extends_same(
            s0,
            moves.moves(),
            |m: Move| ah(m) || k(m),
            |m: Move| loud_move(board@, pinned@, m),
        );
    }
}


/// The squares of `line` held by the side to move with nothing between them and
/// the king on `king`, where an enemy slider of `sliders` stands on `line`.
pub open spec fn line_pins(p: Position, king: int, line: Set<int>, sliders: Set<int>) -> Set<int> {
    if line.intersect(sliders) == Set::<int>::empty() {
        Set::<int>::empty()
    } else {
        Set::new(
            |t: int|
                line.contains(t) && p.side_set(p.stm).contains(t) && clear_path(
                    king,
                    t,
                    p.occupied(),
                ),
        )
    }
}

/// The squares whose moves must be checked for the safety of the king: all of them
/// when the side to move is in check; otherwise the king's own square and the
/// pieces of the side to move that could shield it from an enemy slider on one of
/// the king's four lines.
pub open spec fn pinned_set(p: Position) -> Set<int> {
    let s = p.stm;
    let e = s.flip();
    let k = least(kings(p, s));
    if in_check(p, s) {
        all_squares()
    } else {
        let q = p.set(Piece::of(PieceType::Queen, e));
        let qb = q.union(p.set(Piece::of(PieceType::Bishop, e)));
        let qr = q.union(p.set(Piece::of(PieceType::Rook, e)));
        line_pins(p, k, diagonal_set(7 + file_of(k) - rank_of(k)), qb).union(
            line_pins(p, k, antidiagonal_set(14 - file_of(k) - rank_of(k)), qb),
        ).union(line_pins(p, k, rank_set(rank_of(k)), qr)).union(
            line_pins(p, k, file_set(file_of(k)), qr),
        ).insert(k)
    }
}

/// The squares of `possible` with nothing of `occ` between them and `king`.
fn scan_for_pinned(king: Square, possible: BB, occ: BB) -> (r: BB)
    ensures
        r@ == Set::new(|t: int| possible@.contains(t) && clear_path(king.idx(), t, occ@)),
{
    let mut pinned = BB::empty();
    let mut rest = possible;
    proof {
        assert(pinned@ =~= Set::new(
            |t: int| possible@.contains(t) && !rest@.contains(t) && clear_path(king.idx(), t, occ@),
        ));
    }
    while !rest.is_empty()
        invariant
            rest@.subset_of(possible@),
            pinned@ == Set::new(
                |t: int|
                    possible@.contains(t) && !rest@.contains(t) && clear_path(king.idx(), t, occ@),
            ),
        decreases rest.0,
    {
        let ghost prev = rest@;
        let start = rest.poplsb();
        if in_between(king, start).intersect(occ).is_empty() {
            pinned = pinned.union(start.to_bb());
        }
        assert(pinned@ =~= Set::new(
            |t: int| possible@.contains(t) && !rest@.contains(t) && clear_path(king.idx(), t, occ@),
        ));
    }
    assert(pinned@ =~= Set::new(
        |t: int| possible@.contains(t) && clear_path(king.idx(), t, occ@),
    ));
    pinned
}

/// The pieces of `own` on `line` that could shield `king` from an enemy slider of
/// `sliders` on that line.
fn line_pin_mask(board: &Board, king: Square, line: BB, sliders: BB, own: BB, occ: BB) -> (r: BB)
    requires
        own@ == board@.side_set(board.stm),
        occ@ == board@.occupied(),
    ensures
        r@ == line_pins(board@, king.idx(), line@, sliders@),
{
    if line.intersect(sliders).is_empty() {
        BB::empty()
    } else {
        let r = scan_for_pinned(king, line.intersect(own), occ);
        assert(r@ =~= line_pins(board@, king.idx(), line@, sliders@));
        r
    }
}

/// The mask of the squares whose moves are checked for the safety of the king: see
/// `pinned_set`. A move from any other square is accepted without that check.
fn pinned_mask(board: &Board) -> (r: BB)
    requires
        kings(board@, board.stm) != Set::<int>::empty(),
    ensures
        r@ == pinned_set(board@),
{
    let king = board.get_king(board.stm);
    if is_in_check(board, board.stm) {
        return BB::full();
    }
    let pieces = board.occupied_squares();
    let our_pieces = board.get_pieces(board.stm);
    let e = board.stm.opposite();
    let enemy_queen = board.get_piece_bb(Piece::from_type(PieceType::Queen, e));
    let enemy_bishop = board.get_piece_bb(Piece::from_type(PieceType::Bishop, e));
    let enemy_rook = board.get_piece_bb(Piece::from_type(PieceType::Rook, e));
    let queen_rook = enemy_queen.union(enemy_rook);
    let queen_bishop = enemy_queen.union(enemy_bishop);
    let diagonal = line_pin_mask(
        board,
        king,
        diagonal_bb(king.diagonal()),
        queen_bishop,
        our_pieces,
        pieces,
    );
    let anti = line_pin_mask(
        board,
        king,
        antidiagonal_bb(king.antidiagonal()),
        queen_bishop,
        our_pieces,
        pieces,
    );
    let rank = line_pin_mask(board, king, rank_bb(king.rank()), queen_rook, our_pieces, pieces);
    let file = line_pin_mask(board, king, file_bb(king.file()), queen_rook, our_pieces, pieces);
    // the king itself is always checked
    let r = diagonal.union(anti).union(rank).union(file).union(king.to_bb());
    assert(r@ =~= pinned_set(board@));
    r
}

/// A move that the generator produces for the position: a quiet or a loud move,
/// checked for the safety of the king where it starts on a square of `pinned_set`.
pub open spec fn generated(p: Position, m: Move) -> bool {
    quiet_move(p, pinned_set(p), m) || loud_move(p, pinned_set(p), m)
}

/// Appends the legal moves of the side to move: see `generated`; where the side
/// to move has one king, those are exactly the moves of `legal`.
pub fn legal_moves<T: MoveContainer>(board: &Board, moves: &mut T)
    requires
        board@.wf(),
        kings(board@, board.stm) != Set::<int>::empty(),
        board.halfmove_clock < u32::MAX,
        board.fullmove_number < u32::MAX,
    ensures
        extends_with(old(moves).moves(), final(moves).moves(), |m: Move| generated(board@, m)),
        forall|k: int|
            kings(board@, board.stm) == set![k] ==> extends_with(
                old(moves).moves(),
                final(moves).moves(),
                |m: Move| legal(board@, m),
            ),
{
    let pinned = pinned_mask(board);
    let ghost s0 = moves.moves();
    quiet_moves(board, moves, &pinned);
    let ghost s1 = moves.moves();
    loud_moves(board, moves, &pinned);
    proof {
        let a = |m: Move| quiet_move(board@, pinned@, m);
        let b = |m: Move| loud_move(board@, pinned@, m);
        lemma_extends_trans(s0, s1, moves.moves(), a, b);
        lemma_extends_same(
            s0,
            moves.moves(),
            |m: Move| a(m) || b(m),
            |m: Move| generated(board@, m),
        );
        assert forall|k: int| kings(board@, board.stm) == set![k] implies extends_with(
            s0,
            moves.moves(),
            |m: Move| legal(board@, m),
        ) by {
            assert forall|m: Move| #[trigger] generated(board@, m) == legal(board@, m) by {
                lemma_generated_iff_legal(board@, m, k);
            }
            lemma_extends_same(
                s0,
                moves.moves(),
                |m: Move| generated(board@, m),
                |m: Move| legal(board@, m),
            );
        }
    }
}

} // verus!
