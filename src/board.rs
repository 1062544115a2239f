use crate::chess_move::{Move, MoveFlag};
use crate::definitions::{
    all_squares, file_of, lemma_view_zero, rank_of, Piece, PieceType, Side, Square, BB,
};
use vstd::prelude::*;

verus! {

/// The mathematical model of a board: for each piece number (`Piece::idx`) the set of
/// squares it occupies, and the rest of the game state as it stands.
pub struct Position {
    pub pieces: Seq<Set<int>>,
    pub en_passant: Option<Square>,
    pub halfmove_clock: u32,
    pub fullmove_number: u32,
    pub stm: Side,
    pub white_king_castle: bool,
    pub white_queen_castle: bool,
    pub black_king_castle: bool,
    pub black_queen_castle: bool,
}

/// The least number of a set of squares.
pub open spec fn least(s: Set<int>) -> int {
    choose|i: int| s.contains(i) && forall|j: int| s.contains(j) ==> i <= j
}

impl Position {
    /// The squares of piece `p`.
    pub open spec fn set(self, p: Piece) -> Set<int> {
        self.pieces[p.idx()]
    }

    /// The twelve sets are pairwise disjoint and hold squares of the board only.
    pub open spec fn wf(self) -> bool {
        &&& self.pieces.len() == 12
        &&& forall|k: int| 0 <= k < 12 ==> #[trigger] self.pieces[k].subset_of(all_squares())
        &&& forall|k: int, l: int|
            0 <= k < 12 && 0 <= l < 12 && k != l ==> #[trigger] self.pieces[k].disjoint(
                #[trigger] self.pieces[l],
            )
    }

    /// The squares that some piece occupies.
    pub open spec fn occupied(self) -> Set<int> {
        Set::new(|i: int| exists|k: int| 0 <= k < 12 && #[trigger] self.pieces[k].contains(i))
    }

    /// The squares that the pieces of side `s` occupy.
    pub open spec fn side_set(self, s: Side) -> Set<int> {
        Set::new(
            |i: int|
                exists|k: int|
                    6 * s.idx() <= k < 6 * s.idx() + 6 && #[trigger] self.pieces[k].contains(i),
        )
    }

    /// The first piece, in the order of their numbers from `k` on, that occupies `i`.
    pub open spec fn first_from(self, i: int, k: int) -> Option<Piece>
        decreases 12 - k,
    {
        if k >= 12 || k < 0 {
            None
        } else if self.pieces[k].contains(i) {
            Some(Piece::of_idx(k))
        } else {
            self.first_from(i, k + 1)
        }
    }

    /// The piece on square `i`, if any (the first by number, where several are).
    pub open spec fn piece_at(self, i: int) -> Option<Piece> {
        self.first_from(i, 0)
    }

    /// The position with square `i` emptied.
    pub open spec fn clear(self, i: int) -> Position {
        Position { pieces: self.pieces.map_values(|s: Set<int>| s.remove(i)), ..self }
    }

    /// The position with square `i` emptied and then given to piece `p`.
    pub open spec fn put(self, i: int, p: Piece) -> Position {
        let c = self.clear(i);
        Position { pieces: c.pieces.update(p.idx(), c.pieces[p.idx()].insert(i)), ..c }
    }

    /// The castling rights after move `m`: a move from or to a corner voids that
    /// rook's right, and a move from a king's square voids both of that side's rights.
    pub open spec fn rights_after(self, m: Move) -> Position {
        let (f, t) = (m.from.idx(), m.to.idx());
        Position {
            white_king_castle: self.white_king_castle && f != 4 && f != 7 && t != 7,
            white_queen_castle: self.white_queen_castle && f != 4 && f != 0 && t != 0,
            black_king_castle: self.black_king_castle && f != 60 && f != 63 && t != 63,
            black_queen_castle: self.black_queen_castle && f != 60 && f != 56 && t != 56,
            ..self
        }
    }

    /// The castling rook's move, where `m` castles: for side `stm`, the rook
    /// beside the king's path goes over to the other side of the king.
    pub open spec fn rook_castled(self, m: Move, stm: Side) -> Position {
        if m.flag == MoveFlag::KingCastle && stm == Side::White {
            self.put(5, Piece::WhiteRook).clear(7)
        } else if m.flag == MoveFlag::QueenCastle && stm == Side::White {
            self.put(3, Piece::WhiteRook).clear(0)
        } else if m.flag == MoveFlag::KingCastle && stm == Side::Black {
            self.put(61, Piece::BlackRook).clear(63)
        } else if m.flag == MoveFlag::QueenCastle && stm == Side::Black {
            self.put(59, Piece::BlackRook).clear(56)
        } else {
            self
        }
    }

    /// The pieces after move `m` by side `stm`, from `from_piece` on `from`: the
    /// piece goes to `to` (unless it promotes), the castling rook moves, an
    /// en-passant capture removes the pawn beside `to` on the rank of `from`, a
    /// promotion places its piece, and `from` is emptied.
    #[verifier::opaque]
    pub open spec fn moved(self, m: Move, from_piece: Piece, stm: Side) -> Position {
        let stepped = if !m.promotes() {
            self.put(m.to.idx(), from_piece)
        } else {
            self
        };
        let castled = stepped.rook_castled(m, stm);
        let taken = if m.flag == MoveFlag::EnPassant {
            castled.clear(8 * rank_of(m.from.idx()) + file_of(m.to.idx()))
        } else {
            castled
        };
        let promoted = if m.promotes() {
            taken.put(m.to.idx(), Piece::of(m.flag.promoted_kind(), stm))
        } else {
            taken
        };
        promoted.clear(m.from.idx())
    }

    /// The position after move `m`. The en-passant square is set on every double
    /// push; the halfmove clock is reset by a capture or a pawn move and counts up
    /// otherwise; the fullmove number counts up after Black's move.
    pub open spec fn after(self, m: Move) -> Position {
        let from_piece = self.piece_at(m.from.idx())->Some_0;
        let stm = self.stm;
        let half = if m.captures() || from_piece == Piece::of(PieceType::Pawn, stm) {
            0u32
        } else {
            (self.halfmove_clock + 1) as u32
        };
        let ep = if m.flag == MoveFlag::PawnDoubleMove {
            Some(Square::of((m.to.idx() + m.from.idx()) / 2))
        } else {
            None
        };
        let full = if stm == Side::Black {
            (self.fullmove_number + 1) as u32
        } else {
            self.fullmove_number
        };
        Position {
            en_passant: ep,
            halfmove_clock: half,
            fullmove_number: full,
            stm: stm.flip(),
            pieces: self.moved(m, from_piece, stm).pieces,
            ..self
        }.rights_after(m)
    }
}

/// A square that a piece occupies has a piece on it.
pub proof fn lemma_piece_at_some(p: Position, i: int, k: int, j: int)
    requires
        0 <= j <= k < 12,
        p.pieces[k].contains(i),
    ensures
        p.first_from(i, j) is Some,
    decreases k - j,
{
    if !p.pieces[j].contains(i) {
        lemma_piece_at_some(p, i, k, j + 1);
    }
}

/// On a well-formed position no square holds two pieces.
pub proof fn lemma_one_piece(p: Position)
    requires
        p.wf(),
    ensures
        forall|x: int, i: int, j: int|
            0 <= i < 12 && 0 <= j < 12 && #[trigger] p.pieces[i].contains(x)
                && #[trigger] p.pieces[j].contains(x) ==> i == j,
{
    assert forall|x: int, i: int, j: int|
        0 <= i < 12 && 0 <= j < 12 && #[trigger] p.pieces[i].contains(x)
            && #[trigger] p.pieces[j].contains(x) implies i == j by {
        if i != j {
            assert(p.pieces[i].disjoint(p.pieces[j]));
        }
    }
}

/// The piece that `first_from` finds occupies the square.
pub proof fn lemma_first_from(p: Position, i: int, j: int)
    requires
        0 <= j <= 12,
        p.first_from(i, j) is Some,
    ensures
        j <= p.first_from(i, j)->Some_0.idx() < 12,
        p.pieces[p.first_from(i, j)->Some_0.idx()].contains(i),
    decreases 12 - j,
{
    if j < 12 && !p.pieces[j].contains(i) {
        lemma_first_from(p, i, j + 1);
    } else {
        assert(Piece::of_idx(j).idx() == j);
    }
}

/// Emptying a square keeps the sets pairwise disjoint.
pub proof fn lemma_clear_wf(p: Position, i: int)
    requires
        p.wf(),
    ensures
        p.clear(i).wf(),
        p.clear(i).occupied() == p.occupied().remove(i),
{
    let c = p.clear(i);
    assert forall|k: int| 0 <= k < 12 implies #[trigger] c.pieces[k].subset_of(all_squares()) by {
        assert(p.pieces[k].subset_of(all_squares()));
    }
    assert forall|k: int, l: int|
        0 <= k < 12 && 0 <= l < 12 && k != l implies #[trigger] c.pieces[k].disjoint(
        #[trigger] c.pieces[l],
    ) by {
        assert(p.pieces[k].disjoint(p.pieces[l]));
    }
    assert forall|x: int| c.occupied().contains(x) == p.occupied().remove(i).contains(x) by {
        if p.occupied().remove(i).contains(x) {
            let k = choose|k: int| 0 <= k < 12 && #[trigger] p.pieces[k].contains(x);
            assert(c.pieces[k].contains(x));
        }
    }
    assert(c.occupied() =~= p.occupied().remove(i));
}

/// Giving a square to a piece keeps the sets pairwise disjoint.
pub proof fn lemma_put_wf(p: Position, i: int, q: Piece)
    requires
        p.wf(),
        0 <= i < 64,
    ensures
        p.put(i, q).wf(),
        p.put(i, q).occupied() == p.occupied().insert(i),
{
    lemma_clear_wf(p, i);
    let c = p.clear(i);
    let r = p.put(i, q);
    q.lemma_idx();
    assert forall|k: int| 0 <= k < 12 implies #[trigger] r.pieces[k].subset_of(all_squares()) by {
        assert(c.pieces[k].subset_of(all_squares()));
    }
    assert forall|k: int, l: int|
        0 <= k < 12 && 0 <= l < 12 && k != l implies #[trigger] r.pieces[k].disjoint(
        #[trigger] r.pieces[l],
    ) by {
        assert(c.pieces[k].disjoint(c.pieces[l]));
        assert(!c.pieces[k].contains(i) && !c.pieces[l].contains(i));
    }
    assert forall|x: int| r.occupied().contains(x) == p.occupied().insert(i).contains(x) by {
        if x == i {
            assert(r.pieces[q.idx()].contains(x));
        } else if p.occupied().contains(x) {
            let k = choose|k: int| 0 <= k < 12 && #[trigger] p.pieces[k].contains(x);
            assert(r.pieces[k].contains(x));
        }
        if r.occupied().contains(x) && x != i {
            let k = choose|k: int| 0 <= k < 12 && #[trigger] r.pieces[k].contains(x);
            assert(p.pieces[k].contains(x));
        }
    }
    assert(r.occupied() =~= p.occupied().insert(i));
}

/// Each step of a move keeps the sets pairwise disjoint, so the position after a
/// move is as well formed as the one before.
pub proof fn lemma_after_wf(p: Position, m: Move)
    requires
        p.wf(),
    ensures
        p.after(m).wf(),
{
    m.from.lemma_of_idx();
    m.to.lemma_of_idx();
    let from_piece = p.piece_at(m.from.idx())->Some_0;
    lemma_moved_wf(p, m, from_piece, p.stm);
}

pub proof fn lemma_moved_wf(p: Position, m: Move, from_piece: Piece, stm: Side)
    requires
        p.wf(),
    ensures
        p.moved(m, from_piece, stm).wf(),
{
    reveal(Position::moved);
    m.from.lemma_of_idx();
    m.to.lemma_of_idx();
    let stepped = if !m.promotes() {
        lemma_put_wf(p, m.to.idx(), from_piece);
        p.put(m.to.idx(), from_piece)
    } else {
        p
    };
    if m.flag == MoveFlag::KingCastle && stm == Side::White {
        lemma_put_wf(stepped, 5, Piece::WhiteRook);
        lemma_clear_wf(stepped.put(5, Piece::WhiteRook), 7);
    } else if m.flag == MoveFlag::QueenCastle && stm == Side::White {
        lemma_put_wf(stepped, 3, Piece::WhiteRook);
        lemma_clear_wf(stepped.put(3, Piece::WhiteRook), 0);
    } else if m.flag == MoveFlag::KingCastle && stm == Side::Black {
        lemma_put_wf(stepped, 61, Piece::BlackRook);
        lemma_clear_wf(stepped.put(61, Piece::BlackRook), 63);
    } else if m.flag == MoveFlag::QueenCastle && stm == Side::Black {
        lemma_put_wf(stepped, 59, Piece::BlackRook);
        lemma_clear_wf(stepped.put(59, Piece::BlackRook), 56);
    }
    let castled = stepped.rook_castled(m, stm);
    let taken = if m.flag == MoveFlag::EnPassant {
        lemma_clear_wf(castled, 8 * rank_of(m.from.idx()) + file_of(m.to.idx()));
        castled.clear(8 * rank_of(m.from.idx()) + file_of(m.to.idx()))
    } else {
        castled
    };
    let promoted = if m.promotes() {
        lemma_put_wf(taken, m.to.idx(), Piece::of(m.flag.promoted_kind(), stm));
        taken.put(m.to.idx(), Piece::of(m.flag.promoted_kind(), stm))
    } else {
        taken
    };
    lemma_clear_wf(promoted, m.from.idx());
}

/// The game state: where each piece stands, whose turn it is, castling rights,
/// the en-passant square and the two move clocks.
#[derive(Copy, Clone, Debug, PartialEq, Eq)]
pub struct Board {
    pub pieces: [BB; 12],
    pub en_passant: Option<Square>,
    pub halfmove_clock: u32,
    pub fullmove_number: u32,
    pub stm: Side,
    pub white_king_castle: bool,
    pub white_queen_castle: bool,
    pub black_king_castle: bool,
    pub black_queen_castle: bool,
}

impl View for Board {
    type V = Position;

    open spec fn view(&self) -> Position {
        Position {
            pieces: self.piece_sets(),
            en_passant: self.en_passant,
            halfmove_clock: self.halfmove_clock,
            fullmove_number: self.fullmove_number,
            stm: self.stm,
            white_king_castle: self.white_king_castle,
            white_queen_castle: self.white_queen_castle,
            black_king_castle: self.black_king_castle,
            black_queen_castle: self.black_queen_castle,
        }
    }
}

impl Board {
    /// The squares of each piece, by piece number.
    pub open spec fn piece_sets(&self) -> Seq<Set<int>> {
        self.pieces@.map_values(|b: BB| b@)
    }

    /// The board with no pieces, White to move, all castling rights set, no
    /// en-passant square and the clocks at 0 and 1.
    pub fn new() -> (r: Board)
        ensures
            r@.wf(),
            forall|k: int| 0 <= k < 12 ==> r@.pieces[k] == Set::<int>::empty(),
            r.en_passant is None,
            r.halfmove_clock == 0,
            r.fullmove_number == 1,
            r.stm == Side::White,
            r.white_king_castle && r.white_queen_castle,
            r.black_king_castle && r.black_queen_castle,
    {
        let r = Board {
            pieces: [BB(0); 12],
            en_passant: None,
            halfmove_clock: 0,
            fullmove_number: 1,
            stm: Side::White,
            white_king_castle: true,
            white_queen_castle: true,
            black_king_castle: true,
            black_queen_castle: true,
        };
        proof {
            lemma_view_zero();
            assert(r@.pieces.len() == 12);
        }
        r
    }

    /// Whether no square holds two pieces.
    pub fn well_formed(&self) -> (r: bool)
        ensures
            r == self@.wf(),
    {
        let mut k: usize = 0;
        while k < 12
            invariant
                k <= 12,
                self@.pieces.len() == 12,
                forall|a: int, b: int|
                    0 <= a < k && 0 <= b < 12 && a != b ==> #[trigger] self@.pieces[a].disjoint(
                        #[trigger] self@.pieces[b],
                    ),
            decreases 12 - k,
        {
            let mut l: usize = 0;
            while l < 12
                invariant
                    k < 12,
                    l <= 12,
                    self@.pieces.len() == 12,
                    forall|a: int, b: int|
                        0 <= a < k && 0 <= b < 12 && a != b ==> #[trigger] self@.pieces[a].disjoint(
                            #[trigger] self@.pieces[b],
                        ),
                    forall|b: int|
                        0 <= b < l && b != k ==> #[trigger] self@.pieces[k as int].disjoint(
                            self@.pieces[b],
                        ),
                decreases 12 - l,
            {
                if l != k && !self.pieces[k].intersect(self.pieces[l]).is_empty() {
                    proof {
                        let (a, b) = (self@.pieces[k as int], self@.pieces[l as int]);
                        if a.disjoint(b) {
                            assert(a.intersect(b) =~= Set::<int>::empty());
                        }
                    }
                    return false;
                }
                proof {
                    if l != k {
                        let (a, b) = (self@.pieces[k as int], self@.pieces[l as int]);
                        assert forall|x: int| !(a.contains(x) && b.contains(x)) by {
                            assert(!a.intersect(b).contains(x));
                        }
                    }
                }
                l = l + 1;
            }
            proof {
                assert forall|a: int, b: int|
                    0 <= a < k + 1 && 0 <= b < 12 && a != b implies #[trigger] self@.pieces[a].disjoint(
                    #[trigger] self@.pieces[b],
                ) by {
                    if a == k {
                        assert(self@.pieces[k as int].disjoint(self@.pieces[b]));
                    }
                }
            }
            k = k + 1;
        }
        true
    }

    /// Empties a square.
    pub fn clear_square(&mut self, square: Square)
        ensures
            final(self)@ == old(self)@.clear(square.idx()),
            old(self)@.wf() ==> final(self)@.wf(),
    {
        proof {
            if old(self)@.wf() {
                lemma_clear_wf(old(self)@, square.idx());
            }
        }
        let mask = square.to_bb().complement();
        let ghost start = self@;
        let ghost arr = self.pieces@;
        let mut i: usize = 0;
        while i < 12
            invariant
                i <= 12,
                mask@ == all_squares().difference(set![square.idx()]),
                arr.len() == 12,
                start == old(self)@,
                start.pieces == arr.map_values(|b: BB| b@),
                self.pieces@.len() == 12,
                forall|k: int| 0 <= k < i ==> (#[trigger] self.pieces@[k])@ == arr[k]@.remove(square.idx()),
                forall|k: int| i <= k < 12 ==> #[trigger] self.pieces@[k] == arr[k],
                self.en_passant == start.en_passant,
                self.halfmove_clock == start.halfmove_clock,
                self.fullmove_number == start.fullmove_number,
                self.stm == start.stm,
                self.white_king_castle == start.white_king_castle,
                self.white_queen_castle == start.white_queen_castle,
                self.black_king_castle == start.black_king_castle,
                self.black_queen_castle == start.black_queen_castle,
            decreases 12 - i,
        {
            let b = self.pieces[i].intersect(mask);
            self.pieces[i] = b;
            proof {
                assert(b@ =~= arr[i as int]@.remove(square.idx()));
            }
            i = i + 1;
        }
        proof {
            assert(self@.pieces =~= start.clear(square.idx()).pieces);
        }
    }

    /// Empties a square, then places `piece` on it.
    pub fn set_square(&mut self, square: Square, piece: Piece)
        ensures
            final(self)@ == old(self)@.put(square.idx(), piece),
            old(self)@.wf() ==> final(self)@.wf(),
    {
        proof {
            square.lemma_of_idx();
            if old(self)@.wf() {
                lemma_put_wf(old(self)@, square.idx(), piece);
            }
        }
        self.clear_square(square);
        let ghost mid = self.pieces@;
        let ghost cleared = self@;
        let k = piece.index();
        let b = self.pieces[k].union(square.to_bb());
        self.pieces[k] = b;
        proof {
            assert(mid.len() == 12);
            assert(self.pieces@ == mid.update(k as int, b));
            assert(b@ =~= cleared.pieces[k as int].insert(square.idx()));
            assert(self@.pieces =~= old(self)@.put(square.idx(), piece).pieces);
        }
    }

    /// The piece on a square, if any.
    pub fn get_square(&self, square: Square) -> (r: Option<Piece>)
        ensures
            r == self@.piece_at(square.idx()),
    {
        let mut k: usize = 0;
        while k < 12
            invariant
                k <= 12,
                self@.pieces.len() == 12,
                self@.piece_at(square.idx()) == self@.first_from(square.idx(), k as int),
            decreases 12 - k,
        {
            if self.pieces[k].contains(square) {
                return Some(Piece::from_index(k));
            }
            k = k + 1;
        }
        None
    }

    /// The squares that no piece occupies.
    pub fn empty_squares(&self) -> (r: BB)
        ensures
            r@ == all_squares().difference(self@.occupied()),
    {
        let r = BB::full().sym_diff(self.occupied_squares());
        proof {
            assert(r@ =~= all_squares().difference(self@.occupied()));
        }
        r
    }

    /// The squares that some piece occupies.
    pub fn occupied_squares(&self) -> (r: BB)
        ensures
            r@ == self@.occupied(),
    {
        let mut bb = BB::empty();
        let mut k: usize = 0;
        while k < 12
            invariant
                k <= 12,
                self@.pieces.len() == 12,
                bb@ == Set::new(
                    |i: int| exists|l: int| 0 <= l < k && #[trigger] self@.pieces[l].contains(i),
                ),
            decreases 12 - k,
        {
            bb = bb.union(self.pieces[k]);
            proof {
                let s = Set::new(
                    |i: int|
                        exists|l: int| 0 <= l < k + 1 && #[trigger] self@.pieces[l].contains(i),
                );
                assert forall|i: int| bb@.contains(i) == s.contains(i) by {
                    if self@.pieces[k as int].contains(i) {
                        assert(s.contains(i));
                    }
                }
                assert(bb@ =~= s);
            }
            k = k + 1;
        }
        proof {
            assert(bb@ =~= self@.occupied());
        }
        bb
    }

    /// The squares of one piece.
    pub fn get_piece_bb(&self, piece: Piece) -> (r: BB)
        ensures
            r@ == self@.set(piece),
    {
        self.pieces[piece.index()]
    }

    /// The square of the king of side `s`: the least, where there are several.
    pub fn get_king(&self, s: Side) -> (r: Square)
        requires
            self@.set(Piece::of(PieceType::King, s)) != Set::<int>::empty(),
        ensures
            self@.set(Piece::of(PieceType::King, s)).contains(r.idx()),
            r.idx() == least(self@.set(Piece::of(PieceType::King, s))),
    {
        let r = self.get_piece_bb(Piece::from_type(PieceType::King, s)).lsb();
        proof {
            let ks = self@.set(Piece::of(PieceType::King, s));
            let l = least(ks);
            assert(ks.contains(r.idx()) && forall|j: int| ks.contains(j) ==> r.idx() <= j);
            assert(ks.contains(l) && forall|j: int| ks.contains(j) ==> l <= j);
        }
        r
    }

    /// The squares that the pieces of side `s` occupy.
    pub fn get_pieces(&self, s: Side) -> (r: BB)
        ensures
            r@ == self@.side_set(s),
    {
        let r = self.get_piece_bb(Piece::from_type(PieceType::Pawn, s)).union(
            self.get_piece_bb(Piece::from_type(PieceType::Knight, s)),
        ).union(self.get_piece_bb(Piece::from_type(PieceType::Bishop, s))).union(
            self.get_piece_bb(Piece::from_type(PieceType::Rook, s)),
        ).union(self.get_piece_bb(Piece::from_type(PieceType::Queen, s))).union(
            self.get_piece_bb(Piece::from_type(PieceType::King, s)),
        );
        proof {
            let b = 6 * s.idx();
            assert forall|i: int| r@.contains(i) == self@.side_set(s).contains(i) by {
                if self@.side_set(s).contains(i) {
                    let k = choose|k: int| b <= k < b + 6 && #[trigger] self@.pieces[k].contains(i);
                    assert(k == b || k == b + 1 || k == b + 2 || k == b + 3 || k == b + 4 || k
                        == b + 5);
                }
            }
            assert(r@ =~= self@.side_set(s));
        }
        r
    }

    /// Plays move `m`: see `Position::after` for its effects.
    pub fn make_move(&mut self, m: &Move)
        requires
            old(self)@.piece_at(m.from.idx()) is Some,
            old(self).halfmove_clock < u32::MAX,
            old(self).stm == Side::Black ==> old(self).fullmove_number < u32::MAX,
        ensures
            final(self)@ == old(self)@.after(*m),
            old(self)@.wf() ==> final(self)@.wf(),
    {
        let from_piece = self.get_square(m.from).unwrap();
        let stm = self.stm;
        self.move_pieces(m, from_piece, stm);
        if m.is_capture() || from_piece == Piece::from_type(PieceType::Pawn, stm) {
            self.halfmove_clock = 0;
        } else {
            self.halfmove_clock = self.halfmove_clock + 1;
        }
        // the en-passant square is set on every double push, whether or not a
        // capture there could follow
        if m.flag == MoveFlag::PawnDoubleMove {
            self.en_passant = Some(Square::from_index((m.to.index() + m.from.index()) / 2));
        } else {
            self.en_passant = None;
        }
        if stm == Side::Black {
            self.fullmove_number = self.fullmove_number + 1;
        }
        self.stm = stm.opposite();
        self.update_castle_rights(m);
        proof {
            if old(self)@.wf() {
                lemma_after_wf(old(self)@, *m);
            }
        }
    }

    /// Moves the pieces for move `m` of side `stm`, whose piece on `from` is
    /// `from_piece`.
    fn move_pieces(&mut self, m: &Move, from_piece: Piece, stm: Side)
        ensures
            final(self)@ == old(self)@.moved(*m, from_piece, stm),
            final(self)@.pieces == old(self)@.moved(*m, from_piece, stm).pieces,
            final(self).en_passant == old(self).en_passant,
            final(self).halfmove_clock == old(self).halfmove_clock,
            final(self).fullmove_number == old(self).fullmove_number,
            final(self).stm == old(self).stm,
            final(self).white_king_castle == old(self).white_king_castle,
            final(self).white_queen_castle == old(self).white_queen_castle,
            final(self).black_king_castle == old(self).black_king_castle,
            final(self).black_queen_castle == old(self).black_queen_castle,
    {
        reveal(Position::moved);
        // the moving piece goes to `to`, except where a promotion places another
        if !m.is_promotion() {
            self.set_square(m.to, from_piece);
        }
        self.castle_rook(m, stm);
        // the captured pawn stands on the file of `to` and the rank of `from`
        if m.flag == MoveFlag::EnPassant {
            self.clear_square(Square::from_coord(m.to.file(), m.from.rank()));
        }
        if m.is_promotion() {
            self.set_square(m.to, Piece::from_type(m.flag.promoted_type(), stm));
        }
        self.clear_square(m.from);
    }

    /// Moves the rook of a castle by side `stm`; other moves leave the board as it is.
    fn castle_rook(&mut self, m: &Move, stm: Side)
        ensures
            final(self)@ == old(self)@.rook_castled(*m, stm),
    {
        if m.flag == MoveFlag::KingCastle && stm == Side::White {
            self.set_square(Square::F1, Piece::WhiteRook);
            self.clear_square(Square::H1);
        } else if m.flag == MoveFlag::QueenCastle && stm == Side::White {
            self.set_square(Square::D1, Piece::WhiteRook);
            self.clear_square(Square::A1);
        } else if m.flag == MoveFlag::KingCastle && stm == Side::Black {
            self.set_square(Square::F8, Piece::BlackRook);
            self.clear_square(Square::H8);
        } else if m.flag == MoveFlag::QueenCastle && stm == Side::Black {
            self.set_square(Square::D8, Piece::BlackRook);
            self.clear_square(Square::A8);
        }
    }

    /// Voids the castling rights that move `m` ends.
    fn update_castle_rights(&mut self, m: &Move)
        ensures
            final(self)@ == old(self)@.rights_after(*m),
    {
        if m.from == Square::E1 {
            self.white_king_castle = false;
            self.white_queen_castle = false;
        }
        if m.from == Square::E8 {
            self.black_king_castle = false;
            self.black_queen_castle = false;
        }
        if m.from == Square::A1 || m.to == Square::A1 {
            self.white_queen_castle = false;
        }
        if m.from == Square::A8 || m.to == Square::A8 {
            self.black_queen_castle = false;
        }
        if m.from == Square::H1 || m.to == Square::H1 {
            self.white_king_castle = false;
        }
        if m.from == Square::H8 || m.to == Square::H8 {
            self.black_king_castle = false;
        }
        proof {
            m.from.lemma_of_idx();
            m.to.lemma_of_idx();
        }
    }
}

} // verus!
