use crate::definitions::{file_of, rank_of, PieceType, Square};
use crate::text::push_char;
use vstd::prelude::*;

verus! {

/// What kind of move a move is. Its four-bit code has the promotion flag in bit 3 and
/// the capture flag in bit 2; the low two bits tell the rest apart.
#[derive(Copy, Clone, Debug, PartialEq, Eq, Structural)]
pub enum MoveFlag {
    Quiet,
    PawnDoubleMove,
    KingCastle,
    QueenCastle,
    Capture,
    EnPassant,
    KnightPromotion,
    BishopPromotion,
    RookPromotion,
    QueenPromotion,
    KnightPromotionCapture,
    BishopPromotionCapture,
    RookPromotionCapture,
    QueenPromotionCapture,
}

impl MoveFlag {
    /// The four-bit code of the flag.
    pub open spec fn code(self) -> int {
        match self {
            MoveFlag::Quiet => 0,
            MoveFlag::PawnDoubleMove => 1,
            MoveFlag::KingCastle => 2,
            MoveFlag::QueenCastle => 3,
            MoveFlag::Capture => 4,
            MoveFlag::EnPassant => 5,
            MoveFlag::KnightPromotion => 8,
            MoveFlag::BishopPromotion => 9,
            MoveFlag::RookPromotion => 10,
            MoveFlag::QueenPromotion => 11,
            MoveFlag::KnightPromotionCapture => 12,
            MoveFlag::BishopPromotionCapture => 13,
            MoveFlag::RookPromotionCapture => 14,
            MoveFlag::QueenPromotionCapture => 15,
        }
    }

    /// The kind that a promotion with this flag turns the pawn into.
    pub open spec fn promoted_kind(self) -> PieceType {
        if self.code() % 4 == 0 {
            PieceType::Knight
        } else if self.code() % 4 == 1 {
            PieceType::Bishop
        } else if self.code() % 4 == 2 {
            PieceType::Rook
        } else {
            PieceType::Queen
        }
    }

    pub fn promoted_type(self) -> (r: PieceType)
        ensures
            r == self.promoted_kind(),
    {
        match self {
            MoveFlag::KnightPromotion | MoveFlag::KnightPromotionCapture | MoveFlag::Quiet
            | MoveFlag::Capture => PieceType::Knight,
            MoveFlag::BishopPromotion | MoveFlag::BishopPromotionCapture
            | MoveFlag::PawnDoubleMove | MoveFlag::EnPassant => PieceType::Bishop,
            MoveFlag::RookPromotion | MoveFlag::RookPromotionCapture | MoveFlag::KingCastle => {
                PieceType::Rook
            },
            _ => PieceType::Queen,
        }
    }
}

/// A move: the square it starts from, the square it goes to, and its flag.
#[derive(Copy, Clone, Debug, PartialEq, Eq, Structural)]
pub struct Move {
    pub from: Square,
    pub to: Square,
    pub flag: MoveFlag,
}

impl Move {
    /// Bit 3 of the flag is set.
    pub open spec fn promotes(self) -> bool {
        self.flag.code() >= 8
    }

    /// Bit 2 of the flag is set.
    pub open spec fn captures(self) -> bool {
        (self.flag.code() / 4) % 2 == 1
    }

    /// The flag is one of the two castles.
    pub open spec fn castles(self) -> bool {
        self.flag == MoveFlag::KingCastle || self.flag == MoveFlag::QueenCastle
    }

    pub fn is_promotion(&self) -> (r: bool)
        ensures
            r == self.promotes(),
    {
        match self.flag {
            MoveFlag::KnightPromotion | MoveFlag::BishopPromotion | MoveFlag::RookPromotion
            | MoveFlag::QueenPromotion | MoveFlag::KnightPromotionCapture
            | MoveFlag::BishopPromotionCapture | MoveFlag::RookPromotionCapture
            | MoveFlag::QueenPromotionCapture => true,
            _ => false,
        }
    }

    pub fn is_capture(&self) -> (r: bool)
        ensures
            r == self.captures(),
    {
        match self.flag {
            MoveFlag::Capture | MoveFlag::EnPassant | MoveFlag::KnightPromotionCapture
            | MoveFlag::BishopPromotionCapture | MoveFlag::RookPromotionCapture
            | MoveFlag::QueenPromotionCapture => true,
            _ => false,
        }
    }

    pub fn is_castle(&self) -> (r: bool)
        ensures
            r == self.castles(),
    {
        match self.flag {
            MoveFlag::KingCastle | MoveFlag::QueenCastle => true,
            _ => false,
        }
    }

    /// The move in text: the two squares in algebraic form, such as `e2e4`.
    pub fn to_string(&self) -> (r: String)
        ensures
            r@ == square_name(self.from.idx()) + square_name(self.to.idx()),
    {
        let mut s = square_to_string(self.from);
        let t = square_to_string(self.to);
        s.append(t.as_str());
        proof {
            assert(s@ =~= square_name(self.from.idx()) + square_name(self.to.idx()));
        }
        s
    }
}

/// The name of a square in algebraic form: its file letter, then its rank digit.
pub open spec fn square_name(i: int) -> Seq<char> {
    seq![(('a' as int) + file_of(i)) as char, (('1' as int) + rank_of(i)) as char]
}

/// The name of a square in algebraic form, such as `e3`.
pub fn square_to_string(sq: Square) -> (r: String)
    ensures
        r@ == square_name(sq.idx()),
{
    let i = sq.index();
    let f = ((i % 8) as u8 + 97u8) as char;
    let k = ((i / 8) as u8 + 49u8) as char;
    let mut s = String::new();
    push_char(&mut s, f);
    push_char(&mut s, k);
    proof {
        assert(s@ =~= square_name(sq.idx()));
    }
    s
}

} // verus!
