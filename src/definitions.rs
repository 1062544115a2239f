use crate::text::{decimal, push_decimal};
use vstd::prelude::*;
use vstd::std_specs::bits::{axiom_u64_trailing_zeros, u64_trailing_zeros};

verus! {

/// One of the two players.
#[derive(Copy, Clone, Debug, PartialEq, Eq, Structural)]
pub enum Side {
    White,
    Black,
}

impl Side {
    /// The number of the side: 0 for White, 1 for Black.
    pub open spec fn idx(self) -> int {
        match self {
            Side::White => 0,
            Side::Black => 1,
        }
    }

    /// The other side.
    pub open spec fn flip(self) -> Side {
        match self {
            Side::White => Side::Black,
            Side::Black => Side::White,
        }
    }

    pub fn opposite(self) -> (r: Side)
        ensures
            r == self.flip(),
    {
        match self {
            Side::White => Side::Black,
            Side::Black => Side::White,
        }
    }

    pub fn index(&self) -> (r: usize)
        ensures
            r as int == self.idx(),
    {
        match self {
            Side::White => 0,
            Side::Black => 1,
        }
    }
}

impl core::ops::Not for Side {
    type Output = Side;

    fn not(self) -> Side {
        self.opposite()
    }
}

impl vstd::std_specs::ops::NotSpecImpl for Side {
    open spec fn obeys_not_spec() -> bool {
        true
    }

    open spec fn not_req(self) -> bool {
        true
    }

    open spec fn not_spec(self) -> Side {
        self.flip()
    }
}

/// The kind of a piece, whatever its side.
#[derive(Copy, Clone, Debug, PartialEq, Eq, Structural)]
pub enum PieceType {
    Pawn,
    Knight,
    Bishop,
    Rook,
    Queen,
    King,
}

impl PieceType {
    /// The number of the kind, 0 for a pawn up to 5 for a king.
    pub open spec fn idx(self) -> int {
        match self {
            PieceType::Pawn => 0,
            PieceType::Knight => 1,
            PieceType::Bishop => 2,
            PieceType::Rook => 3,
            PieceType::Queen => 4,
            PieceType::King => 5,
        }
    }
}

/// A piece of one side: the pair of a side and a kind.
#[derive(Copy, Clone, Debug, PartialEq, Eq, Structural)]
pub enum Piece {
    WhitePawn,
    WhiteKnight,
    WhiteBishop,
    WhiteRook,
    WhiteQueen,
    WhiteKing,
    BlackPawn,
    BlackKnight,
    BlackBishop,
    BlackRook,
    BlackQueen,
    BlackKing,
}

impl Piece {
    /// The number of the piece: 6 * side + kind.
    pub open spec fn idx(self) -> int {
        match self {
            Piece::WhitePawn => 0,
            Piece::WhiteKnight => 1,
            Piece::WhiteBishop => 2,
            Piece::WhiteRook => 3,
            Piece::WhiteQueen => 4,
            Piece::WhiteKing => 5,
            Piece::BlackPawn => 6,
            Piece::BlackKnight => 7,
            Piece::BlackBishop => 8,
            Piece::BlackRook => 9,
            Piece::BlackQueen => 10,
            Piece::BlackKing => 11,
        }
    }

    /// The value whose number is `x`.
    pub fn from_index(x: usize) -> (r: Piece)
        requires
            x < 12,
        ensures
            r.idx() == x,
    {
        match x {
            0 => Piece::WhitePawn,
            1 => Piece::WhiteKnight,
            2 => Piece::WhiteBishop,
            3 => Piece::WhiteRook,
            4 => Piece::WhiteQueen,
            5 => Piece::WhiteKing,
            6 => Piece::BlackPawn,
            7 => Piece::BlackKnight,
            8 => Piece::BlackBishop,
            9 => Piece::BlackRook,
            10 => Piece::BlackQueen,
            _ => Piece::BlackKing,
        }
    }

    /// The number of this value, as an index.
    pub fn index(&self) -> (r: usize)
        ensures
            r as int == self.idx(),
            r < 12,
    {
        match self {
            Piece::WhitePawn => 0,
            Piece::WhiteKnight => 1,
            Piece::WhiteBishop => 2,
            Piece::WhiteRook => 3,
            Piece::WhiteQueen => 4,
            Piece::WhiteKing => 5,
            Piece::BlackPawn => 6,
            Piece::BlackKnight => 7,
            Piece::BlackBishop => 8,
            Piece::BlackRook => 9,
            Piece::BlackQueen => 10,
            Piece::BlackKing => 11,
        }
    }

}
impl Piece {
    /// The side that owns the piece.
    pub open spec fn side(self) -> Side {
        if self.idx() < 6 {
            Side::White
        } else {
            Side::Black
        }
    }

    /// The kind of the piece, as its number.
    pub open spec fn kind(self) -> int {
        self.idx() % 6
    }

    /// The piece of the given kind and side.
    pub open spec fn of(t: PieceType, s: Side) -> Piece {
        match (t, s) {
            (PieceType::Pawn, Side::White) => Piece::WhitePawn,
            (PieceType::Knight, Side::White) => Piece::WhiteKnight,
            (PieceType::Bishop, Side::White) => Piece::WhiteBishop,
            (PieceType::Rook, Side::White) => Piece::WhiteRook,
            (PieceType::Queen, Side::White) => Piece::WhiteQueen,
            (PieceType::King, Side::White) => Piece::WhiteKing,
            (PieceType::Pawn, Side::Black) => Piece::BlackPawn,
            (PieceType::Knight, Side::Black) => Piece::BlackKnight,
            (PieceType::Bishop, Side::Black) => Piece::BlackBishop,
            (PieceType::Rook, Side::Black) => Piece::BlackRook,
            (PieceType::Queen, Side::Black) => Piece::BlackQueen,
            (PieceType::King, Side::Black) => Piece::BlackKing,
        }
    }

    pub fn from_type(t: PieceType, s: Side) -> (r: Piece)
        ensures
            r == Piece::of(t, s),
            r.idx() == 6 * s.idx() + t.idx(),
            r.side() == s,
            r.kind() == t.idx(),
    {
        match (t, s) {
            (PieceType::Pawn, Side::White) => Piece::WhitePawn,
            (PieceType::Knight, Side::White) => Piece::WhiteKnight,
            (PieceType::Bishop, Side::White) => Piece::WhiteBishop,
            (PieceType::Rook, Side::White) => Piece::WhiteRook,
            (PieceType::Queen, Side::White) => Piece::WhiteQueen,
            (PieceType::King, Side::White) => Piece::WhiteKing,
            (PieceType::Pawn, Side::Black) => Piece::BlackPawn,
            (PieceType::Knight, Side::Black) => Piece::BlackKnight,
            (PieceType::Bishop, Side::Black) => Piece::BlackBishop,
            (PieceType::Rook, Side::Black) => Piece::BlackRook,
            (PieceType::Queen, Side::Black) => Piece::BlackQueen,
            (PieceType::King, Side::Black) => Piece::BlackKing,
        }
    }

    pub proof fn lemma_idx(self)
        ensures
            0 <= self.idx() < 12,
            Piece::of_idx(self.idx()) == self,
    {
    }

    /// The piece whose number is `i`.
    pub open spec fn of_idx(i: int) -> Piece {
        if i == 0 {
            Piece::WhitePawn
        } else if i == 1 {
            Piece::WhiteKnight
        } else if i == 2 {
            Piece::WhiteBishop
        } else if i == 3 {
            Piece::WhiteRook
        } else if i == 4 {
            Piece::WhiteQueen
        } else if i == 5 {
            Piece::WhiteKing
        } else if i == 6 {
            Piece::BlackPawn
        } else if i == 7 {
            Piece::BlackKnight
        } else if i == 8 {
            Piece::BlackBishop
        } else if i == 9 {
            Piece::BlackRook
        } else if i == 10 {
            Piece::BlackQueen
        } else {
            Piece::BlackKing
        }
    }
}

/// A square of the board, from a1 to h8.
#[derive(Copy, Clone, Debug, PartialEq, Eq, Structural)]
pub enum Square {
    A1, B1, C1, D1, E1, F1, G1, H1,
    A2, B2, C2, D2, E2, F2, G2, H2,
    A3, B3, C3, D3, E3, F3, G3, H3,
    A4, B4, C4, D4, E4, F4, G4, H4,
    A5, B5, C5, D5, E5, F5, G5, H5,
    A6, B6, C6, D6, E6, F6, G6, H6,
    A7, B7, C7, D7, E7, F7, G7, H7,
    A8, B8, C8, D8, E8, F8, G8, H8,
}

impl Square {
    /// The number of the square: 8 * rank + file, 0 for a1 up to 63 for h8.
    pub open spec fn idx(self) -> int {
        match self {
            Square::A1 => 0,
            Square::B1 => 1,
            Square::C1 => 2,
            Square::D1 => 3,
            Square::E1 => 4,
            Square::F1 => 5,
            Square::G1 => 6,
            Square::H1 => 7,
            Square::A2 => 8,
            Square::B2 => 9,
            Square::C2 => 10,
            Square::D2 => 11,
            Square::E2 => 12,
            Square::F2 => 13,
            Square::G2 => 14,
            Square::H2 => 15,
            Square::A3 => 16,
            Square::B3 => 17,
            Square::C3 => 18,
            Square::D3 => 19,
            Square::E3 => 20,
            Square::F3 => 21,
            Square::G3 => 22,
            Square::H3 => 23,
            Square::A4 => 24,
            Square::B4 => 25,
            Square::C4 => 26,
            Square::D4 => 27,
            Square::E4 => 28,
            Square::F4 => 29,
            Square::G4 => 30,
            Square::H4 => 31,
            Square::A5 => 32,
            Square::B5 => 33,
            Square::C5 => 34,
            Square::D5 => 35,
            Square::E5 => 36,
            Square::F5 => 37,
            Square::G5 => 38,
            Square::H5 => 39,
            Square::A6 => 40,
            Square::B6 => 41,
            Square::C6 => 42,
            Square::D6 => 43,
            Square::E6 => 44,
            Square::F6 => 45,
            Square::G6 => 46,
            Square::H6 => 47,
            Square::A7 => 48,
            Square::B7 => 49,
            Square::C7 => 50,
            Square::D7 => 51,
            Square::E7 => 52,
            Square::F7 => 53,
            Square::G7 => 54,
            Square::H7 => 55,
            Square::A8 => 56,
            Square::B8 => 57,
            Square::C8 => 58,
            Square::D8 => 59,
            Square::E8 => 60,
            Square::F8 => 61,
            Square::G8 => 62,
            Square::H8 => 63,
        }
    }

    /// The value whose number is `x`.
    pub fn from_index(x: usize) -> (r: Square)
        requires
            x < 64,
        ensures
            r.idx() == x,
            r == Square::of(x as int),
    {
        match x {
            0 => Square::A1,
            1 => Square::B1,
            2 => Square::C1,
            3 => Square::D1,
            4 => Square::E1,
            5 => Square::F1,
            6 => Square::G1,
            7 => Square::H1,
            8 => Square::A2,
            9 => Square::B2,
            10 => Square::C2,
            11 => Square::D2,
            12 => Square::E2,
            13 => Square::F2,
            14 => Square::G2,
            15 => Square::H2,
            16 => Square::A3,
            17 => Square::B3,
            18 => Square::C3,
            19 => Square::D3,
            20 => Square::E3,
            21 => Square::F3,
            22 => Square::G3,
            23 => Square::H3,
            24 => Square::A4,
            25 => Square::B4,
            26 => Square::C4,
            27 => Square::D4,
            28 => Square::E4,
            29 => Square::F4,
            30 => Square::G4,
            31 => Square::H4,
            32 => Square::A5,
            33 => Square::B5,
            34 => Square::C5,
            35 => Square::D5,
            36 => Square::E5,
            37 => Square::F5,
            38 => Square::G5,
            39 => Square::H5,
            40 => Square::A6,
            41 => Square::B6,
            42 => Square::C6,
            43 => Square::D6,
            44 => Square::E6,
            45 => Square::F6,
            46 => Square::G6,
            47 => Square::H6,
            48 => Square::A7,
            49 => Square::B7,
            50 => Square::C7,
            51 => Square::D7,
            52 => Square::E7,
            53 => Square::F7,
            54 => Square::G7,
            55 => Square::H7,
            56 => Square::A8,
            57 => Square::B8,
            58 => Square::C8,
            59 => Square::D8,
            60 => Square::E8,
            61 => Square::F8,
            62 => Square::G8,
            _ => Square::H8,
        }
    }

    /// The number of this value, as an index.
    pub fn index(&self) -> (r: usize)
        ensures
            r as int == self.idx(),
            r < 64,
    {
        match self {
            Square::A1 => 0,
            Square::B1 => 1,
            Square::C1 => 2,
            Square::D1 => 3,
            Square::E1 => 4,
            Square::F1 => 5,
            Square::G1 => 6,
            Square::H1 => 7,
            Square::A2 => 8,
            Square::B2 => 9,
            Square::C2 => 10,
            Square::D2 => 11,
            Square::E2 => 12,
            Square::F2 => 13,
            Square::G2 => 14,
            Square::H2 => 15,
            Square::A3 => 16,
            Square::B3 => 17,
            Square::C3 => 18,
            Square::D3 => 19,
            Square::E3 => 20,
            Square::F3 => 21,
            Square::G3 => 22,
            Square::H3 => 23,
            Square::A4 => 24,
            Square::B4 => 25,
            Square::C4 => 26,
            Square::D4 => 27,
            Square::E4 => 28,
            Square::F4 => 29,
            Square::G4 => 30,
            Square::H4 => 31,
            Square::A5 => 32,
            Square::B5 => 33,
            Square::C5 => 34,
            Square::D5 => 35,
            Square::E5 => 36,
            Square::F5 => 37,
            Square::G5 => 38,
            Square::H5 => 39,
            Square::A6 => 40,
            Square::B6 => 41,
            Square::C6 => 42,
            Square::D6 => 43,
            Square::E6 => 44,
            Square::F6 => 45,
            Square::G6 => 46,
            Square::H6 => 47,
            Square::A7 => 48,
            Square::B7 => 49,
            Square::C7 => 50,
            Square::D7 => 51,
            Square::E7 => 52,
            Square::F7 => 53,
            Square::G7 => 54,
            Square::H7 => 55,
            Square::A8 => 56,
            Square::B8 => 57,
            Square::C8 => 58,
            Square::D8 => 59,
            Square::E8 => 60,
            Square::F8 => 61,
            Square::G8 => 62,
            Square::H8 => 63,
        }
    }

    /// The square whose number is `i`.
    pub open spec fn of(i: int) -> Square {
        if i == 0 {
            Square::A1
        } else if i == 1 {
            Square::B1
        } else if i == 2 {
            Square::C1
        } else if i == 3 {
            Square::D1
        } else if i == 4 {
            Square::E1
        } else if i == 5 {
            Square::F1
        } else if i == 6 {
            Square::G1
        } else if i == 7 {
            Square::H1
        } else if i == 8 {
            Square::A2
        } else if i == 9 {
            Square::B2
        } else if i == 10 {
            Square::C2
        } else if i == 11 {
            Square::D2
        } else if i == 12 {
            Square::E2
        } else if i == 13 {
            Square::F2
        } else if i == 14 {
            Square::G2
        } else if i == 15 {
            Square::H2
        } else if i == 16 {
            Square::A3
        } else if i == 17 {
            Square::B3
        } else if i == 18 {
            Square::C3
        } else if i == 19 {
            Square::D3
        } else if i == 20 {
            Square::E3
        } else if i == 21 {
            Square::F3
        } else if i == 22 {
            Square::G3
        } else if i == 23 {
            Square::H3
        } else if i == 24 {
            Square::A4
        } else if i == 25 {
            Square::B4
        } else if i == 26 {
            Square::C4
        } else if i == 27 {
            Square::D4
        } else if i == 28 {
            Square::E4
        } else if i == 29 {
            Square::F4
        } else if i == 30 {
            Square::G4
        } else if i == 31 {
            Square::H4
        } else if i == 32 {
            Square::A5
        } else if i == 33 {
            Square::B5
        } else if i == 34 {
            Square::C5
        } else if i == 35 {
            Square::D5
        } else if i == 36 {
            Square::E5
        } else if i == 37 {
            Square::F5
        } else if i == 38 {
            Square::G5
        } else if i == 39 {
            Square::H5
        } else if i == 40 {
            Square::A6
        } else if i == 41 {
            Square::B6
        } else if i == 42 {
            Square::C6
        } else if i == 43 {
            Square::D6
        } else if i == 44 {
            Square::E6
        } else if i == 45 {
            Square::F6
        } else if i == 46 {
            Square::G6
        } else if i == 47 {
            Square::H6
        } else if i == 48 {
            Square::A7
        } else if i == 49 {
            Square::B7
        } else if i == 50 {
            Square::C7
        } else if i == 51 {
            Square::D7
        } else if i == 52 {
            Square::E7
        } else if i == 53 {
            Square::F7
        } else if i == 54 {
            Square::G7
        } else if i == 55 {
            Square::H7
        } else if i == 56 {
            Square::A8
        } else if i == 57 {
            Square::B8
        } else if i == 58 {
            Square::C8
        } else if i == 59 {
            Square::D8
        } else if i == 60 {
            Square::E8
        } else if i == 61 {
            Square::F8
        } else if i == 62 {
            Square::G8
        } else {
            Square::H8
        }
    }

    pub proof fn lemma_of_idx(self)
        ensures
            Square::of(self.idx()) == self,
            0 <= self.idx() < 64,
    {
    }
}
impl Square {
    /// Returns the file of the square.
    pub fn file(&self) -> (r: File)
        ensures
            r.idx() == file_of(self.idx()),
    {
        File::from_index(self.index() % 8)
    }

    /// Returns the rank of the square.
    pub fn rank(&self) -> (r: Rank)
        ensures
            r.idx() == rank_of(self.idx()),
    {
        Rank::from_index(self.index() / 8)
    }

    /// Returns the diagonal of the square.
    pub fn diagonal(&self) -> (r: Diagonal)
        ensures
            r.idx() == 7 + file_of(self.idx()) - rank_of(self.idx()),
    {
        let i = self.index();
        Diagonal::from_index(7 + i % 8 - i / 8)
    }

    /// Returns the anti-diagonal of the square.
    pub fn antidiagonal(&self) -> (r: AntiDiagonal)
        ensures
            r.idx() == 14 - file_of(self.idx()) - rank_of(self.idx()),
    {
        let i = self.index();
        AntiDiagonal::from_index(14 - i % 8 - i / 8)
    }

    /// The square on the given file and rank.
    pub fn from_coord(file: File, rank: Rank) -> (r: Square)
        ensures
            r.idx() == 8 * rank.idx() + file.idx(),
    {
        Square::from_index(rank.index() * 8 + file.index())
    }

    /// The bitboard that holds this square alone.
    pub fn to_bb(&self) -> (r: BB)
        ensures
            r@ == set![self.idx()],
    {
        let i = self.index() as u64;
        proof {
            lemma_view_single(i);
        }
        BB(1u64 << i)
    }

    /// The square with the given number, or an error where there is none.
    pub fn safe_from_index(x: usize) -> (r: Result<Square, String>)
        ensures
            x < 64 <==> r is Ok,
            r is Ok ==> r->Ok_0.idx() == x,
            r is Err ==> r->Err_0@ == "Invalid square "@ + decimal(x as nat),
    {
        if x < 64 {
            Ok(Square::from_index(x))
        } else {
            let mut s = String::from_str("Invalid square ");
            push_decimal(&mut s, x as u64);
            Err(s)
        }
    }
}

/// A rank (row) of the board.
#[derive(Copy, Clone, Debug, PartialEq, Eq, Structural)]
pub enum Rank {
    One,
    Two,
    Three,
    Four,
    Five,
    Six,
    Seven,
    Eight,
}

impl Rank {
    /// The number of the rank, 0 for the first.
    pub open spec fn idx(self) -> int {
        match self {
            Rank::One => 0,
            Rank::Two => 1,
            Rank::Three => 2,
            Rank::Four => 3,
            Rank::Five => 4,
            Rank::Six => 5,
            Rank::Seven => 6,
            Rank::Eight => 7,
        }
    }

    /// The value whose number is `x`.
    pub fn from_index(x: usize) -> (r: Rank)
        requires
            x < 8,
        ensures
            r.idx() == x,
    {
        match x {
            0 => Rank::One,
            1 => Rank::Two,
            2 => Rank::Three,
            3 => Rank::Four,
            4 => Rank::Five,
            5 => Rank::Six,
            6 => Rank::Seven,
            _ => Rank::Eight,
        }
    }

    /// The number of this value, as an index.
    pub fn index(&self) -> (r: usize)
        ensures
            r as int == self.idx(),
            r < 8,
    {
        match self {
            Rank::One => 0,
            Rank::Two => 1,
            Rank::Three => 2,
            Rank::Four => 3,
            Rank::Five => 4,
            Rank::Six => 5,
            Rank::Seven => 6,
            Rank::Eight => 7,
        }
    }

}
/// A file (column) of the board.
#[derive(Copy, Clone, Debug, PartialEq, Eq, Structural)]
pub enum File {
    A,
    B,
    C,
    D,
    E,
    F,
    G,
    H,
}

impl File {
    /// The number of the file, 0 for file a.
    pub open spec fn idx(self) -> int {
        match self {
            File::A => 0,
            File::B => 1,
            File::C => 2,
            File::D => 3,
            File::E => 4,
            File::F => 5,
            File::G => 6,
            File::H => 7,
        }
    }

    /// The value whose number is `x`.
    pub fn from_index(x: usize) -> (r: File)
        requires
            x < 8,
        ensures
            r.idx() == x,
    {
        match x {
            0 => File::A,
            1 => File::B,
            2 => File::C,
            3 => File::D,
            4 => File::E,
            5 => File::F,
            6 => File::G,
            _ => File::H,
        }
    }

    /// The number of this value, as an index.
    pub fn index(&self) -> (r: usize)
        ensures
            r as int == self.idx(),
            r < 8,
    {
        match self {
            File::A => 0,
            File::B => 1,
            File::C => 2,
            File::D => 3,
            File::E => 4,
            File::F => 5,
            File::G => 6,
            File::H => 7,
        }
    }

}
/// A diagonal of the board, running from lower left to upper right, named by its two ends.
#[derive(Copy, Clone, Debug, PartialEq, Eq, Structural)]
pub enum Diagonal {
    A8A8,
    A7B8,
    A6C8,
    A5D8,
    A4E8,
    A3F8,
    A2G8,
    A1H8,
    B1H7,
    C1H6,
    D1H5,
    E1H4,
    F1H3,
    G1H2,
    H1H1,
}

impl Diagonal {
    /// The number of the diagonal: 7 + file - rank.
    pub open spec fn idx(self) -> int {
        match self {
            Diagonal::A8A8 => 0,
            Diagonal::A7B8 => 1,
            Diagonal::A6C8 => 2,
            Diagonal::A5D8 => 3,
            Diagonal::A4E8 => 4,
            Diagonal::A3F8 => 5,
            Diagonal::A2G8 => 6,
            Diagonal::A1H8 => 7,
            Diagonal::B1H7 => 8,
            Diagonal::C1H6 => 9,
            Diagonal::D1H5 => 10,
            Diagonal::E1H4 => 11,
            Diagonal::F1H3 => 12,
            Diagonal::G1H2 => 13,
            Diagonal::H1H1 => 14,
        }
    }

    /// The value whose number is `x`.
    pub fn from_index(x: usize) -> (r: Diagonal)
        requires
            x < 15,
        ensures
            r.idx() == x,
    {
        match x {
            0 => Diagonal::A8A8,
            1 => Diagonal::A7B8,
            2 => Diagonal::A6C8,
            3 => Diagonal::A5D8,
            4 => Diagonal::A4E8,
            5 => Diagonal::A3F8,
            6 => Diagonal::A2G8,
            7 => Diagonal::A1H8,
            8 => Diagonal::B1H7,
            9 => Diagonal::C1H6,
            10 => Diagonal::D1H5,
            11 => Diagonal::E1H4,
            12 => Diagonal::F1H3,
            13 => Diagonal::G1H2,
            _ => Diagonal::H1H1,
        }
    }

    /// The number of this value, as an index.
    pub fn index(&self) -> (r: usize)
        ensures
            r as int == self.idx(),
            r < 15,
    {
        match self {
            Diagonal::A8A8 => 0,
            Diagonal::A7B8 => 1,
            Diagonal::A6C8 => 2,
            Diagonal::A5D8 => 3,
            Diagonal::A4E8 => 4,
            Diagonal::A3F8 => 5,
            Diagonal::A2G8 => 6,
            Diagonal::A1H8 => 7,
            Diagonal::B1H7 => 8,
            Diagonal::C1H6 => 9,
            Diagonal::D1H5 => 10,
            Diagonal::E1H4 => 11,
            Diagonal::F1H3 => 12,
            Diagonal::G1H2 => 13,
            Diagonal::H1H1 => 14,
        }
    }

}
/// An anti-diagonal of the board, running from upper left to lower right, named by its two ends.
#[derive(Copy, Clone, Debug, PartialEq, Eq, Structural)]
pub enum AntiDiagonal {
    H8H8,
    G8H7,
    F8H6,
    E8H5,
    D8H4,
    C8H3,
    B8H2,
    A8H1,
    A7G1,
    A6F1,
    A5E1,
    A4D1,
    A3C1,
    A2B1,
    A1A1,
}

impl AntiDiagonal {
    /// The number of the anti-diagonal: 14 - file - rank.
    pub open spec fn idx(self) -> int {
        match self {
            AntiDiagonal::H8H8 => 0,
            AntiDiagonal::G8H7 => 1,
            AntiDiagonal::F8H6 => 2,
            AntiDiagonal::E8H5 => 3,
            AntiDiagonal::D8H4 => 4,
            AntiDiagonal::C8H3 => 5,
            AntiDiagonal::B8H2 => 6,
            AntiDiagonal::A8H1 => 7,
            AntiDiagonal::A7G1 => 8,
            AntiDiagonal::A6F1 => 9,
            AntiDiagonal::A5E1 => 10,
            AntiDiagonal::A4D1 => 11,
            AntiDiagonal::A3C1 => 12,
            AntiDiagonal::A2B1 => 13,
            AntiDiagonal::A1A1 => 14,
        }
    }

    /// The value whose number is `x`.
    pub fn from_index(x: usize) -> (r: AntiDiagonal)
        requires
            x < 15,
        ensures
            r.idx() == x,
    {
        match x {
            0 => AntiDiagonal::H8H8,
            1 => AntiDiagonal::G8H7,
            2 => AntiDiagonal::F8H6,
            3 => AntiDiagonal::E8H5,
            4 => AntiDiagonal::D8H4,
            5 => AntiDiagonal::C8H3,
            6 => AntiDiagonal::B8H2,
            7 => AntiDiagonal::A8H1,
            8 => AntiDiagonal::A7G1,
            9 => AntiDiagonal::A6F1,
            10 => AntiDiagonal::A5E1,
            11 => AntiDiagonal::A4D1,
            12 => AntiDiagonal::A3C1,
            13 => AntiDiagonal::A2B1,
            _ => AntiDiagonal::A1A1,
        }
    }

    /// The number of this value, as an index.
    pub fn index(&self) -> (r: usize)
        ensures
            r as int == self.idx(),
            r < 15,
    {
        match self {
            AntiDiagonal::H8H8 => 0,
            AntiDiagonal::G8H7 => 1,
            AntiDiagonal::F8H6 => 2,
            AntiDiagonal::E8H5 => 3,
            AntiDiagonal::D8H4 => 4,
            AntiDiagonal::C8H3 => 5,
            AntiDiagonal::B8H2 => 6,
            AntiDiagonal::A8H1 => 7,
            AntiDiagonal::A7G1 => 8,
            AntiDiagonal::A6F1 => 9,
            AntiDiagonal::A5E1 => 10,
            AntiDiagonal::A4D1 => 11,
            AntiDiagonal::A3C1 => 12,
            AntiDiagonal::A2B1 => 13,
            AntiDiagonal::A1A1 => 14,
        }
    }

}
/// The file (column) of square number `s`.
pub open spec fn file_of(s: int) -> int {
    s % 8
}

/// The rank (row) of square number `s`.
pub open spec fn rank_of(s: int) -> int {
    s / 8
}

/// Whether bit `i` of `x` is set.
pub open spec fn bit(x: u64, i: int) -> bool {
    0 <= i < 64 && (x >> (i as u64)) & 1u64 == 1u64
}

/// The numbers of all 64 squares.
pub open spec fn all_squares() -> Set<int> {
    Set::new(|i: int| 0 <= i < 64)
}

/// A set of squares held in 64 bits: bit `8 * rank + file` stands for that square.
#[derive(Copy, Clone, Debug, PartialEq, Eq, Structural)]
pub struct BB(pub u64);

impl View for BB {
    type V = Set<int>;

    open spec fn view(&self) -> Set<int> {
        Set::new(|i: int| bit(self.0, i))
    }
}


proof fn lemma_bits(a: u64, b: u64, i: u64)
    by (bit_vector)
    requires
        i < 64,
    ensures
        ((a & b) >> i) & 1u64 == 1u64 <==> ((a >> i) & 1u64 == 1u64 && (b >> i) & 1u64 == 1u64),
        ((a | b) >> i) & 1u64 == 1u64 <==> ((a >> i) & 1u64 == 1u64 || (b >> i) & 1u64 == 1u64),
        ((a ^ b) >> i) & 1u64 == 1u64 <==> ((a >> i) & 1u64 == 1u64) != ((b >> i) & 1u64
            == 1u64),
        ((!a) >> i) & 1u64 == 1u64 <==> !((a >> i) & 1u64 == 1u64),
        (0u64 >> i) & 1u64 != 1u64,
        (0xffff_ffff_ffff_ffffu64 >> i) & 1u64 == 1u64,
{
}

proof fn lemma_bit_shifts(a: u64, n: u64, i: u64)
    by (bit_vector)
    requires
        i < 64,
        n < 64,
    ensures
        ((a << n) >> i) & 1u64 == 1u64 <==> (n <= i && (a >> ((i - n) as u64)) & 1u64 == 1u64),
        ((a >> n) >> i) & 1u64 == 1u64 <==> (i + n < 64 && (a >> ((i + n) as u64)) & 1u64
            == 1u64),
        ((1u64 << n) >> i) & 1u64 == 1u64 <==> i == n,
{
}

proof fn lemma_clear_lowers(a: u64, n: u64)
    by (bit_vector)
    requires
        n < 64,
        (a >> n) & 1u64 == 1u64,
    ensures
        a & !(1u64 << n) < a,
{
}

pub proof fn lemma_view_and(a: u64, b: u64)
    ensures
        BB(a & b)@ == BB(a)@.intersect(BB(b)@),
{
    assert forall|i: int| BB(a & b)@.contains(i) == BB(a)@.intersect(BB(b)@).contains(i) by {
        if 0 <= i < 64 {
            lemma_bits(a, b, i as u64);
        }
    }
    assert(BB(a & b)@ =~= BB(a)@.intersect(BB(b)@));
}

pub proof fn lemma_view_or(a: u64, b: u64)
    ensures
        BB(a | b)@ == BB(a)@.union(BB(b)@),
{
    assert forall|i: int| BB(a | b)@.contains(i) == BB(a)@.union(BB(b)@).contains(i) by {
        if 0 <= i < 64 {
            lemma_bits(a, b, i as u64);
        }
    }
    assert(BB(a | b)@ =~= BB(a)@.union(BB(b)@));
}

pub proof fn lemma_view_xor(a: u64, b: u64)
    ensures
        BB(a ^ b)@ == BB(a)@.difference(BB(b)@).union(BB(b)@.difference(BB(a)@)),
{
    let s = BB(a)@.difference(BB(b)@).union(BB(b)@.difference(BB(a)@));
    assert forall|i: int| BB(a ^ b)@.contains(i) == s.contains(i) by {
        if 0 <= i < 64 {
            lemma_bits(a, b, i as u64);
        }
    }
    assert(BB(a ^ b)@ =~= s);
}

pub proof fn lemma_view_not(a: u64)
    ensures
        BB(!a)@ == all_squares().difference(BB(a)@),
{
    assert forall|i: int| BB(!a)@.contains(i) == all_squares().difference(BB(a)@).contains(i) by {
        if 0 <= i < 64 {
            lemma_bits(a, a, i as u64);
        }
    }
    assert(BB(!a)@ =~= all_squares().difference(BB(a)@));
}

pub proof fn lemma_view_zero()
    ensures
        BB(0)@ == Set::<int>::empty(),
        BB(0xffff_ffff_ffff_ffff)@ == all_squares(),
{
    assert forall|i: int| !BB(0)@.contains(i) by {
        if 0 <= i < 64 {
            lemma_bits(0, 0, i as u64);
        }
    }
    assert forall|i: int| BB(0xffff_ffff_ffff_ffff)@.contains(i) == all_squares().contains(i) by {
        if 0 <= i < 64 {
            lemma_bits(0, 0, i as u64);
        }
    }
    assert(BB(0)@ =~= Set::<int>::empty());
    assert(BB(0xffff_ffff_ffff_ffff)@ =~= all_squares());
}

pub proof fn lemma_view_single(n: u64)
    requires
        n < 64,
    ensures
        BB(1u64 << n)@ == set![n as int],
{
    assert forall|i: int| BB(1u64 << n)@.contains(i) == set![n as int].contains(i) by {
        if 0 <= i < 64 {
            lemma_bit_shifts(1, n, i as u64);
        }
    }
    assert(BB(1u64 << n)@ =~= set![n as int]);
}

pub proof fn lemma_view_shl(a: u64, n: u64)
    requires
        n < 64,
    ensures
        BB(a << n)@ == Set::new(|i: int| n <= i < 64 && BB(a)@.contains(i - n)),
{
    let s = Set::new(|i: int| n <= i < 64 && BB(a)@.contains(i - n));
    assert forall|i: int| BB(a << n)@.contains(i) == s.contains(i) by {
        if 0 <= i < 64 {
            lemma_bit_shifts(a, n, i as u64);
        }
    }
    assert(BB(a << n)@ =~= s);
}

pub proof fn lemma_view_shr(a: u64, n: u64)
    requires
        n < 64,
    ensures
        BB(a >> n)@ == Set::new(|i: int| 0 <= i && i + n < 64 && BB(a)@.contains(i + n)),
{
    let s = Set::new(|i: int| 0 <= i && i + n < 64 && BB(a)@.contains(i + n));
    assert forall|i: int| BB(a >> n)@.contains(i) == s.contains(i) by {
        if 0 <= i < 64 {
            lemma_bit_shifts(a, n, i as u64);
        }
    }
    assert(BB(a >> n)@ =~= s);
}

/// A value is zero exactly when it holds no square; otherwise its lowest set bit
/// is its least square.
pub proof fn lemma_view_lowest(a: u64)
    ensures
        a == 0 <==> BB(a)@ == Set::<int>::empty(),
        a != 0 ==> BB(a)@.contains(u64_trailing_zeros(a) as int),
        forall|i: int| BB(a)@.contains(i) ==> u64_trailing_zeros(a) <= i,
{
    axiom_u64_trailing_zeros(a);
    lemma_view_zero();
    if a != 0 {
        assert(BB(a)@.contains(u64_trailing_zeros(a) as int));
    }
    assert forall|i: int| BB(a)@.contains(i) implies u64_trailing_zeros(a) <= i by {
        if i < u64_trailing_zeros(a) {
            let j = i as u64;
            assert((a >> j) & 1u64 == 0u64);
        }
    }
}

impl BB {
    /// The empty set.
    pub fn empty() -> (r: BB)
        ensures
            r@ == Set::<int>::empty(),
    {
        proof {
            lemma_view_zero();
        }
        BB(0)
    }

    /// The set of all squares.
    pub fn full() -> (r: BB)
        ensures
            r@ == all_squares(),
    {
        proof {
            lemma_view_zero();
        }
        BB(0xffff_ffff_ffff_ffff)
    }

    /// The squares in both sets.
    pub fn intersect(self, o: BB) -> (r: BB)
        ensures
            r == BB(self.0 & o.0),
            r@ == self@.intersect(o@),
    {
        proof {
            lemma_view_and(self.0, o.0);
        }
        BB(self.0 & o.0)
    }

    /// The squares in either set.
    pub fn union(self, o: BB) -> (r: BB)
        ensures
            r == BB(self.0 | o.0),
            r@ == self@.union(o@),
    {
        proof {
            lemma_view_or(self.0, o.0);
        }
        BB(self.0 | o.0)
    }

    /// The squares in exactly one of the two sets.
    pub fn sym_diff(self, o: BB) -> (r: BB)
        ensures
            r == BB(self.0 ^ o.0),
            r@ == self@.difference(o@).union(o@.difference(self@)),
    {
        proof {
            lemma_view_xor(self.0, o.0);
        }
        BB(self.0 ^ o.0)
    }

    /// The squares not in the set.
    pub fn complement(self) -> (r: BB)
        ensures
            r == BB(!self.0),
            r@ == all_squares().difference(self@),
    {
        proof {
            lemma_view_not(self.0);
        }
        BB(!self.0)
    }

    /// Each square moved up by `n` numbers; those that would leave the board are dropped.
    pub fn shift_up(self, n: u64) -> (r: BB)
        requires
            n < 64,
        ensures
            r@ == Set::new(|i: int| n <= i < 64 && self@.contains(i - n)),
    {
        proof {
            lemma_view_shl(self.0, n);
        }
        BB(self.0 << n)
    }

    /// Each square moved down by `n` numbers; those that would leave the board are dropped.
    pub fn shift_down(self, n: u64) -> (r: BB)
        requires
            n < 64,
        ensures
            r@ == Set::new(|i: int| 0 <= i && i + n < 64 && self@.contains(i + n)),
    {
        proof {
            lemma_view_shr(self.0, n);
        }
        BB(self.0 >> n)
    }

    pub fn is_empty(self) -> (r: bool)
        ensures
            r == (self@ == Set::<int>::empty()),
    {
        proof {
            lemma_view_lowest(self.0);
        }
        self.0 == 0
    }

    pub fn contains(self, s: Square) -> (r: bool)
        ensures
            r == self@.contains(s.idx()),
    {
        let i = s.index() as u64;
        (self.0 >> i) & 1 == 1
    }

    /// The least square of a set that is not empty.
    pub fn lsb(&self) -> (r: Square)
        requires
            self@ != Set::<int>::empty(),
        ensures
            self@.contains(r.idx()),
            forall|i: int| self@.contains(i) ==> r.idx() <= i,
    {
        proof {
            lemma_view_lowest(self.0);
        }
        let t = self.0.trailing_zeros();
        Square::from_index(t as usize)
    }

    /// Removes the least square of a set that is not empty, and returns it.
    pub fn poplsb(&mut self) -> (r: Square)
        requires
            old(self)@ != Set::<int>::empty(),
        ensures
            old(self)@.contains(r.idx()),
            forall|i: int| old(self)@.contains(i) ==> r.idx() <= i,
            final(self)@ == old(self)@.remove(r.idx()),
            final(self).0 < old(self).0,
    {
        let index = self.lsb();
        let i = index.index() as u64;
        proof {
            lemma_view_single(i);
            lemma_view_not(1u64 << i);
            lemma_view_and(self.0, !(1u64 << i));
            lemma_clear_lowers(self.0, i);
            assert(BB(self.0 & !(1u64 << i))@ =~= self@.remove(index.idx()));
        }
        self.0 = self.0 & !(1u64 << i);
        index
    }
}

impl core::ops::BitAnd for BB {
    type Output = BB;

    fn bitand(self, rhs: BB) -> BB {
        self.intersect(rhs)
    }
}

impl vstd::std_specs::ops::BitAndSpecImpl for BB {
    open spec fn obeys_bitand_spec() -> bool {
        true
    }

    open spec fn bitand_req(self, rhs: BB) -> bool {
        true
    }

    open spec fn bitand_spec(self, rhs: BB) -> BB {
        BB(self.0 & rhs.0)
    }
}

impl core::ops::BitOr for BB {
    type Output = BB;

    fn bitor(self, rhs: BB) -> BB {
        self.union(rhs)
    }
}

impl vstd::std_specs::ops::BitOrSpecImpl for BB {
    open spec fn obeys_bitor_spec() -> bool {
        true
    }

    open spec fn bitor_req(self, rhs: BB) -> bool {
        true
    }

    open spec fn bitor_spec(self, rhs: BB) -> BB {
        BB(self.0 | rhs.0)
    }
}

impl core::ops::BitXor for BB {
    type Output = BB;

    fn bitxor(self, rhs: BB) -> BB {
        self.sym_diff(rhs)
    }
}

impl vstd::std_specs::ops::BitXorSpecImpl for BB {
    open spec fn obeys_bitxor_spec() -> bool {
        true
    }

    open spec fn bitxor_req(self, rhs: BB) -> bool {
        true
    }

    open spec fn bitxor_spec(self, rhs: BB) -> BB {
        BB(self.0 ^ rhs.0)
    }
}

impl core::ops::Not for BB {
    type Output = BB;

    fn not(self) -> BB {
        self.complement()
    }
}

impl vstd::std_specs::ops::NotSpecImpl for BB {
    open spec fn obeys_not_spec() -> bool {
        true
    }

    open spec fn not_req(self) -> bool {
        true
    }

    open spec fn not_spec(self) -> BB {
        BB(!self.0)
    }
}

/// The distance between two coordinates.
pub open spec fn dist(a: int, b: int) -> int {
    if a >= b {
        a - b
    } else {
        b - a
    }
}

/// Whether `y` lies strictly between `x` and `z`.
pub open spec fn strictly_within(x: int, y: int, z: int) -> bool {
    (x < y && y < z) || (z < y && y < x)
}

/// A knight on `a` attacks `t`.
pub open spec fn knight_move(a: int, t: int) -> bool {
    (dist(file_of(a), file_of(t)) == 1 && dist(rank_of(a), rank_of(t)) == 2) || (dist(
        file_of(a),
        file_of(t),
    ) == 2 && dist(rank_of(a), rank_of(t)) == 1)
}

/// A king on `a` attacks `t`.
pub open spec fn king_move(a: int, t: int) -> bool {
    t != a && dist(file_of(a), file_of(t)) <= 1 && dist(rank_of(a), rank_of(t)) <= 1
}

/// `t` is another square of the rank or the file of `a`.
pub open spec fn rook_line(a: int, t: int) -> bool {
    t != a && (file_of(a) == file_of(t) || rank_of(a) == rank_of(t))
}

/// `t` is another square of the diagonal or the anti-diagonal of `a`.
pub open spec fn bishop_line(a: int, t: int) -> bool {
    t != a && (file_of(a) - rank_of(a) == file_of(t) - rank_of(t) || file_of(a) + rank_of(a)
        == file_of(t) + rank_of(t))
}

/// A pawn of side `s` on `a` attacks `t`: one file aside, one rank forward.
pub open spec fn pawn_move(s: Side, a: int, t: int) -> bool {
    dist(file_of(a), file_of(t)) == 1 && rank_of(t) == rank_of(a) + (if s == Side::White {
        1int
    } else {
        -1int
    })
}

/// `t` lies strictly between `a` and `b` on a rank, file, diagonal or anti-diagonal
/// that holds both.
pub open spec fn between(a: int, b: int, t: int) -> bool {
    let (fa, ra, fb, rb, ft, rt) = (
        file_of(a),
        rank_of(a),
        file_of(b),
        rank_of(b),
        file_of(t),
        rank_of(t),
    );
    ||| (fa == fb && ft == fa && strictly_within(ra, rt, rb))
    ||| (ra == rb && rt == ra && strictly_within(fa, ft, fb))
    ||| (fa - ra == fb - rb && ft - rt == fa - ra && strictly_within(ra, rt, rb))
    ||| (fa + ra == fb + rb && ft + rt == fa + ra && strictly_within(ra, rt, rb))
}

/// The squares that satisfy `p`.
pub open spec fn squares_where(p: spec_fn(int) -> bool) -> Set<int> {
    Set::new(|t: int| 0 <= t < 64 && p(t))
}

pub open spec fn knight_targets(a: int) -> Set<int> {
    squares_where(|t: int| knight_move(a, t))
}

pub open spec fn king_targets(a: int) -> Set<int> {
    squares_where(|t: int| king_move(a, t))
}

pub open spec fn rook_targets(a: int) -> Set<int> {
    squares_where(|t: int| rook_line(a, t))
}

pub open spec fn bishop_targets(a: int) -> Set<int> {
    squares_where(|t: int| bishop_line(a, t))
}

pub open spec fn queen_targets(a: int) -> Set<int> {
    squares_where(|t: int| rook_line(a, t) || bishop_line(a, t))
}

pub open spec fn pawn_targets(s: Side, a: int) -> Set<int> {
    squares_where(|t: int| pawn_move(s, a, t))
}

pub open spec fn between_set(a: int, b: int) -> Set<int> {
    squares_where(|t: int| between(a, b, t))
}

/// The squares of rank number `r`.
pub open spec fn rank_set(r: int) -> Set<int> {
    squares_where(|t: int| rank_of(t) == r)
}

/// The squares of file number `f`.
pub open spec fn file_set(f: int) -> Set<int> {
    squares_where(|t: int| file_of(t) == f)
}

/// The squares of diagonal number `d`.
pub open spec fn diagonal_set(d: int) -> Set<int> {
    squares_where(|t: int| 7 + file_of(t) - rank_of(t) == d)
}

/// The squares of anti-diagonal number `d`.
pub open spec fn antidiagonal_set(d: int) -> Set<int> {
    squares_where(|t: int| 14 - file_of(t) - rank_of(t) == d)
}

/// The shapes that the masks below are built from.
enum Geometry {
    OnRank,
    OnFile,
    OnDiagonal,
    OnAntiDiagonal,
    Knight,
    King,
    Rook,
    Bishop,
    Queen,
    WhitePawn,
    BlackPawn,
    Between,
}

spec fn related(g: Geometry, a: int, b: int, t: int) -> bool {
    match g {
        Geometry::OnRank => rank_of(t) == a,
        Geometry::OnFile => file_of(t) == a,
        Geometry::OnDiagonal => 7 + file_of(t) - rank_of(t) == a,
        Geometry::OnAntiDiagonal => 14 - file_of(t) - rank_of(t) == a,
        Geometry::Knight => knight_move(a, t),
        Geometry::King => king_move(a, t),
        Geometry::Rook => rook_line(a, t),
        Geometry::Bishop => bishop_line(a, t),
        Geometry::Queen => rook_line(a, t) || bishop_line(a, t),
        Geometry::WhitePawn => pawn_move(Side::White, a, t),
        Geometry::BlackPawn => pawn_move(Side::Black, a, t),
        Geometry::Between => between(a, b, t),
    }
}

fn dist_exec(x: usize, y: usize) -> (r: usize)
    ensures
        r == dist(x as int, y as int),
{
    if x >= y {
        x - y
    } else {
        y - x
    }
}

fn within_exec(x: usize, y: usize, z: usize) -> (r: bool)
    ensures
        r == strictly_within(x as int, y as int, z as int),
{
    (x < y && y < z) || (z < y && y < x)
}

fn related_exec(g: &Geometry, a: usize, b: usize, t: usize) -> (r: bool)
    requires
        a < 64,
        b < 64,
        t < 64,
    ensures
        r == related(*g, a as int, b as int, t as int),
{
    let (fa, ra, fb, rb, ft, rt) = (a % 8, a / 8, b % 8, b / 8, t % 8, t / 8);
    match g {
        Geometry::OnRank => rt == a,
        Geometry::OnFile => ft == a,
        Geometry::OnDiagonal => 7 + ft == a + rt,
        Geometry::OnAntiDiagonal => 14 == a + ft + rt,
        Geometry::Knight => {
            let (df, dr) = (dist_exec(fa, ft), dist_exec(ra, rt));
            (df == 1 && dr == 2) || (df == 2 && dr == 1)
        },
        Geometry::King => t != a && dist_exec(fa, ft) <= 1 && dist_exec(ra, rt) <= 1,
        Geometry::Rook => t != a && (fa == ft || ra == rt),
        Geometry::Bishop => t != a && (fa + rt == ft + ra || fa + ra == ft + rt),
        Geometry::Queen => t != a && (fa == ft || ra == rt || fa + rt == ft + ra || fa + ra == ft
            + rt),
        Geometry::WhitePawn => dist_exec(fa, ft) == 1 && rt == ra + 1,
        Geometry::BlackPawn => dist_exec(fa, ft) == 1 && rt + 1 == ra,
        Geometry::Between => {
            (fa == fb && ft == fa && within_exec(ra, rt, rb)) || (ra == rb && rt == ra
                && within_exec(fa, ft, fb)) || (fa + rb == fb + ra && ft + ra == fa + rt
                && within_exec(ra, rt, rb)) || (fa + ra == fb + rb && ft + rt == fa + ra
                && within_exec(ra, rt, rb))
        },
    }
}

/// The mask of the squares `t` that stand in relation `g` to `a` and `b`.
fn mask_of(g: Geometry, a: usize, b: usize) -> (r: BB)
    requires
        a < 64,
        b < 64,
    ensures
        r@ == squares_where(|t: int| related(g, a as int, b as int, t)),
{
    let ghost target = squares_where(|t: int| related(g, a as int, b as int, t));
    let mut acc: u64 = 0;
    let mut t: u64 = 0;
    proof {
        lemma_view_zero();
        assert(BB(acc)@ =~= target.filter(|u: int| u < t));
    }
    while t < 64
        invariant
            t <= 64,
            a < 64,
            b < 64,
            target == squares_where(|u: int| related(g, a as int, b as int, u)),
            BB(acc)@ == target.filter(|u: int| u < t),
        decreases 64 - t,
    {
        if related_exec(&g, a, b, t as usize) {
            proof {
                lemma_view_or(acc, 1u64 << t);
                lemma_view_single(t);
            }
            acc = acc | (1u64 << t);
        }
        t = t + 1;
        assert(BB(acc)@ =~= target.filter(|u: int| u < t));
    }
    assert(BB(acc)@ =~= target);
    BB(acc)
}

/// The squares that a knight on `sq` attacks.
pub fn knight_attacks(sq: Square) -> (r: BB)
    ensures
        r@ == knight_targets(sq.idx()),
{
    let r = mask_of(Geometry::Knight, sq.index(), 0);
    assert(r@ =~= knight_targets(sq.idx()));
    r
}

/// The squares that a king on `sq` attacks.
pub fn king_attacks(sq: Square) -> (r: BB)
    ensures
        r@ == king_targets(sq.idx()),
{
    let r = mask_of(Geometry::King, sq.index(), 0);
    assert(r@ =~= king_targets(sq.idx()));
    r
}

/// The other squares of the rank and the file of `sq`, blockers ignored.
pub fn rook_attacks(sq: Square) -> (r: BB)
    ensures
        r@ == rook_targets(sq.idx()),
{
    let r = mask_of(Geometry::Rook, sq.index(), 0);
    assert(r@ =~= rook_targets(sq.idx()));
    r
}

/// The other squares of the two diagonals of `sq`, blockers ignored.
pub fn bishop_attacks(sq: Square) -> (r: BB)
    ensures
        r@ == bishop_targets(sq.idx()),
{
    let r = mask_of(Geometry::Bishop, sq.index(), 0);
    assert(r@ =~= bishop_targets(sq.idx()));
    r
}

/// The other squares of the four lines of `sq`, blockers ignored.
pub fn queen_attacks(sq: Square) -> (r: BB)
    ensures
        r@ == queen_targets(sq.idx()),
        r@ == rook_targets(sq.idx()).union(bishop_targets(sq.idx())),
{
    let r = mask_of(Geometry::Queen, sq.index(), 0);
    assert(r@ =~= queen_targets(sq.idx()));
    assert(r@ =~= rook_targets(sq.idx()).union(bishop_targets(sq.idx())));
    r
}

/// The two squares diagonally in front of `sq` that a pawn of side `s` attacks.
pub fn pawn_attacks(s: Side, sq: Square) -> (r: BB)
    ensures
        r@ == pawn_targets(s, sq.idx()),
{
    let r = match s {
        Side::White => mask_of(Geometry::WhitePawn, sq.index(), 0),
        Side::Black => mask_of(Geometry::BlackPawn, sq.index(), 0),
    };
    assert(r@ =~= pawn_targets(s, sq.idx()));
    r
}

/// The squares of a rank.
pub fn rank_bb(rank: Rank) -> (r: BB)
    ensures
        r@ == rank_set(rank.idx()),
{
    let r = mask_of(Geometry::OnRank, rank.index(), 0);
    assert(r@ =~= rank_set(rank.idx()));
    r
}

/// The squares of a file.
pub fn file_bb(file: File) -> (r: BB)
    ensures
        r@ == file_set(file.idx()),
{
    let r = mask_of(Geometry::OnFile, file.index(), 0);
    assert(r@ =~= file_set(file.idx()));
    r
}

/// The squares of a diagonal.
pub fn diagonal_bb(d: Diagonal) -> (r: BB)
    ensures
        r@ == diagonal_set(d.idx()),
{
    let r = mask_of(Geometry::OnDiagonal, d.index(), 0);
    assert(r@ =~= diagonal_set(d.idx()));
    r
}

/// The squares of an anti-diagonal.
pub fn antidiagonal_bb(d: AntiDiagonal) -> (r: BB)
    ensures
        r@ == antidiagonal_set(d.idx()),
{
    let r = mask_of(Geometry::OnAntiDiagonal, d.index(), 0);
    assert(r@ =~= antidiagonal_set(d.idx()));
    r
}

/// The squares strictly between `sq1` and `sq2` where the two share a rank, a file
/// or a diagonal; no square otherwise.
pub fn in_between(sq1: Square, sq2: Square) -> (r: BB)
    ensures
        r@ == between_set(sq1.idx(), sq2.idx()),
{
    in_between_calculate(sq1, sq2)
}

/// Computes the squares strictly between `sq1` and `sq2` on a line that holds both.
pub fn in_between_calculate(sq1: Square, sq2: Square) -> (r: BB)
    ensures
        r@ == between_set(sq1.idx(), sq2.idx()),
{
    let r = mask_of(Geometry::Between, sq1.index(), sq2.index());
    assert(r@ =~= between_set(sq1.idx(), sq2.idx()));
    r
}

/// The squares between two squares are the same either way round.
pub proof fn lemma_in_between_symmetric(a: Square, b: Square)
    ensures
        between_set(a.idx(), b.idx()) == between_set(b.idx(), a.idx()),
{
    assert(between_set(a.idx(), b.idx()) =~= between_set(b.idx(), a.idx()));
}

/// Neither end is between two squares, and nothing is between a square and itself.
pub proof fn lemma_in_between_excludes_ends(a: Square, b: Square)
    ensures
        !between_set(a.idx(), b.idx()).contains(a.idx()),
        !between_set(a.idx(), b.idx()).contains(b.idx()),
        between_set(a.idx(), a.idx()) == Set::<int>::empty(),
{
    assert(between_set(a.idx(), a.idx()) =~= Set::<int>::empty());
}

} // verus!
