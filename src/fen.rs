use crate::board::{lemma_first_from, lemma_piece_at_some, lemma_put_wf, Board, Position};
use crate::chess_move::{square_name, square_to_string};
use crate::definitions::{all_squares, file_of, rank_of, Piece, Side, Square};
use crate::text::{decimal, digit_char, push_char, push_decimal};
use vstd::prelude::*;
use vstd::string::StrSliceExecFns;

verus! {

/// White space as Unicode's White_Space property lists it.
pub open spec fn whitespace(c: char) -> bool {
    let n = c as u32;
    ||| (9 <= n <= 13)
    ||| n == 32
    ||| n == 0x85
    ||| n == 0xa0
    ||| n == 0x1680
    ||| (0x2000 <= n <= 0x200a)
    ||| n == 0x2028
    ||| n == 0x2029
    ||| n == 0x202f
    ||| n == 0x205f
    ||| n == 0x3000
}

fn is_space(c: char) -> (r: bool)
    ensures
        r == whitespace(c),
{
    let n = c as u32;
    (9 <= n && n <= 13) || n == 32 || n == 0x85 || n == 0xa0 || n == 0x1680 || (0x2000 <= n && n
        <= 0x200a) || n == 0x2028 || n == 0x2029 || n == 0x202f || n == 0x205f || n == 0x3000
}

/// The first position from `i` on that does not hold white space.
pub open spec fn skip_space(s: Seq<char>, i: int) -> int
    decreases s.len() - i,
{
    if 0 <= i < s.len() && whitespace(s[i]) {
        skip_space(s, i + 1)
    } else {
        i
    }
}

/// The first position from `i` on that holds white space, or the end.
pub open spec fn word_end(s: Seq<char>, i: int) -> int
    decreases s.len() - i,
{
    if 0 <= i < s.len() && !whitespace(s[i]) {
        word_end(s, i + 1)
    } else {
        i
    }
}

/// Where field `k` (from 0) of `s` starts and ends; fields are separated by white space.
pub open spec fn field_span(s: Seq<char>, k: nat) -> (int, int)
    decreases k,
{
    let from = if k == 0 {
        0
    } else {
        field_span(s, (k - 1) as nat).1
    };
    let a = skip_space(s, from);
    (a, word_end(s, a))
}

/// `s` has a field `k`.
pub open spec fn has_field(s: Seq<char>, k: nat) -> bool {
    field_span(s, k).0 < field_span(s, k).1
}

/// Field `k` of `s`.
pub open spec fn field(s: Seq<char>, k: nat) -> Seq<char> {
    s.subrange(field_span(s, k).0, field_span(s, k).1)
}

proof fn lemma_skip_space(s: Seq<char>, i: int)
    requires
        0 <= i <= s.len(),
    ensures
        i <= skip_space(s, i) <= s.len(),
    decreases s.len() - i,
{
    if i < s.len() && whitespace(s[i]) {
        lemma_skip_space(s, i + 1);
    }
}

proof fn lemma_word_end(s: Seq<char>, i: int)
    requires
        0 <= i <= s.len(),
    ensures
        i <= word_end(s, i) <= s.len(),
    decreases s.len() - i,
{
    if i < s.len() && !whitespace(s[i]) {
        lemma_word_end(s, i + 1);
    }
}

/// The field of `s` that starts at the first character after `from` that is not
/// white space.
fn next_field(s: &str, len: usize, from: usize) -> (r: (usize, usize))
    requires
        len == s@.len(),
        from <= len,
    ensures
        r.0 == skip_space(s@, from as int),
        r.1 == word_end(s@, r.0 as int),
        from <= r.0 <= r.1 <= len,
{
    let mut a = from;
    while a < len && is_space(s.get_char(a))
        invariant
            from <= a <= len,
            len == s@.len(),
            skip_space(s@, a as int) == skip_space(s@, from as int),
        decreases len - a,
    {
        a = a + 1;
    }
    let mut b = a;
    while b < len && !is_space(s.get_char(b))
        invariant
            a <= b <= len,
            len == s@.len(),
            word_end(s@, b as int) == word_end(s@, a as int),
        decreases len - b,
    {
        b = b + 1;
    }
    (a, b)
}

/// Field `k` of `s`, if there is one: the field after the one that ended at `from`.
fn get_field<'a>(s: &'a str, len: usize, from: usize, Ghost(k): Ghost<nat>) -> (r: (
    Option<&'a str>,
    usize,
))
    requires
        len == s@.len(),
        from <= len,
        from == (if k == 0 {
            0
        } else {
            field_span(s@, (k - 1) as nat).1
        }),
    ensures
        r.1 == field_span(s@, k).1,
        r.1 <= len,
        r.0 is Some <==> has_field(s@, k),
        r.0 is Some ==> r.0->Some_0@ == field(s@, k),
{
    let (a, b) = next_field(s, len, from);
    if a < b {
        (Some(s.substring_char(a, b)), b)
    } else {
        (None, b)
    }
}

/// The letter of a piece: upper case for White, lower case for Black.
pub open spec fn piece_char(p: Piece) -> char {
    match p {
        Piece::WhitePawn => 'P',
        Piece::WhiteKnight => 'N',
        Piece::WhiteBishop => 'B',
        Piece::WhiteRook => 'R',
        Piece::WhiteQueen => 'Q',
        Piece::WhiteKing => 'K',
        Piece::BlackPawn => 'p',
        Piece::BlackKnight => 'n',
        Piece::BlackBishop => 'b',
        Piece::BlackRook => 'r',
        Piece::BlackQueen => 'q',
        Piece::BlackKing => 'k',
    }
}

/// The piece whose letter is `c`, if any.
pub open spec fn piece_of_char(c: char) -> Option<Piece> {
    if c == 'P' {
        Some(Piece::WhitePawn)
    } else if c == 'N' {
        Some(Piece::WhiteKnight)
    } else if c == 'B' {
        Some(Piece::WhiteBishop)
    } else if c == 'R' {
        Some(Piece::WhiteRook)
    } else if c == 'Q' {
        Some(Piece::WhiteQueen)
    } else if c == 'K' {
        Some(Piece::WhiteKing)
    } else if c == 'p' {
        Some(Piece::BlackPawn)
    } else if c == 'n' {
        Some(Piece::BlackKnight)
    } else if c == 'b' {
        Some(Piece::BlackBishop)
    } else if c == 'r' {
        Some(Piece::BlackRook)
    } else if c == 'q' {
        Some(Piece::BlackQueen)
    } else if c == 'k' {
        Some(Piece::BlackKing)
    } else {
        None
    }
}

fn piece_to_char(p: Piece) -> (r: char)
    ensures
        r == piece_char(p),
        piece_of_char(r) == Some(p),
{
    match p {
        Piece::WhitePawn => 'P',
        Piece::WhiteKnight => 'N',
        Piece::WhiteBishop => 'B',
        Piece::WhiteRook => 'R',
        Piece::WhiteQueen => 'Q',
        Piece::WhiteKing => 'K',
        Piece::BlackPawn => 'p',
        Piece::BlackKnight => 'n',
        Piece::BlackBishop => 'b',
        Piece::BlackRook => 'r',
        Piece::BlackQueen => 'q',
        Piece::BlackKing => 'k',
    }
}

fn char_to_piece(c: char) -> (r: Result<Piece, String>)
    ensures
        r is Ok <==> piece_of_char(c) is Some,
        r is Ok ==> Some(r->Ok_0) == piece_of_char(c),
{
    match c {
        'P' => Ok(Piece::WhitePawn),
        'N' => Ok(Piece::WhiteKnight),
        'B' => Ok(Piece::WhiteBishop),
        'R' => Ok(Piece::WhiteRook),
        'Q' => Ok(Piece::WhiteQueen),
        'K' => Ok(Piece::WhiteKing),
        'p' => Ok(Piece::BlackPawn),
        'n' => Ok(Piece::BlackKnight),
        'b' => Ok(Piece::BlackBishop),
        'r' => Ok(Piece::BlackRook),
        'q' => Ok(Piece::BlackQueen),
        'k' => Ok(Piece::BlackKing),
        _ => Err(String::from_str("Invalid piece")),
    }
}

/// The letter of the side to move.
pub open spec fn side_char(s: Side) -> char {
    match s {
        Side::White => 'w',
        Side::Black => 'b',
    }
}

/// The side that the side-to-move field `f` names.
pub open spec fn side_of(f: Seq<char>) -> Option<Side> {
    if f == seq!['w'] {
        Some(Side::White)
    } else if f == seq!['b'] {
        Some(Side::Black)
    } else {
        None
    }
}

fn side_to_char(s: Side) -> (r: char)
    ensures
        r == side_char(s),
{
    match s {
        Side::White => 'w',
        Side::Black => 'b',
    }
}

fn str_to_side(s: &str) -> (r: Result<Side, String>)
    ensures
        r is Ok <==> side_of(s@) is Some,
        r is Ok ==> Some(r->Ok_0) == side_of(s@),
{
    if s.unicode_len() == 1 {
        let c = s.get_char(0);
        if c == 'w' {
            assert(s@ =~= seq!['w']);
            return Ok(Side::White);
        } else if c == 'b' {
            assert(s@ =~= seq!['b']);
            return Ok(Side::Black);
        }
    }
    Err(String::from_str("Invalid side"))
}

/// The square that square text `f` names: its first character is the file letter,
/// its second the rank digit; what follows is not read.
pub open spec fn square_of_text(f: Seq<char>) -> Option<Square> {
    if f.len() >= 2 && 'a' <= f[0] <= 'h' && '1' <= f[1] <= '8' {
        Some(Square::of(8 * ((f[1] as int) - ('1' as int)) + ((f[0] as int) - ('a' as int))))
    } else {
        None
    }
}

fn str_to_square(s: &str) -> (r: Result<Square, String>)
    ensures
        r is Ok <==> square_of_text(s@) is Some,
        r is Ok ==> Some(r->Ok_0) == square_of_text(s@),
{
    if s.unicode_len() < 2 {
        return Err(String::from_str("Square string too short"));
    }
    let file = s.get_char(0);
    let rank = s.get_char(1);
    if rank < '1' || rank > '8' || file < 'a' || file > 'h' {
        return Err(String::from_str("Invalid square string"));
    }
    Ok(Square::from_index((rank as usize - '1' as usize) * 8 + (file as usize - 'a' as usize)))
}

/// The en-passant field of a board: the square's name, or `-`.
pub open spec fn ep_text(ep: Option<Square>) -> Seq<char> {
    match ep {
        None => seq!['-'],
        Some(sq) => square_name(sq.idx()),
    }
}

fn ep_to_str(square: Option<Square>) -> (r: String)
    ensures
        r@ == ep_text(square),
{
    match square {
        None => {
            let mut s = String::new();
            push_char(&mut s, '-');
            assert(s@ =~= seq!['-']);
            s
        },
        Some(sq) => square_to_string(sq),
    }
}

/// The castling field: the letters of the rights held in the order `KQkq`, or `-`.
pub open spec fn castling_text(wk: bool, wq: bool, bk: bool, bq: bool) -> Seq<char> {
    if !wk && !wq && !bk && !bq {
        seq!['-']
    } else {
        (if wk {
            seq!['K']
        } else {
            seq![]
        }) + (if wq {
            seq!['Q']
        } else {
            seq![]
        }) + (if bk {
            seq!['k']
        } else {
            seq![]
        }) + (if bq {
            seq!['q']
        } else {
            seq![]
        })
    }
}

fn castling_to_str(wk: bool, wq: bool, bk: bool, bq: bool) -> (r: String)
    ensures
        r@ == castling_text(wk, wq, bk, bq),
{
    let mut s = String::new();
    if wk {
        push_char(&mut s, 'K');
    }
    if wq {
        push_char(&mut s, 'Q');
    }
    if bk {
        push_char(&mut s, 'k');
    }
    if bq {
        push_char(&mut s, 'q');
    }
    if !wk && !wq && !bk && !bq {
        push_char(&mut s, '-');
    }
    assert(s@ =~= castling_text(wk, wq, bk, bq));
    s
}


/// `c` is a decimal digit.
pub open spec fn is_digit(c: char) -> bool {
    '0' <= c <= '9'
}

/// The value of the decimal digits `f`.
pub open spec fn digits_value(f: Seq<char>) -> int
    decreases f.len(),
{
    if f.len() == 0 {
        0
    } else {
        10 * digits_value(f.drop_last()) + ((f.last() as int) - ('0' as int))
    }
}

/// The number that field `f` writes: one or more decimal digits, at most `u32::MAX`.
pub open spec fn number_of(f: Seq<char>) -> Option<u32> {
    if f.len() > 0 && (forall|i: int| 0 <= i < f.len() ==> is_digit(#[trigger] f[i]))
        && digits_value(f) <= u32::MAX {
        Some(digits_value(f) as u32)
    } else {
        None
    }
}

proof fn lemma_digits_grow(f: Seq<char>, i: int)
    requires
        0 <= i <= f.len(),
        forall|j: int| 0 <= j < f.len() ==> is_digit(#[trigger] f[j]),
    ensures
        digits_value(f.subrange(0, i)) <= digits_value(f),
        0 <= digits_value(f.subrange(0, i)),
    decreases f.len() - i,
{
    if i < f.len() {
        lemma_digits_grow(f, i + 1);
        assert(f.subrange(0, i + 1).drop_last() =~= f.subrange(0, i));
    } else {
        assert(f.subrange(0, i) =~= f);
    }
    lemma_digits_nonneg(f.subrange(0, i));
}

proof fn lemma_digits_nonneg(f: Seq<char>)
    requires
        forall|j: int| 0 <= j < f.len() ==> is_digit(#[trigger] f[j]),
    ensures
        0 <= digits_value(f),
    decreases f.len(),
{
    if f.len() > 0 {
        lemma_digits_nonneg(f.drop_last());
    }
}

fn parse_number(s: &str) -> (r: Option<u32>)
    ensures
        r == number_of(s@),
{
    let len = s.unicode_len();
    if len == 0 {
        return None;
    }
    let mut v: u64 = 0;
    let mut i: usize = 0;
    while i < len
        invariant
            len == s@.len(),
            i <= len,
            v == digits_value(s@.subrange(0, i as int)),
            v <= u32::MAX,
            forall|j: int| 0 <= j < i ==> is_digit(#[trigger] s@[j]),
        decreases len - i,
    {
        let c = s.get_char(i);
        if c < '0' || c > '9' {
            return None;
        }
        assert(s@.subrange(0, i + 1).drop_last() =~= s@.subrange(0, i as int));
        v = v * 10 + (c as u64 - '0' as u64);
        i = i + 1;
        if v > 0xffff_ffff {
            proof {
                if forall|j: int| 0 <= j < s@.len() ==> is_digit(#[trigger] s@[j]) {
                    lemma_digits_grow(s@, i as int);
                }
            }
            return None;
        }
    }
    assert(s@.subrange(0, len as int) =~= s@);
    Some(v as u32)
}

/// The square that the `i`-th square of the placement field stands for: the field
/// runs over the ranks from 8 down to 1, each from file a to file h.
pub open spec fn square_at_count(i: int) -> int {
    (7 - i / 8) * 8 + i % 8
}

/// The position that the placement field `f`, read from its character `j` on with
/// `i` squares already passed, makes of `p`. A digit passes that many squares, `/`
/// passes none, and a piece letter places that piece on the next square. Nothing
/// where a character is neither, or where a piece would go past the last square.
pub open spec fn place(p: Position, f: Seq<char>, j: int, i: int) -> Option<Position>
    decreases f.len() - j,
{
    if j < 0 || j >= f.len() {
        Some(p)
    } else if '1' <= f[j] <= '8' {
        let n = i + ((f[j] as int) - ('0' as int));
        place(p, f, j + 1, if n > 64 { 64 } else { n })
    } else if f[j] == '/' {
        place(p, f, j + 1, i)
    } else if 0 <= i < 64 && piece_of_char(f[j]) is Some {
        place(p.put(square_at_count(i), piece_of_char(f[j])->Some_0), f, j + 1, i + 1)
    } else {
        None
    }
}

/// Places the pieces of placement field `f` on the board; false where `f` is malformed.
fn place_pieces(board: &mut Board, f: &str) -> (r: bool)
    requires
        old(board)@.wf(),
    ensures
        r == place(old(board)@, f@, 0, 0) is Some,
        r ==> final(board)@ == place(old(board)@, f@, 0, 0)->Some_0,
        final(board)@.wf(),
{
    let len = f.unicode_len();
    let mut i: usize = 0;
    let mut j: usize = 0;
    while j < len
        invariant
            len == f@.len(),
            j <= len,
            i <= 64,
            board@.wf(),
            place(board@, f@, j as int, i as int) == place(old(board)@, f@, 0, 0),
        decreases len - j,
    {
        let c = f.get_char(j);
        if '1' <= c && c <= '8' {
            let n = i + (c as usize - '0' as usize);
            i = if n > 64 {
                64
            } else {
                n
            };
        } else if c == '/' {
        } else if i < 64 {
            match char_to_piece(c) {
                Ok(piece) => {
                    let square = Square::from_index((7 - i / 8) * 8 + i % 8);
                    proof {
                        lemma_put_wf(board@, square.idx(), piece);
                    }
                    board.set_square(square, piece);
                    i = i + 1;
                },
                Err(_) => {
                    return false;
                },
            }
        } else {
            return false;
        }
        j = j + 1;
    }
    true
}

/// Whether `c` occurs in `s`.
fn has_char(s: &str, c: char) -> (r: bool)
    ensures
        r == s@.contains(c),
{
    let len = s.unicode_len();
    let mut i: usize = 0;
    while i < len
        invariant
            len == s@.len(),
            i <= len,
            forall|j: int| 0 <= j < i ==> s@[j] != c,
        decreases len - i,
    {
        if s.get_char(i) == c {
            return true;
        }
        i = i + 1;
    }
    false
}

/// The position of a board made by `Board::new`.
pub open spec fn empty_position() -> Position {
    Position {
        pieces: Seq::new(12, |k: int| Set::<int>::empty()),
        en_passant: None,
        halfmove_clock: 0,
        fullmove_number: 1,
        stm: Side::White,
        white_king_castle: true,
        white_queen_castle: true,
        black_king_castle: true,
        black_queen_castle: true,
    }
}

/// The en-passant field read: `-` for none, else a square; nothing where malformed.
pub open spec fn ep_of(f: Seq<char>) -> Option<Option<Square>> {
    if f == seq!['-'] {
        Some(None)
    } else {
        match square_of_text(f) {
            Some(q) => Some(Some(q)),
            None => None,
        }
    }
}

/// The position that FEN text `s` describes. Its six fields, separated by white
/// space, are the placement, the side to move, the castling rights (each letter of
/// `KQkq` that occurs grants that right), the en-passant square, the halfmove clock
/// and the fullmove number. Nothing where a field is missing or malformed.
pub open spec fn fen_position(s: Seq<char>) -> Option<Position> {
    let placed = place(empty_position(), field(s, 0), 0, 0);
    let side = side_of(field(s, 1));
    let c = field(s, 2);
    let ep = ep_of(field(s, 3));
    let half = number_of(field(s, 4));
    let full = number_of(field(s, 5));
    if !(has_field(s, 0) && has_field(s, 1) && has_field(s, 2) && has_field(s, 3) && has_field(
        s,
        4,
    ) && has_field(s, 5)) {
        None
    } else if placed is None || side is None || ep is None || half is None || full is None {
        None
    } else {
        Some(
            Position {
                pieces: placed->Some_0.pieces,
                en_passant: ep->Some_0,
                halfmove_clock: half->Some_0,
                fullmove_number: full->Some_0,
                stm: side->Some_0,
                white_king_castle: c.contains('K'),
                white_queen_castle: c.contains('Q'),
                black_king_castle: c.contains('k'),
                black_queen_castle: c.contains('q'),
            },
        )
    }
}

/// The message for malformed FEN text: it names the first field found wanting,
/// the fields being read in order.
pub open spec fn fen_error(s: Seq<char>) -> Seq<char> {
    if !has_field(s, 0) {
        "Fen cannot be empty"@
    } else if place(empty_position(), field(s, 0), 0, 0) is None {
        "Invalid piece placement"@
    } else if !has_field(s, 1) {
        "Fen is too short"@
    } else if side_of(field(s, 1)) is None {
        "Invalid side"@
    } else if !has_field(s, 2) || !has_field(s, 3) {
        "Fen is too short"@
    } else if ep_of(field(s, 3)) is None {
        "Invalid en passant square"@
    } else if !has_field(s, 4) {
        "Fen is too short"@
    } else if number_of(field(s, 4)) is None {
        "Invalid halfmove clock"@
    } else if !has_field(s, 5) {
        "Fen is too short"@
    } else {
        "Invalid fullmove number"@
    }
}

fn error(msg: &str) -> (r: Result<Board, String>)
    ensures
        r is Err,
        r->Err_0@ == msg@,
{
    Err(String::from_str(msg))
}

/// Reads a board from FEN text: see `fen_position`. On malformed text, an error
/// that names the first field found wanting: see `fen_error`.
pub fn fen_to_board(fen: &str) -> (r: Result<Board, String>)
    ensures
        r is Ok <==> fen_position(fen@) is Some,
        r is Ok ==> r->Ok_0@ == fen_position(fen@)->Some_0,
        r is Ok ==> r->Ok_0@.wf(),
        r is Err ==> r->Err_0@ == fen_error(fen@),
{
    let len = fen.unicode_len();
    let mut board = Board::new();
    proof {
        assert(board@.pieces =~= empty_position().pieces);
    }
    let (f0, e0) = get_field(fen, len, 0, Ghost(0));
    let (f1, e1) = get_field(fen, len, e0, Ghost(1));
    let (f2, e2) = get_field(fen, len, e1, Ghost(2));
    let (f3, e3) = get_field(fen, len, e2, Ghost(3));
    let (f4, e4) = get_field(fen, len, e3, Ghost(4));
    let (f5, _) = get_field(fen, len, e4, Ghost(5));
    let placement = match f0 {
        Some(f) => f,
        None => {
            return error("Fen cannot be empty");
        },
    };
    if !place_pieces(&mut board, placement) {
        return error("Invalid piece placement");
    }
    // side to move
    let side = match f1 {
        Some(f) => f,
        None => {
            return error("Fen is too short");
        },
    };
    board.stm = match str_to_side(side) {
        Ok(s) => s,
        Err(_) => {
            return error("Invalid side");
        },
    };
    // castling rights, then the en-passant square
    let (castling, ep) = match (f2, f3) {
        (Some(a), Some(b)) => (a, b),
        _ => {
            return error("Fen is too short");
        },
    };
    board.white_king_castle = has_char(castling, 'K');
    board.white_queen_castle = has_char(castling, 'Q');
    board.black_king_castle = has_char(castling, 'k');
    board.black_queen_castle = has_char(castling, 'q');
    board.en_passant = if ep.unicode_len() == 1 && ep.get_char(0) == '-' {
        assert(ep@ =~= seq!['-']);
        None
    } else {
        match str_to_square(ep) {
            Ok(sq) => Some(sq),
            Err(_) => {
                return error("Invalid en passant square");
            },
        }
    };
    // the two clocks
    let half = match f4 {
        Some(f) => f,
        None => {
            return error("Fen is too short");
        },
    };
    board.halfmove_clock = match parse_number(half) {
        Some(n) => n,
        None => {
            return error("Invalid halfmove clock");
        },
    };
    let full = match f5 {
        Some(f) => f,
        None => {
            return error("Fen is too short");
        },
    };
    board.fullmove_number = match parse_number(full) {
        Some(n) => n,
        None => {
            return error("Invalid fullmove number");
        },
    };
    Ok(board)
}

/// The characters of rank `r` of the placement field from file `f` on, with `run`
/// empty squares counted and not yet written.
pub open spec fn rank_text(p: Position, r: int, f: int, run: nat) -> Seq<char>
    decreases 8 - f,
{
    if f >= 8 {
        if run > 0 {
            seq![digit_char(run as int)]
        } else {
            seq![]
        }
    } else {
        match p.piece_at(8 * r + f) {
            Some(q) => (if run > 0 {
                seq![digit_char(run as int)]
            } else {
                seq![]
            }) + seq![piece_char(q)] + rank_text(p, r, f + 1, 0),
            None => rank_text(p, r, f + 1, run + 1),
        }
    }
}

/// The placement field from rank `r` (from 0) down to the first rank.
pub open spec fn placement_text(p: Position, r: int) -> Seq<char>
    decreases r,
{
    if r <= 0 {
        rank_text(p, 0, 0, 0)
    } else {
        rank_text(p, r, 0, 0) + seq!['/'] + placement_text(p, r - 1)
    }
}

/// The FEN text of a position: placement, side to move, castling rights,
/// en-passant square and the two clocks, separated by single spaces.
pub open spec fn fen_text(p: Position) -> Seq<char> {
    placement_text(p, 7) + seq![' ', side_char(p.stm), ' '] + castling_text(
        p.white_king_castle,
        p.white_queen_castle,
        p.black_king_castle,
        p.black_queen_castle,
    ) + seq![' '] + ep_text(p.en_passant) + seq![' '] + decimal(p.halfmove_clock as nat) + seq![
        ' ',
    ] + decimal(p.fullmove_number as nat)
}

/// Appends rank `rank` of the placement field.
fn push_rank(fen: &mut String, board: &Board, rank: usize)
    requires
        rank < 8,
    ensures
        final(fen)@ == old(fen)@ + rank_text(board@, rank as int, 0, 0),
{
    let ghost base = fen@;
    let mut empty: usize = 0;
    let mut file: usize = 0;
    while file < 8
        invariant
            rank < 8,
            file <= 8,
            empty <= file,
            fen@ + rank_text(board@, rank as int, file as int, empty as nat) == base + rank_text(
                board@,
                rank as int,
                0,
                0,
            ),
        decreases 8 - file,
    {
        let ghost before = fen@;
        let ghost run = empty as nat;
        let square = Square::from_index(rank * 8 + file);
        match board.get_square(square) {
            Some(piece) => {
                if empty > 0 {
                    push_char(fen, ((empty as u8) + 48u8) as char);
                    empty = 0;
                }
                push_char(fen, piece_to_char(piece));
                assert(fen@ + rank_text(board@, rank as int, file + 1, 0) =~= before
                    + rank_text(board@, rank as int, file as int, run));
            },
            None => {
                empty = empty + 1;
            },
        }
        file = file + 1;
    }
    if empty > 0 {
        push_char(fen, ((empty as u8) + 48u8) as char);
    }
    assert(fen@ =~= base + rank_text(board@, rank as int, 0, 0));
}

/// Writes a board as FEN text: see `fen_text`.
pub fn board_to_fen(board: &Board) -> (r: String)
    ensures
        r@ == fen_text(board@),
        board@.wf() ==> fen_position(r@) == Some(board@),
{
    let mut fen = String::new();
    let mut rank: usize = 8;
    // the ranks from top to bottom, each from left to right
    while rank > 0
        invariant
            rank <= 8,
            fen@ + (if rank > 0 {
                placement_text(board@, rank - 1)
            } else {
                seq![]
            }) == placement_text(board@, 7),
        decreases rank,
    {
        rank = rank - 1;
        let ghost before = fen@;
        push_rank(&mut fen, board, rank);
        if rank != 0 {
            push_char(&mut fen, '/');
        }
        assert(fen@ + (if rank > 0 {
            placement_text(board@, rank - 1)
        } else {
            seq![]
        }) =~= before + placement_text(board@, rank as int));
    }
    assert(fen@ =~= placement_text(board@, 7));
    push_char(&mut fen, ' ');
    push_char(&mut fen, side_to_char(board.stm));
    push_char(&mut fen, ' ');
    let castling = castling_to_str(
        board.white_king_castle,
        board.white_queen_castle,
        board.black_king_castle,
        board.black_queen_castle,
    );
    fen.append(castling.as_str());
    push_char(&mut fen, ' ');
    let ep = ep_to_str(board.en_passant);
    fen.append(ep.as_str());
    push_char(&mut fen, ' ');
    push_decimal(&mut fen, board.halfmove_clock as u64);
    push_char(&mut fen, ' ');
    push_decimal(&mut fen, board.fullmove_number as u64);
    assert(fen@ =~= fen_text(board@));
    proof {
        if board@.wf() {
            lemma_fen_round_trip(board@);
        }
    }
    fen
}


proof fn lemma_decimal_digits(n: nat)
    ensures
        decimal(n).len() > 0,
        forall|i: int| 0 <= i < decimal(n).len() ==> is_digit(#[trigger] decimal(n)[i]),
        digits_value(decimal(n)) == n,
    decreases n,
{
    if n >= 10 {
        lemma_decimal_digits(n / 10);
        let d = decimal(n);
        assert(d.drop_last() =~= decimal(n / 10));
        assert(n == 10 * (n / 10) + n % 10) by (nonlinear_arith);
        assert((d.last() as int) - ('0' as int) == n % 10);
        assert(digits_value(d) == 10 * digits_value(d.drop_last()) + ((d.last() as int) - (
        '0' as int)));
        assert forall|i: int| 0 <= i < d.len() implies is_digit(#[trigger] d[i]) by {
            if i < d.len() - 1 {
                assert(d[i] == decimal(n / 10)[i]);
            }
        }
    } else {
        let d = decimal(n);
        assert(d.drop_last() =~= Seq::<char>::empty());
        assert(digits_value(d.drop_last()) == 0);
        assert((d.last() as int) - ('0' as int) == n);
        assert(digits_value(d) == 10 * digits_value(d.drop_last()) + ((d.last() as int) - (
        '0' as int)));
    }
}

/// The numeral written for a clock reads back as the same number.
pub proof fn lemma_number_round_trip(n: u32)
    ensures
        number_of(decimal(n as nat)) == Some(n),
{
    lemma_decimal_digits(n as nat);
}

/// The castling field written for four rights reads back as the same rights.
pub proof fn lemma_castling_round_trip(wk: bool, wq: bool, bk: bool, bq: bool)
    ensures
        castling_text(wk, wq, bk, bq).contains('K') == wk,
        castling_text(wk, wq, bk, bq).contains('Q') == wq,
        castling_text(wk, wq, bk, bq).contains('k') == bk,
        castling_text(wk, wq, bk, bq).contains('q') == bq,
{
    let t = castling_text(wk, wq, bk, bq);
    if !wk && !wq && !bk && !bq {
        assert(t =~= seq!['-']);
    } else {
        if wk {
            assert(t[0] == 'K');
        }
        if wq {
            let i = if wk { 1int } else { 0int };
            assert(t[i] == 'Q');
        }
        if bk {
            let i = (if wk { 1int } else { 0int }) + (if wq { 1int } else { 0int });
            assert(t[i] == 'k');
        }
        if bq {
            let i = (if wk { 1int } else { 0int }) + (if wq { 1int } else { 0int }) + (if bk {
                1int
            } else {
                0int
            });
            assert(t[i] == 'q');
        }
    }
}

/// The en-passant field written for a board reads back as the same square, or none.
pub proof fn lemma_en_passant_round_trip(ep: Option<Square>)
    ensures
        ep_of(ep_text(ep)) == Some(ep),
{
    if let Some(sq) = ep {
        sq.lemma_of_idx();
        let t = ep_text(ep);
        assert(t[0] != '-');
    }
}

/// The side-to-move field written for a side reads back as the same side.
pub proof fn lemma_side_round_trip(s: Side)
    ensures
        side_of(seq![side_char(s)]) == Some(s),
{
    match s {
        Side::White => assert(seq![side_char(s)] =~= seq!['w']),
        Side::Black => {
            assert(seq![side_char(s)] =~= seq!['b']);
            assert(seq!['b'] != seq!['w']) by {
                assert(seq!['b'][0] != seq!['w'][0]);
            }
        },
    }
}


/// Where square `x` comes in the placement field: the ranks from 8 down, each from
/// file a.
pub open spec fn count_of(x: int) -> int {
    8 * (7 - rank_of(x)) + file_of(x)
}

/// The position with the pieces of `b` on the squares that come before the `n`-th
/// in the placement field, and otherwise as `Board::new` makes it.
pub open spec fn partial(b: Position, n: int) -> Position {
    Position {
        pieces: Seq::new(12, |k: int| b.pieces[k].filter(|x: int| count_of(x) < n)),
        ..empty_position()
    }
}

/// Squares with no piece may be skipped.
proof fn lemma_partial_skip(b: Position, n: int, n2: int)
    requires
        b.wf(),
        n <= n2,
        forall|x: int| 0 <= x < 64 && n <= count_of(x) < n2 ==> #[trigger] b.piece_at(x) is None,
    ensures
        partial(b, n) == partial(b, n2),
{
    assert forall|k: int| 0 <= k < 12 implies #[trigger] partial(b, n).pieces[k] =~= partial(
        b,
        n2,
    ).pieces[k] by {
        assert forall|x: int| b.pieces[k].contains(x) && n <= count_of(x) < n2 implies false by {
            assert(b.pieces[k].subset_of(all_squares()));
            lemma_piece_at_some(b, x, k, 0);
            assert(b.piece_at(x) is Some);
            assert(0 <= x < 64);
        }
    }
    assert(partial(b, n).pieces =~= partial(b, n2).pieces);
}

/// Placing the piece of `b` on the `n`-th square extends the position by that square.
proof fn lemma_partial_put(b: Position, n: int)
    requires
        b.wf(),
        0 <= n < 64,
        b.piece_at(square_at_count(n)) is Some,
    ensures
        count_of(square_at_count(n)) == n,
        0 <= square_at_count(n) < 64,
        partial(b, n).put(square_at_count(n), b.piece_at(square_at_count(n))->Some_0) == partial(
            b,
            n + 1,
        ),
{
    let x = square_at_count(n);
    assert(count_of(x) == n);
    lemma_first_from(b, x, 0);
    let pc = b.piece_at(x)->Some_0;
    pc.lemma_idx();
    let q = partial(b, n).put(x, pc);
    let target = partial(b, n + 1);
    assert forall|k: int| 0 <= k < 12 implies #[trigger] q.pieces[k] =~= target.pieces[k] by {
        assert(b.pieces[k].subset_of(all_squares()));
        if k != pc.idx() && b.pieces[k].contains(x) {
            assert(b.pieces[k].disjoint(b.pieces[pc.idx()]));
        }
        assert forall|y: int| b.pieces[k].contains(y) && count_of(y) == n implies y == x by {
            assert(0 <= y < 64);
        }
    }
    assert(q.pieces =~= partial(b, n + 1).pieces);
}

proof fn lemma_piece_char_letter(pc: Piece)
    ensures
        !('1' <= piece_char(pc) <= '8'),
        piece_char(pc) != '/',
        piece_of_char(piece_char(pc)) == Some(pc),
        !whitespace(piece_char(pc)),
{
}

/// Reading the text of rank `r` from file `f` on, with `run` empty squares pending,
/// places the pieces of that rank and passes its squares.
#[verifier::rlimit(60)]
proof fn lemma_place_rank(b: Position, r: int, f: int, run: nat, t: Seq<char>, j: int)
    requires
        b.wf(),
        0 <= r < 8,
        0 <= f <= 8,
        run <= f,
        forall|x: int|
            0 <= x < 64 && 8 * (7 - r) + f - run <= count_of(x) < 8 * (7 - r) + f
                ==> #[trigger] b.piece_at(x) is None,
        0 <= j,
        j + rank_text(b, r, f, run).len() <= t.len(),
        t.subrange(j, j + rank_text(b, r, f, run).len()) == rank_text(b, r, f, run),
    ensures
        place(partial(b, 8 * (7 - r) + f - run), t, j, 8 * (7 - r) + f - run) == place(
            partial(b, 8 * (7 - r) + 8),
            t,
            j + rank_text(b, r, f, run).len(),
            8 * (7 - r) + 8,
        ),
    decreases 8 - f,
{
    let base = 8 * (7 - r);
    let i = base + f - run;
    let text = rank_text(b, r, f, run);
    assert forall|k: int| 0 <= k < text.len() implies t[j + k] == #[trigger] text[k] by {
        assert(t.subrange(j, j + text.len())[k] == t[j + k]);
    }
    if f >= 8 {
        if run > 0 {
            assert(text[0] == digit_char(run as int));
            assert(t[j] == digit_char(run as int));
            lemma_partial_skip(b, i, base + 8);
            assert(place(partial(b, i), t, j, i) == place(partial(b, i), t, j + 1, base + 8));
        }
    } else {
        let x = 8 * r + f;
        assert(count_of(x) == base + f);
        assert(square_at_count(base + f) == x);
        let n = base + f;
        match b.piece_at(x) {
            Some(pc) => {
                let d: Seq<char> = if run > 0 {
                    seq![digit_char(run as int)]
                } else {
                    seq![]
                };
                let rest = rank_text(b, r, f + 1, 0);
                assert(text == d + seq![piece_char(pc)] + rest);
                let jp = j + d.len();
                if run > 0 {
                    lemma_partial_skip(b, i, n);
                    assert(text[0] == digit_char(run as int));
                    assert(t[j] == digit_char(run as int));
                    assert(place(partial(b, i), t, j, i) == place(partial(b, i), t, j + 1, n));
                }
                assert(t[jp] == text[d.len() as int]);
                lemma_piece_char_letter(pc);
                lemma_partial_put(b, n);
                assert(place(partial(b, n), t, jp, n) == place(partial(b, n + 1), t, jp + 1, n + 1));
                assert(t.subrange(jp + 1, jp + 1 + rest.len()) =~= rest) by {
                    assert forall|k: int| 0 <= k < rest.len() implies t.subrange(
                        jp + 1,
                        jp + 1 + rest.len(),
                    )[k] == rest[k] by {
                        assert(text[d.len() + 1 + k] == rest[k]);
                    }
                }
                lemma_place_rank(b, r, f + 1, 0, t, jp + 1);
            },
            None => {
                lemma_place_rank(b, r, f + 1, run + 1, t, j);
            },
        }
    }
}


/// Reading the placement text of ranks `r` down to the first places their pieces.
proof fn lemma_place_ranks(b: Position, r: int, t: Seq<char>, j: int)
    requires
        b.wf(),
        0 <= r < 8,
        0 <= j,
        j + placement_text(b, r).len() <= t.len(),
        t.subrange(j, j + placement_text(b, r).len()) == placement_text(b, r),
    ensures
        place(partial(b, 8 * (7 - r)), t, j, 8 * (7 - r)) == place(
            partial(b, 64),
            t,
            j + placement_text(b, r).len(),
            64,
        ),
    decreases r,
{
    let whole = placement_text(b, r);
    let rank = rank_text(b, r, 0, 0);
    assert forall|k: int| 0 <= k < whole.len() implies t[j + k] == #[trigger] whole[k] by {
        assert(t.subrange(j, j + whole.len())[k] == t[j + k]);
    }
    assert(t.subrange(j, j + rank.len()) =~= rank) by {
        assert forall|k: int| 0 <= k < rank.len() implies t.subrange(j, j + rank.len())[k]
            == rank[k] by {
            assert(whole[k] == rank[k]);
        }
    }
    lemma_place_rank(b, r, 0, 0, t, j);
    if r > 0 {
        let rest = placement_text(b, r - 1);
        assert(whole == rank + seq!['/'] + rest);
        let js = j + rank.len();
        assert(whole[rank.len() as int] == '/');
        assert(t[js] == '/');
        assert(place(partial(b, 8 * (7 - r) + 8), t, js, 8 * (7 - r) + 8) == place(
            partial(b, 8 * (7 - r) + 8),
            t,
            js + 1,
            8 * (7 - r) + 8,
        ));
        assert(t.subrange(js + 1, js + 1 + rest.len()) =~= rest) by {
            assert forall|k: int| 0 <= k < rest.len() implies t.subrange(js + 1, js + 1 + rest.len())[k]
                == rest[k] by {
                assert(whole[rank.len() + 1 + k] == rest[k]);
            }
        }
        lemma_place_ranks(b, r - 1, t, js + 1);
    }
}

/// The placement text of a well-formed position reads back as its pieces.
pub proof fn lemma_placement_round_trip(b: Position)
    requires
        b.wf(),
    ensures
        place(empty_position(), placement_text(b, 7), 0, 0) is Some,
        place(empty_position(), placement_text(b, 7), 0, 0)->Some_0.pieces == b.pieces,
        place(empty_position(), placement_text(b, 7), 0, 0)->Some_0 == (Position {
            pieces: b.pieces,
            ..empty_position()
        }),
{
    let t = placement_text(b, 7);
    assert(t.subrange(0, t.len() as int) =~= t);
    lemma_place_ranks(b, 7, t, 0);
    assert forall|k: int| 0 <= k < 12 implies #[trigger] partial(b, 0).pieces[k] =~= Set::<
        int,
    >::empty() by {
        assert(b.pieces[k].subset_of(all_squares()));
    }
    assert(partial(b, 0).pieces =~= empty_position().pieces);
    assert(partial(b, 0) == empty_position());
    assert forall|k: int| 0 <= k < 12 implies #[trigger] partial(b, 64).pieces[k] =~= b.pieces[k] by {
        assert(b.pieces[k].subset_of(all_squares()));
    }
    assert(partial(b, 64).pieces =~= b.pieces);
}


/// The text of a rank holds no white space, and something where squares remain.
proof fn lemma_rank_text_plain(b: Position, r: int, f: int, run: nat)
    requires
        0 <= f <= 8,
        run <= f,
    ensures
        forall|k: int|
            0 <= k < rank_text(b, r, f, run).len() ==> !whitespace(
                #[trigger] rank_text(b, r, f, run)[k],
            ),
        (f < 8 || run > 0) ==> rank_text(b, r, f, run).len() > 0,
    decreases 8 - f,
{
    let text = rank_text(b, r, f, run);
    let d: Seq<char> = if run > 0 {
        seq![digit_char(run as int)]
    } else {
        seq![]
    };
    assert(run > 0 ==> !whitespace(digit_char(run as int)));
    if f < 8 {
        match b.piece_at(8 * r + f) {
            Some(q) => {
                lemma_rank_text_plain(b, r, f + 1, 0);
                lemma_piece_char_letter(q);
                let rest = rank_text(b, r, f + 1, 0);
                assert(text == d + seq![piece_char(q)] + rest);
                assert forall|k: int| 0 <= k < text.len() implies !whitespace(#[trigger] text[k]) by {
                    if k < d.len() {
                        assert(text[k] == d[k]);
                    } else if k == d.len() {
                        assert(text[k] == piece_char(q));
                    } else {
                        assert(text[k] == rest[k - d.len() - 1]);
                    }
                }
            },
            None => {
                lemma_rank_text_plain(b, r, f + 1, run + 1);
            },
        }
    } else {
        assert(text == d);
    }
}

/// The placement text holds no white space and is not empty.
proof fn lemma_placement_plain(b: Position, r: int)
    requires
        0 <= r < 8,
    ensures
        forall|k: int|
            0 <= k < placement_text(b, r).len() ==> !whitespace(#[trigger] placement_text(b, r)[k]),
        placement_text(b, r).len() > 0,
    decreases r,
{
    lemma_rank_text_plain(b, r, 0, 0);
    if r > 0 {
        lemma_placement_plain(b, r - 1);
        let rank = rank_text(b, r, 0, 0);
        let rest = placement_text(b, r - 1);
        assert forall|k: int|
            0 <= k < placement_text(b, r).len() implies !whitespace(
            #[trigger] placement_text(b, r)[k],
        ) by {
            if k < rank.len() {
                assert(placement_text(b, r)[k] == rank[k]);
            } else if k > rank.len() {
                assert(placement_text(b, r)[k] == rest[k - rank.len() - 1]);
            }
        }
    }
}

/// A word of `n` characters at `a`, followed by white space or the end of `s`.
proof fn lemma_word_at(s: Seq<char>, a: int, n: int)
    requires
        0 <= a,
        0 < n,
        a + n <= s.len(),
        forall|k: int| a <= k < a + n ==> !whitespace(#[trigger] s[k]),
        a + n == s.len() || whitespace(s[a + n]),
    ensures
        word_end(s, a) == a + n,
        skip_space(s, a) == a,
    decreases n,
{
    assert(!whitespace(s[a]));
    if n > 1 {
        lemma_word_at(s, a + 1, n - 1);
    } else {
        assert(word_end(s, a + 1) == a + 1);
    }
    assert(word_end(s, a) == word_end(s, a + 1));
}

/// The text is the words of `w` joined by single spaces.
pub open spec fn joined(w: Seq<Seq<char>>) -> Seq<char>
    decreases w.len(),
{
    if w.len() == 0 {
        seq![]
    } else if w.len() == 1 {
        w[0]
    } else {
        joined(w.drop_last()) + seq![' '] + w.last()
    }
}

/// Where word `k` of the joined text starts.
pub open spec fn word_start(w: Seq<Seq<char>>, k: int) -> int
    decreases k,
{
    if k <= 0 {
        0
    } else {
        word_start(w, k - 1) + w[k - 1].len() + 1
    }
}

proof fn lemma_joined_index(w: Seq<Seq<char>>, k: int, i: int)
    requires
        0 <= k < w.len(),
        0 <= i < w[k].len(),
        forall|l: int| 0 <= l < w.len() ==> #[trigger] w[l].len() > 0,
    ensures
        joined(w).len() == word_start(w, w.len() - 1) + w.last().len(),
        joined(w)[word_start(w, k) + i] == w[k][i],
        k + 1 < w.len() ==> joined(w)[word_start(w, k) + w[k].len()] == ' ',
    decreases w.len(),
{
    lemma_joined_len(w);
    if w.len() > 1 {
        let v = w.drop_last();
        lemma_joined_len(v);
        let jv = joined(v);
        assert(joined(w) == jv + seq![' '] + w.last());
        if k < w.len() - 1 {
            assert(v[k] == w[k]);
            lemma_word_start_prefix(w, v, k);
            lemma_joined_index(v, k, i);
            lemma_start_grows(v, k, v.len() - 1);
            lemma_start_grows(v, 0, k);
            let idx = word_start(v, k) + i;
            assert(idx < jv.len());
            assert(joined(w)[idx] == jv[idx]);
            let sp = word_start(v, k) + v[k].len();
            if k + 1 < v.len() {
                lemma_start_grows(v, k + 1, v.len() - 1);
                assert(sp < jv.len());
                assert(joined(w)[sp] == jv[sp]);
            } else {
                assert(sp == jv.len());
                assert(joined(w)[sp] == ' ');
            }
        } else {
            lemma_word_start_prefix(w, v, k - 1);
            assert(v[k - 1] == w[k - 1]);
            assert(word_start(w, k) == word_start(w, k - 1) + w[k - 1].len() + 1);
            assert(word_start(w, k) == jv.len() + 1);
            assert(joined(w)[jv.len() + 1 + i] == w.last()[i]);
        }
    }
}

proof fn lemma_joined_len(w: Seq<Seq<char>>)
    requires
        w.len() > 0,
    ensures
        joined(w).len() == word_start(w, w.len() - 1) + w.last().len(),
    decreases w.len(),
{
    if w.len() > 1 {
        let v = w.drop_last();
        lemma_joined_len(v);
        lemma_word_start_prefix(w, v, w.len() - 2);
    }
}

proof fn lemma_word_start_prefix(w: Seq<Seq<char>>, v: Seq<Seq<char>>, k: int)
    requires
        v == w.drop_last(),
        0 <= k < w.len(),
        k <= v.len(),
    ensures
        word_start(w, k) == word_start(v, k),
    decreases k,
{
    if k > 0 {
        lemma_word_start_prefix(w, v, k - 1);
    }
}

/// Field `k` of text made of words without white space, joined by single spaces, is
/// word `k`.
proof fn lemma_joined_fields(w: Seq<Seq<char>>, k: int)
    requires
        0 <= k < w.len(),
        forall|l: int| 0 <= l < w.len() ==> #[trigger] w[l].len() > 0,
        forall|l: int, i: int| 0 <= l < w.len() && 0 <= i < w[l].len() ==> !whitespace(#[trigger] w[l][i]),
    ensures
        field_span(joined(w), k as nat) == (word_start(w, k), word_start(w, k) + w[k].len()),
        has_field(joined(w), k as nat),
        field(joined(w), k as nat) == w[k],
    decreases k,
{
    let s = joined(w);
    let a = word_start(w, k);
    let n = w[k].len() as int;
    lemma_joined_len(w);
    lemma_start_grows(w, 0, k);
    lemma_start_grows(w, k, w.len() - 1);
    assert forall|j: int| a <= j < a + n implies !whitespace(#[trigger] s[j]) by {
        lemma_joined_index(w, k, j - a);
    }
    lemma_joined_index(w, k, 0);
    if k + 1 < w.len() {
        lemma_start_grows(w, k + 1, w.len() - 1);
    }
    lemma_word_at(s, a, n);
    if k > 0 {
        lemma_joined_fields(w, k - 1);
        let pe = word_start(w, k - 1) + w[k - 1].len();
        lemma_joined_index(w, k - 1, 0);
        assert(whitespace(s[pe]));
        assert(skip_space(s, pe) == skip_space(s, pe + 1));
    }
    assert(field(s, k as nat) =~= w[k]) by {
        assert forall|i: int| 0 <= i < n implies field(s, k as nat)[i] == w[k][i] by {
            lemma_joined_index(w, k, i);
        }
    }
}

proof fn lemma_start_grows(w: Seq<Seq<char>>, k: int, l: int)
    requires
        0 <= k <= l < w.len(),
    ensures
        word_start(w, k) <= word_start(w, l),
        word_start(w, k) + w[k].len() < word_start(w, l) + w[l].len() || k == l,
    decreases l - k,
{
    if k < l {
        lemma_start_grows(w, k, l - 1);
        assert(word_start(w, l) == word_start(w, l - 1) + w[l - 1].len() + 1);
    }
}


proof fn lemma_castling_plain(wk: bool, wq: bool, bk: bool, bq: bool)
    ensures
        castling_text(wk, wq, bk, bq).len() > 0,
        forall|i: int|
            0 <= i < castling_text(wk, wq, bk, bq).len() ==> !whitespace(
                #[trigger] castling_text(wk, wq, bk, bq)[i],
            ),
{
    let t = castling_text(wk, wq, bk, bq);
    assert forall|i: int| 0 <= i < t.len() implies (#[trigger] t[i] == 'K' || t[i] == 'Q' || t[i]
        == 'k' || t[i] == 'q' || t[i] == '-') by {}
}

proof fn lemma_ep_plain(ep: Option<Square>)
    ensures
        ep_text(ep).len() > 0,
        forall|i: int| 0 <= i < ep_text(ep).len() ==> !whitespace(#[trigger] ep_text(ep)[i]),
{
    if let Some(sq) = ep {
        sq.lemma_of_idx();
    }
}

proof fn lemma_decimal_plain(n: nat)
    ensures
        decimal(n).len() > 0,
        forall|i: int| 0 <= i < decimal(n).len() ==> !whitespace(#[trigger] decimal(n)[i]),
{
    lemma_decimal_digits(n);
    assert forall|i: int| 0 <= i < decimal(n).len() implies !whitespace(#[trigger] decimal(n)[i]) by {
        assert(is_digit(decimal(n)[i]));
    }
}

/// The six fields of the FEN text of a position.
pub open spec fn fen_words(b: Position) -> Seq<Seq<char>> {
    seq![
        placement_text(b, 7),
        seq![side_char(b.stm)],
        castling_text(
            b.white_king_castle,
            b.white_queen_castle,
            b.black_king_castle,
            b.black_queen_castle,
        ),
        ep_text(b.en_passant),
        decimal(b.halfmove_clock as nat),
        decimal(b.fullmove_number as nat),
    ]
}

proof fn lemma_fen_text_joined(b: Position)
    ensures
        fen_text(b) == joined(fen_words(b)),
{
    let w = fen_words(b);
    let w1 = w.subrange(0, 1);
    let w2 = w.subrange(0, 2);
    let w3 = w.subrange(0, 3);
    let w4 = w.subrange(0, 4);
    let w5 = w.subrange(0, 5);
    assert(w2.drop_last() =~= w1);
    assert(w3.drop_last() =~= w2);
    assert(w4.drop_last() =~= w3);
    assert(w5.drop_last() =~= w4);
    assert(w.drop_last() =~= w5);
    assert(joined(w1) == w[0]);
    assert(joined(w2) == joined(w1) + seq![' '] + w[1]);
    assert(joined(w3) == joined(w2) + seq![' '] + w[2]);
    assert(joined(w4) == joined(w3) + seq![' '] + w[3]);
    assert(joined(w5) == joined(w4) + seq![' '] + w[4]);
    assert(joined(w) == joined(w5) + seq![' '] + w[5]);
    assert(fen_text(b) =~= joined(w));
}

/// Reading the FEN text of a well-formed position gives the position back.
pub proof fn lemma_fen_round_trip(b: Position)
    requires
        b.wf(),
    ensures
        fen_position(fen_text(b)) == Some(b),
{
    let w = fen_words(b);
    let s = fen_text(b);
    lemma_fen_text_joined(b);
    lemma_placement_plain(b, 7);
    lemma_castling_plain(
        b.white_king_castle,
        b.white_queen_castle,
        b.black_king_castle,
        b.black_queen_castle,
    );
    lemma_ep_plain(b.en_passant);
    lemma_decimal_plain(b.halfmove_clock as nat);
    lemma_decimal_plain(b.fullmove_number as nat);
    assert forall|l: int| 0 <= l < w.len() implies #[trigger] w[l].len() > 0 by {}
    assert forall|l: int, i: int| 0 <= l < w.len() && 0 <= i < w[l].len() implies !whitespace(
        #[trigger] w[l][i],
    ) by {
        if l == 1 {
            assert(w[1][0] == side_char(b.stm));
        }
    }
    lemma_joined_fields(w, 0);
    lemma_joined_fields(w, 1);
    lemma_joined_fields(w, 2);
    lemma_joined_fields(w, 3);
    lemma_joined_fields(w, 4);
    lemma_joined_fields(w, 5);
    lemma_placement_round_trip(b);
    lemma_side_round_trip(b.stm);
    lemma_castling_round_trip(
        b.white_king_castle,
        b.white_queen_castle,
        b.black_king_castle,
        b.black_queen_castle,
    );
    lemma_en_passant_round_trip(b.en_passant);
    lemma_number_round_trip(b.halfmove_clock);
    lemma_number_round_trip(b.fullmove_number);
}

} // verus!
