//! Squares, colours, pieces, moves, castling rights, statuses and errors.
use vstd::prelude::*;
use crate::text::{decimal, push_char, push_decimal};

verus! {

/// A board square as a linear index: a1 = 0, h1 = 7, a8 = 56, h8 = 63.
pub type Square = u8;

pub fn file_of(sq: Square) -> (f: u8)
    ensures
        f == sq % 8,
{
    assert(sq & 7 == sq % 8) by (bit_vector);
    sq & 7
}

pub fn rank_of(sq: Square) -> (r: u8)
    ensures
        r == sq / 8,
{
    assert(sq >> 3 == sq / 8) by (bit_vector);
    sq >> 3
}

pub fn make_square(file: u8, rank: u8) -> (sq: Square)
    requires
        rank * 8 + file <= u8::MAX,
    ensures
        sq == rank * 8 + file,
{
    rank * 8 + file
}

/// The algebraic name of a square: its file letter, then its rank number.
pub open spec fn square_name_spec(sq: int) -> Seq<char> {
    seq![((97 + sq % 8) as u32) as char] + decimal((sq / 8 + 1) as nat)
}

/// Returns the algebraic name of a square (e.g. `"e4"`).
pub fn square_name(sq: Square) -> (s: String)
    ensures
        s@ == square_name_spec(sq as int),
{
    let mut s = String::new();
    push_square_name(&mut s, sq);
    assert(s@ =~= square_name_spec(sq as int));
    s
}

/// Appends the algebraic name of `sq` to `s`.
pub fn push_square_name(s: &mut String, sq: Square)
    ensures
        final(s)@ == old(s)@ + square_name_spec(sq as int),
{
    let f = file_of(sq);
    let c = ((97u8 + f) as char);
    push_char(s, c);
    push_decimal(s, (rank_of(sq) as u32) + 1);
    assert(final(s)@ =~= old(s)@ + square_name_spec(sq as int));
}

/// The square named by the first two characters of `s`, if they are a file
/// letter `a`..`h` and a rank digit `1`..`8`.
pub open spec fn parse_square_spec(s: Seq<char>) -> Option<Square> {
    if s.len() >= 2 && 'a' <= s[0] && s[0] <= 'h' && '1' <= s[1] && s[1] <= '8' {
        Some(((s[1] as int - 49) * 8 + (s[0] as int - 97)) as u8)
    } else {
        None
    }
}

/// Parses an algebraic square name into an index. Returns `None` on failure.
pub fn parse_square(s: &str) -> (res: Option<Square>)
    ensures
        res == parse_square_spec(s@),
        res matches Some(sq) ==> sq < 64,
{
    if s.unicode_len() < 2 {
        return None;
    }
    let c0 = s.get_char(0);
    let c1 = s.get_char(1);
    parse_square_chars(c0, c1)
}

/// The square named by a file character and a rank character.
pub fn parse_square_chars(c0: char, c1: char) -> (res: Option<Square>)
    ensures
        res == parse_square_spec(seq![c0, c1]),
        res matches Some(sq) ==> sq < 64,
{
    if 'a' <= c0 && c0 <= 'h' && '1' <= c1 && c1 <= '8' {
        let file = (c0 as u32 - 97) as u8;
        let rank = (c1 as u32 - 49) as u8;
        Some(make_square(file, rank))
    } else {
        None
    }
}

#[derive(Debug, Clone, Copy, PartialEq, Eq, Hash, Structural)]
pub enum Color {
    White,
    Black,
}

impl Color {
    pub open spec fn spec_opposite(self) -> Color {
        match self {
            Color::White => Color::Black,
            Color::Black => Color::White,
        }
    }

    #[verifier::when_used_as_spec(spec_opposite)]
    pub fn opposite(self) -> (r: Color)
        ensures
            r == self.spec_opposite(),
    {
        match self {
            Color::White => Color::Black,
            Color::Black => Color::White,
        }
    }

    pub open spec fn spec_to_char(self) -> char {
        match self {
            Color::White => 'w',
            Color::Black => 'b',
        }
    }

    /// `'w'` or `'b'`, as in FEN.
    #[verifier::when_used_as_spec(spec_to_char)]
    pub fn to_char(self) -> (c: char)
        ensures
            c == self.spec_to_char(),
    {
        match self {
            Color::White => 'w',
            Color::Black => 'b',
        }
    }

    /// The colour as text: its FEN letter.
    pub fn to_string(&self) -> (s: String)
        ensures
            s@ == seq![self.spec_to_char()],
    {
        let mut s = String::new();
        push_char(&mut s, self.to_char());
        assert(s@ =~= seq![self.spec_to_char()]);
        s
    }

    pub open spec fn spec_index(self) -> usize {
        match self {
            Color::White => 0,
            Color::Black => 1,
        }
    }

    /// White = 0, Black = 1.
    #[verifier::when_used_as_spec(spec_index)]
    pub fn index(self) -> (i: usize)
        ensures
            i == self.spec_index(),
    {
        match self {
            Color::White => 0,
            Color::Black => 1,
        }
    }
}

/// The colour with the given index (0 = White, otherwise Black).
pub open spec fn color_of_index(i: int) -> Color {
    if i == 0 { Color::White } else { Color::Black }
}

#[derive(Debug, Clone, Copy, PartialEq, Eq, Hash, Structural)]
pub enum PieceType {
    Pawn,
    Knight,
    Bishop,
    Rook,
    Queen,
    King,
}

impl PieceType {
    pub open spec fn spec_to_char(self) -> char {
        match self {
            PieceType::Pawn => 'P',
            PieceType::Knight => 'N',
            PieceType::Bishop => 'B',
            PieceType::Rook => 'R',
            PieceType::Queen => 'Q',
            PieceType::King => 'K',
        }
    }

    /// Returns the uppercase FEN/SAN character for this piece type.
    #[verifier::when_used_as_spec(spec_to_char)]
    pub fn to_char(self) -> (c: char)
        ensures
            c == self.spec_to_char(),
    {
        match self {
            PieceType::Pawn => 'P',
            PieceType::Knight => 'N',
            PieceType::Bishop => 'B',
            PieceType::Rook => 'R',
            PieceType::Queen => 'Q',
            PieceType::King => 'K',
        }
    }

    pub open spec fn spec_from_char(c: char) -> Option<PieceType> {
        if c == 'P' || c == 'p' {
            Some(PieceType::Pawn)
        } else if c == 'N' || c == 'n' {
            Some(PieceType::Knight)
        } else if c == 'B' || c == 'b' {
            Some(PieceType::Bishop)
        } else if c == 'R' || c == 'r' {
            Some(PieceType::Rook)
        } else if c == 'Q' || c == 'q' {
            Some(PieceType::Queen)
        } else if c == 'K' || c == 'k' {
            Some(PieceType::King)
        } else {
            None
        }
    }

    /// Parses a FEN/SAN character (case-insensitive) into a piece type.
    #[verifier::when_used_as_spec(spec_from_char)]
    pub fn from_char(c: char) -> (res: Option<PieceType>)
        ensures
            res == Self::spec_from_char(c),
    {
        if c == 'P' || c == 'p' {
            Some(PieceType::Pawn)
        } else if c == 'N' || c == 'n' {
            Some(PieceType::Knight)
        } else if c == 'B' || c == 'b' {
            Some(PieceType::Bishop)
        } else if c == 'R' || c == 'r' {
            Some(PieceType::Rook)
        } else if c == 'Q' || c == 'q' {
            Some(PieceType::Queen)
        } else if c == 'K' || c == 'k' {
            Some(PieceType::King)
        } else {
            None
        }
    }

    pub open spec fn spec_value(self) -> i32 {
        match self {
            PieceType::Pawn => 100,
            PieceType::Knight => 320,
            PieceType::Bishop => 330,
            PieceType::Rook => 500,
            PieceType::Queen => 900,
            PieceType::King => 20_000,
        }
    }

    /// Conventional centipawn value used for material counting.
    #[verifier::when_used_as_spec(spec_value)]
    pub fn value(self) -> (v: i32)
        ensures
            v == self.spec_value(),
    {
        match self {
            PieceType::Pawn => 100,
            PieceType::Knight => 320,
            PieceType::Bishop => 330,
            PieceType::Rook => 500,
            PieceType::Queen => 900,
            PieceType::King => 20_000,
        }
    }

    pub open spec fn spec_index(self) -> usize {
        match self {
            PieceType::Pawn => 0,
            PieceType::Knight => 1,
            PieceType::Bishop => 2,
            PieceType::Rook => 3,
            PieceType::Queen => 4,
            PieceType::King => 5,
        }
    }

    /// Pawn = 0, Knight = 1, Bishop = 2, Rook = 3, Queen = 4, King = 5.
    #[verifier::when_used_as_spec(spec_index)]
    pub fn index(self) -> (i: usize)
        ensures
            i == self.spec_index(),
    {
        match self {
            PieceType::Pawn => 0,
            PieceType::Knight => 1,
            PieceType::Bishop => 2,
            PieceType::Rook => 3,
            PieceType::Queen => 4,
            PieceType::King => 5,
        }
    }

    pub open spec fn spec_from_index(i: usize) -> PieceType {
        if i == 0 {
            PieceType::Pawn
        } else if i == 1 {
            PieceType::Knight
        } else if i == 2 {
            PieceType::Bishop
        } else if i == 3 {
            PieceType::Rook
        } else if i == 4 {
            PieceType::Queen
        } else {
            PieceType::King
        }
    }

    /// The piece type with the given index; any index above 4 gives the King.
    #[verifier::when_used_as_spec(spec_from_index)]
    pub fn from_index(i: usize) -> (pt: PieceType)
        ensures
            pt == Self::spec_from_index(i),
    {
        match i {
            0 => PieceType::Pawn,
            1 => PieceType::Knight,
            2 => PieceType::Bishop,
            3 => PieceType::Rook,
            4 => PieceType::Queen,
            _ => PieceType::King,
        }
    }
}

pub proof fn lemma_piece_type_index(pt: PieceType)
    ensures
        pt.spec_index() < 6,
        PieceType::spec_from_index(pt.spec_index()) == pt,
{
}

#[derive(Debug, Clone, Copy, PartialEq, Eq, Hash, Structural)]
pub struct Piece {
    pub piece_type: PieceType,
    pub color: Color,
}

impl Piece {
    pub fn new(piece_type: PieceType, color: Color) -> (p: Self)
        ensures
            p.piece_type == piece_type,
            p.color == color,
    {
        Self { piece_type, color }
    }

    pub open spec fn spec_to_fen_char(self) -> char {
        let c = self.piece_type.spec_to_char();
        if self.color == Color::White {
            c
        } else {
            ((c as u32) + 32) as char
        }
    }

    /// Returns the FEN character for this piece (uppercase = White, lowercase = Black).
    #[verifier::when_used_as_spec(spec_to_fen_char)]
    pub fn to_fen_char(self) -> (c: char)
        ensures
            c == self.spec_to_fen_char(),
    {
        let c = self.piece_type.to_char();
        if self.color == Color::White {
            c
        } else {
            match self.piece_type {
                PieceType::Pawn => 'p',
                PieceType::Knight => 'n',
                PieceType::Bishop => 'b',
                PieceType::Rook => 'r',
                PieceType::Queen => 'q',
                PieceType::King => 'k',
            }
        }
    }

    pub open spec fn spec_from_fen_char(c: char) -> Option<Piece> {
        match PieceType::spec_from_char(c) {
            Some(pt) => Some(
                Piece { piece_type: pt, color: if 'A' <= c && c <= 'Z' { Color::White } else { Color::Black } },
            ),
            None => None,
        }
    }

    /// Parses a single FEN character into a `Piece`.
    #[verifier::when_used_as_spec(spec_from_fen_char)]
    pub fn from_fen_char(c: char) -> (res: Option<Piece>)
        ensures
            res == Self::spec_from_fen_char(c),
    {
        let color = if 'A' <= c && c <= 'Z' {
            Color::White
        } else {
            Color::Black
        };
        match PieceType::from_char(c) {
            Some(pt) => Some(Piece::new(pt, color)),
            None => None,
        }
    }

    /// Returns the Unicode chess figurine for this piece.
    pub fn unicode(self) -> (c: char)
        ensures
            c == (match (self.color, self.piece_type) {
                (Color::White, PieceType::King) => '\u{2654}',
                (Color::White, PieceType::Queen) => '\u{2655}',
                (Color::White, PieceType::Rook) => '\u{2656}',
                (Color::White, PieceType::Bishop) => '\u{2657}',
                (Color::White, PieceType::Knight) => '\u{2658}',
                (Color::White, PieceType::Pawn) => '\u{2659}',
                (Color::Black, PieceType::King) => '\u{265a}',
                (Color::Black, PieceType::Queen) => '\u{265b}',
                (Color::Black, PieceType::Rook) => '\u{265c}',
                (Color::Black, PieceType::Bishop) => '\u{265d}',
                (Color::Black, PieceType::Knight) => '\u{265e}',
                (Color::Black, PieceType::Pawn) => '\u{265f}',
            }),
    {
        match (self.color, self.piece_type) {
            (Color::White, PieceType::King) => '\u{2654}',
            (Color::White, PieceType::Queen) => '\u{2655}',
            (Color::White, PieceType::Rook) => '\u{2656}',
            (Color::White, PieceType::Bishop) => '\u{2657}',
            (Color::White, PieceType::Knight) => '\u{2658}',
            (Color::White, PieceType::Pawn) => '\u{2659}',
            (Color::Black, PieceType::King) => '\u{265a}',
            (Color::Black, PieceType::Queen) => '\u{265b}',
            (Color::Black, PieceType::Rook) => '\u{265c}',
            (Color::Black, PieceType::Bishop) => '\u{265d}',
            (Color::Black, PieceType::Knight) => '\u{265e}',
            (Color::Black, PieceType::Pawn) => '\u{265f}',
        }
    }
}

#[derive(Debug, Clone, Copy, PartialEq, Eq, Hash, Structural)]
pub struct CastlingRights {
    pub white_kingside: bool,
    pub white_queenside: bool,
    pub black_kingside: bool,
    pub black_queenside: bool,
}

impl CastlingRights {
    pub fn none() -> (r: Self)
        ensures
            !r.white_kingside && !r.white_queenside && !r.black_kingside && !r.black_queenside,
    {
        Self { white_kingside: false, white_queenside: false, black_kingside: false, black_queenside: false }
    }

    pub fn all() -> (r: Self)
        ensures
            r.white_kingside && r.white_queenside && r.black_kingside && r.black_queenside,
    {
        Self { white_kingside: true, white_queenside: true, black_kingside: true, black_queenside: true }
    }

    /// The FEN castling field: the letters `KQkq` of the rights held, in that
    /// order, or `-` when none is held.
    pub open spec fn fen_str_spec(self) -> Seq<char> {
        let s = (if self.white_kingside { seq!['K'] } else { Seq::empty() })
            + (if self.white_queenside { seq!['Q'] } else { Seq::empty() })
            + (if self.black_kingside { seq!['k'] } else { Seq::empty() })
            + (if self.black_queenside { seq!['q'] } else { Seq::empty() });
        if s.len() == 0 { seq!['-'] } else { s }
    }

    /// Serialises castling rights as a FEN field (e.g. `"KQkq"` or `"-"`).
    pub fn to_fen_str(self) -> (s: String)
        ensures
            s@ == self.fen_str_spec(),
    {
        let mut s = String::new();
        push_castling(&mut s, self);
        assert(s@ =~= self.fen_str_spec());
        s
    }
}

/// Appends the FEN castling field of `cr` to `s`.
pub fn push_castling(s: &mut String, cr: CastlingRights)
    ensures
        final(s)@ == old(s)@ + cr.fen_str_spec(),
{
    let ghost start = s@;
    let mut any = false;
    if cr.white_kingside {
        push_char(s, 'K');
        any = true;
    }
    if cr.white_queenside {
        push_char(s, 'Q');
        any = true;
    }
    if cr.black_kingside {
        push_char(s, 'k');
        any = true;
    }
    if cr.black_queenside {
        push_char(s, 'q');
        any = true;
    }
    let ghost body = (if cr.white_kingside { seq!['K'] } else { Seq::<char>::empty() })
        + (if cr.white_queenside { seq!['Q'] } else { Seq::<char>::empty() })
        + (if cr.black_kingside { seq!['k'] } else { Seq::<char>::empty() })
        + (if cr.black_queenside { seq!['q'] } else { Seq::<char>::empty() });
    assert(s@ =~= start + body);
    if !any {
        push_char(s, '-');
    }
    assert(final(s)@ =~= old(s)@ + cr.fen_str_spec());
}

/// Extra information encoded alongside the (from, to) pair.
#[derive(Debug, Clone, Copy, PartialEq, Eq, Hash, Structural)]
pub enum MoveFlag {
    Normal,
    DoublePawnPush,
    EnPassant,
    CastleKingside,
    CastleQueenside,
    Promotion(PieceType),
}

/// A single chess move.
#[derive(Debug, Clone, Copy, PartialEq, Eq, Hash, Structural)]
pub struct Move {
    pub from: Square,
    pub to: Square,
    pub flag: MoveFlag,
}

/// The lowercase letter of a promotion piece, as written after a UCI move.
pub open spec fn lower_char(pt: PieceType) -> char {
    ((pt.spec_to_char() as u32) + 32) as char
}

impl Move {
    pub fn new(from: Square, to: Square) -> (m: Self)
        ensures
            m == (Move { from, to, flag: MoveFlag::Normal }),
    {
        Self { from, to, flag: MoveFlag::Normal }
    }

    pub fn with_flag(from: Square, to: Square, flag: MoveFlag) -> (m: Self)
        ensures
            m == (Move { from, to, flag }),
    {
        Self { from, to, flag }
    }

    /// Long algebraic (UCI) notation: source and target square names, then
    /// the lowercase promotion letter if any.
    pub open spec fn uci_spec(self) -> Seq<char> {
        square_name_spec(self.from as int) + square_name_spec(self.to as int) + match self.flag {
            MoveFlag::Promotion(pt) => seq![lower_char(pt)],
            _ => Seq::empty(),
        }
    }

    /// Serialises the move in long algebraic (UCI) format (e.g. `"e2e4"`, `"e7e8q"`).
    pub fn to_uci(&self) -> (s: String)
        ensures
            s@ == self.uci_spec(),
    {
        let mut s = String::new();
        push_square_name(&mut s, self.from);
        push_square_name(&mut s, self.to);
        if let MoveFlag::Promotion(pt) = self.flag {
            push_char(&mut s, lower_piece_char(pt));
        }
        assert(s@ =~= self.uci_spec());
        s
    }

    /// The move as text: its UCI form.
    pub fn to_string(&self) -> (s: String)
        ensures
            s@ == self.uci_spec(),
    {
        self.to_uci()
    }

    /// Returns the promotion piece type if this is a promotion move.
    pub fn promotion_piece(&self) -> (res: Option<PieceType>)
        ensures
            res == (match self.flag {
                MoveFlag::Promotion(pt) => Some(pt),
                _ => None,
            }),
    {
        if let MoveFlag::Promotion(pt) = self.flag {
            Some(pt)
        } else {
            None
        }
    }
}

pub fn lower_piece_char(pt: PieceType) -> (c: char)
    ensures
        c == lower_char(pt),
{
    match pt {
        PieceType::Pawn => 'p',
        PieceType::Knight => 'n',
        PieceType::Bishop => 'b',
        PieceType::Rook => 'r',
        PieceType::Queen => 'q',
        PieceType::King => 'k',
    }
}

#[derive(Debug, Clone, Copy, PartialEq, Eq, Hash, Structural)]
pub enum DrawReason {
    FiftyMoveRule,
    ThreefoldRepetition,
    InsufficientMaterial,
}

#[derive(Debug, Clone, Copy, PartialEq, Eq, Hash, Structural)]
pub enum GameStatus {
    Ongoing,
    Check,
    Checkmate,
    Stalemate,
    Draw(DrawReason),
}

/// An error of the library, with a human-readable message.
#[derive(Debug, Clone)]
pub struct ChessError {
    pub message: String,
}

impl ChessError {
    pub fn new(message: String) -> (e: Self)
        ensures
            e.message@ == message@,
    {
        Self { message }
    }

    /// The error as text: `ChessError: ` followed by the message.
    pub fn to_string(&self) -> (s: String)
        ensures
            s@ == "ChessError: "@ + self.message@,
    {
        let mut s = String::from_str("ChessError: ");
        s.append(self.message.as_str());
        s
    }
}

pub type ChessResult<T> = Result<T, ChessError>;

/// Reading a square's name gives the square back.
pub proof fn lemma_square_name_round_trip(sq: int)
    requires
        0 <= sq < 64,
    ensures
        parse_square_spec(square_name_spec(sq)) == Some(sq as u8),
{
    assert(decimal((sq / 8 + 1) as nat) == seq![crate::text::digit_char(sq / 8 + 1)]);
}

} // verus!
