//! Forsyth–Edwards Notation: reading a board from FEN and writing it back.
use vstd::prelude::*;
use crate::bits::{has_bit, lemma_bits_all, single};
use crate::board::{piece_of_slot, starting_board, Board};
use crate::text::{chars_of, decimal, parse_u32, parse_u32_spec, push_char, push_chars, push_decimal, split_whitespace, words};
use crate::types::{
    parse_square_chars, parse_square_spec, push_castling, push_square_name, CastlingRights, ChessError,
    Color, Piece, Square,
};

verus! {

/// A square grid with nothing on it.
pub open spec fn empty_grid() -> Seq<Option<Piece>> {
    Seq::new(64, |i: int| None::<Piece>)
}

/// The bitboards of `b` hold exactly the pieces of `grid`: bitboard (c, p)
/// has bit `t` set when `grid[t]` is the piece of that colour and type.
pub open spec fn holds_grid(b: Board, grid: Seq<Option<Piece>>) -> bool {
    &&& grid.len() == 64
    &&& forall|c: int, p: int, t: int| 0 <= c < 2 && 0 <= p < 6 && 0 <= t < 64 ==>
        (#[trigger] has_bit(b.bbv(c, p), t) <==> grid[t] == Some(piece_of_slot(c * 6 + p)))
}

/// `'<text>'`, as the error messages quote the offending input.
pub open spec fn quoted(s: Seq<char>) -> Seq<char> {
    seq!['\''] + s + seq!['\'']
}

pub open spec fn unknown_char_msg(c: char) -> Seq<char> {
    "Unknown FEN char: "@ + quoted(seq![c])
}

/// One character of the placement field applied to the reader's state
/// (rank, file, grid): `/` goes down a rank, a digit skips that many files,
/// a piece letter puts the piece on the current square and moves on.
pub open spec fn place_char(st: (int, int, Seq<Option<Piece>>), c: char) -> Result<(int, int, Seq<Option<Piece>>), Seq<char>> {
    let (rank, file, grid) = st;
    if c == '/' {
        Ok((rank - 1, 0, grid))
    } else if '1' <= c && c <= '8' {
        Ok((rank, file + (c as int - 48), grid))
    } else {
        match Piece::spec_from_fen_char(c) {
            None => Err(unknown_char_msg(c)),
            Some(p) => if rank < 0 || file > 7 {
                Err("FEN piece placement out of bounds"@)
            } else {
                Ok((rank, file + 1, grid.update(rank * 8 + file, Some(p))))
            },
        }
    }
}

/// The reader's state after the placement characters `s`, starting on rank
/// 8 (index 7), file a, with an empty grid; or the first error met.
pub open spec fn place_chars(s: Seq<char>) -> Result<(int, int, Seq<Option<Piece>>), Seq<char>>
    decreases s.len(),
{
    if s.len() == 0 {
        Ok((7, 0, empty_grid()))
    } else {
        match place_chars(s.drop_last()) {
            Err(e) => Err(e),
            Ok(st) => place_char(st, s.last()),
        }
    }
}

/// A castling-field character: one of `KQkq-`.
pub open spec fn castling_char_ok(c: char) -> bool {
    c == 'K' || c == 'Q' || c == 'k' || c == 'q' || c == '-'
}

/// The first character of `s` that cannot stand in the castling field.
pub open spec fn bad_castling(s: Seq<char>) -> Option<char>
    decreases s.len(),
{
    if s.len() == 0 {
        None
    } else if castling_char_ok(s[0]) {
        bad_castling(s.drop_first())
    } else {
        Some(s[0])
    }
}

/// The castling rights named in a castling field.
pub open spec fn castling_of(s: Seq<char>) -> CastlingRights {
    CastlingRights {
        white_kingside: s.contains('K'),
        white_queenside: s.contains('Q'),
        black_kingside: s.contains('k'),
        black_queenside: s.contains('q'),
    }
}

/// What a FEN string denotes: (grid, side to move, castling rights,
/// en-passant target, half-move clock, full-move number), or the message of
/// the first error, checked in the order count of fields, side to move,
/// castling, en passant, half-move clock, full-move number, placement. The
/// clocks are optional and default to 0 and 1 when absent; a clock field that
/// is present but not a number is an error.
pub open spec fn fen_spec(s: Seq<char>) -> Result<(Seq<Option<Piece>>, Color, CastlingRights, Option<Square>, u32, u32), Seq<char>> {
    let parts = words(s);
    if parts.len() < 4 {
        Err("FEN must have at least 4 fields"@)
    } else if parts[1] != seq!['w'] && parts[1] != seq!['b'] {
        Err("Invalid side to move: "@ + quoted(parts[1]))
    } else if bad_castling(parts[2]) is Some {
        Err("Invalid castling char: "@ + quoted(seq![bad_castling(parts[2])->0]))
    } else if parts[3] != seq!['-'] && parse_square_spec(parts[3]) is None {
        Err("Invalid en passant square: "@ + quoted(parts[3]))
    } else if parts.len() > 4 && parse_u32_spec(parts[4]) is None {
        Err("Invalid halfmove clock: "@ + quoted(parts[4]))
    } else if parts.len() > 5 && parse_u32_spec(parts[5]) is None {
        Err("Invalid fullmove number: "@ + quoted(parts[5]))
    } else {
        match place_chars(parts[0]) {
            Err(e) => Err(e),
            Ok(st) => Ok((
                st.2,
                if parts[1] == seq!['w'] { Color::White } else { Color::Black },
                castling_of(parts[2]),
                if parts[3] == seq!['-'] { None } else { parse_square_spec(parts[3]) },
                if parts.len() > 4 { parse_u32_spec(parts[4])->0 } else { 0 },
                if parts.len() > 5 { parse_u32_spec(parts[5])->0 } else { 1 },
            )),
        }
    }
}

/// `b` is the board that the FEN fields `f` describe.
pub open spec fn board_matches(b: Board, f: (Seq<Option<Piece>>, Color, CastlingRights, Option<Square>, u32, u32)) -> bool {
    &&& holds_grid(b, f.0)
    &&& b.side_to_move == f.1
    &&& b.castling_rights == f.2
    &&& b.en_passant == f.3
    &&& b.halfmove_clock == f.4
    &&& b.fullmove_number == f.5
}

/// The board that a valid FEN string describes.
pub open spec fn fen_board(s: Seq<char>) -> Board {
    choose|b: Board| board_matches(b, fen_spec(s)->Ok_0)
}

/// The FEN fields describe at most one board.
pub proof fn lemma_board_matches_unique(b1: Board, b2: Board, f: (Seq<Option<Piece>>, Color, CastlingRights, Option<Square>, u32, u32))
    requires
        board_matches(b1, f),
        board_matches(b2, f),
    ensures
        b1 == b2,
{
    assert forall|c: int, p: int| 0 <= c < 2 && 0 <= p < 6 implies b1.bb[c][p] == b2.bb[c][p] by {
        assert forall|t: int| 0 <= t < 64 implies (has_bit(b1.bbv(c, p), t) <==> has_bit(b2.bbv(c, p), t)) by {
            assert(has_bit(b1.bbv(c, p), t) <==> f.0[t] == Some(piece_of_slot(c * 6 + p)));
            assert(has_bit(b2.bbv(c, p), t) <==> f.0[t] == Some(piece_of_slot(c * 6 + p)));
        }
        crate::bits::lemma_bits_ext(b1.bbv(c, p), b2.bbv(c, p));
    }
    assert(b1.bb[0] =~= b2.bb[0]);
    assert(b1.bb[1] =~= b2.bb[1]);
    assert(b1.bb =~= b2.bb);
}

fn error_quoting(prefix: &str, text: &[char]) -> (e: ChessError)
    ensures
        e.message@ == prefix@ + quoted(text@),
{
    let mut m = String::from_str(prefix);
    push_char(&mut m, '\'');
    push_chars(&mut m, text);
    push_char(&mut m, '\'');
    assert(m@ =~= prefix@ + quoted(text@));
    ChessError::new(m)
}

fn seq_is(s: &[char], c: char) -> (b: bool)
    ensures
        b == (s@ == seq![c]),
{
    if s.len() == 1 && s[0] == c {
        assert(s@ =~= seq![c]);
        true
    } else {
        assert(s@.len() != 1 ==> s@ != seq![c]);
        false
    }
}

/// Fills the bitboards of `board` from the placement field `s`.
fn place_pieces(board: &mut Board, s: &[char]) -> (res: Result<(), ChessError>)
    requires
        holds_grid(*old(board), empty_grid()),
    ensures
        match place_chars(s@) {
            Ok(st) => res is Ok && holds_grid(*final(board), st.2),
            Err(e) => res matches Err(err) && err.message@ == e,
        },
        final(board).side_to_move == old(board).side_to_move,
        final(board).castling_rights == old(board).castling_rights,
        final(board).en_passant == old(board).en_passant,
        final(board).halfmove_clock == old(board).halfmove_clock,
        final(board).fullmove_number == old(board).fullmove_number,
{
    // The rank and file are kept exact while they can still name a square;
    // once past the board they only remember that they are.
    let mut rank: i32 = 7;
    let mut file: i32 = 0;
    let ghost mut g_rank: int = 7;
    let ghost mut g_file: int = 0;
    let ghost mut grid: Seq<Option<Piece>> = empty_grid();
    let mut i: usize = 0;
    assert(s@.subrange(0, 0) =~= Seq::<char>::empty());
    while i < s.len()
        invariant
            i <= s@.len(),
            place_chars(s@.subrange(0, i as int)) == Ok::<(int, int, Seq<Option<Piece>>), Seq<char>>((g_rank, g_file, grid)),
            -1 <= rank <= 7,
            0 <= file <= 15,
            rank == g_rank || (rank < 0 && g_rank < 0),
            file == g_file || (file > 7 && g_file > 7),
            holds_grid(*board, grid),
            board.side_to_move == old(board).side_to_move,
            board.castling_rights == old(board).castling_rights,
            board.en_passant == old(board).en_passant,
            board.halfmove_clock == old(board).halfmove_clock,
            board.fullmove_number == old(board).fullmove_number,
        decreases s@.len() - i,
    {
        let ch = s[i];
        let ghost pre = s@.subrange(0, i as int);
        let ghost post = s@.subrange(0, i + 1);
        assert(post.drop_last() =~= pre);
        assert(post.last() == ch);
        if ch == '/' {
            if rank >= 0 {
                rank = rank - 1;
            }
            file = 0;
            proof {
                g_rank = g_rank - 1;
                g_file = 0;
            }
        } else if '1' <= ch && ch <= '8' {
            if file <= 7 {
                file = file + (ch as i32 - 48);
            }
            proof {
                g_file = g_file + (ch as int - 48);
            }
        } else {
            match Piece::from_fen_char(ch) {
                None => {
                    let mut m = String::from_str("Unknown FEN char: ");
                    push_char(&mut m, '\'');
                    push_char(&mut m, ch);
                    push_char(&mut m, '\'');
                    assert(m@ =~= unknown_char_msg(ch));
                    proof {
                        lemma_place_err_sticks(s@, i as int + 1, unknown_char_msg(ch));
                        assert(s@.subrange(0, s@.len() as int) =~= s@);
                    }
                    return Err(ChessError::new(m));
                },
                Some(piece) => {
                    if rank < 0 || file > 7 {
                        proof {
                            lemma_place_err_sticks(s@, i as int + 1, "FEN piece placement out of bounds"@);
                            assert(s@.subrange(0, s@.len() as int) =~= s@);
                        }
                        return Err(ChessError::new(String::from_str("FEN piece placement out of bounds")));
                    }
                    let sq = (rank * 8 + file) as u8;
                    let ghost before = *board;
                    board.set_piece(sq, Some(piece));
                    proof {
                        lemma_bits_all();
                        let g2 = grid.update(sq as int, Some(piece));
                        assert forall|c: int, p: int, t: int| 0 <= c < 2 && 0 <= p < 6 && 0 <= t < 64 implies
                            (#[trigger] has_bit(board.bbv(c, p), t) <==> g2[t] == Some(piece_of_slot(c * 6 + p))) by {
                            assert(has_bit(before.bbv(c, p), t) <==> grid[t] == Some(piece_of_slot(c * 6 + p)));
                            crate::types::lemma_piece_type_index(piece.piece_type);
                            assert(piece_of_slot(piece.color.spec_index() * 6 + piece.piece_type.spec_index()) == piece);
                            if c * 6 + p != piece.color.spec_index() * 6 + piece.piece_type.spec_index() {
                                assert(piece_of_slot(c * 6 + p) != piece) by {
                                    assert((c * 6 + p) / 6 == c);
                                    assert((c * 6 + p) % 6 == p);
                                }
                            }
                        }
                        grid = g2;
                    }
                    file = file + 1;
                    proof {
                        g_file = g_file + 1;
                    }
                },
            }
        }
        i = i + 1;
    }
    assert(s@.subrange(0, s@.len() as int) =~= s@);
    Ok(())
}

/// Once the placement reader has failed, later characters keep the error.
proof fn lemma_place_err_sticks(s: Seq<char>, k: int, e: Seq<char>)
    requires
        0 <= k <= s.len(),
        place_chars(s.subrange(0, k)) == Err::<(int, int, Seq<Option<Piece>>), Seq<char>>(e),
    ensures
        place_chars(s) == Err::<(int, int, Seq<Option<Piece>>), Seq<char>>(e),
    decreases s.len() - k,
{
    if k < s.len() {
        assert(s.subrange(0, k + 1).drop_last() =~= s.subrange(0, k));
        lemma_place_err_sticks(s, k + 1, e);
    } else {
        assert(s.subrange(0, k) =~= s);
    }
}

/// Reads the castling field, or names its first bad character.
fn read_castling(s: &[char]) -> (res: Result<CastlingRights, char>)
    ensures
        match bad_castling(s@) {
            Some(c) => res == Err::<CastlingRights, char>(c),
            None => res == Ok::<CastlingRights, char>(castling_of(s@)),
        },
{
    let mut cr = CastlingRights::none();
    let mut i: usize = 0;
    assert(s@.subrange(0, s@.len() as int) =~= s@);
    while i < s.len()
        invariant
            i <= s@.len(),
            bad_castling(s@) == bad_castling(s@.subrange(i as int, s@.len() as int)),
            cr.white_kingside == s@.subrange(0, i as int).contains('K'),
            cr.white_queenside == s@.subrange(0, i as int).contains('Q'),
            cr.black_kingside == s@.subrange(0, i as int).contains('k'),
            cr.black_queenside == s@.subrange(0, i as int).contains('q'),
            forall|j: int| 0 <= j < i ==> castling_char_ok(#[trigger] s@[j]),
        decreases s@.len() - i,
    {
        let ch = s[i];
        let ghost suf = s@.subrange(i as int, s@.len() as int);
        assert(suf[0] == ch);
        assert(suf.drop_first() =~= s@.subrange(i + 1, s@.len() as int));
        let ghost pre = s@.subrange(0, i as int);
        let ghost post = s@.subrange(0, i + 1);
        assert(post =~= pre.push(ch));
        if ch == 'K' {
            cr.white_kingside = true;
        } else if ch == 'Q' {
            cr.white_queenside = true;
        } else if ch == 'k' {
            cr.black_kingside = true;
        } else if ch == 'q' {
            cr.black_queenside = true;
        } else if ch == '-' {
        } else {
            return Err(ch);
        }
        proof {
            assert forall|x: char| post.contains(x) <==> (pre.contains(x) || x == ch) by {
                if post.contains(x) {
                    let j = choose|j: int| 0 <= j < post.len() && post[j] == x;
                    if j < pre.len() {
                        assert(pre[j] == x);
                    }
                }
                if pre.contains(x) {
                    let j = choose|j: int| 0 <= j < pre.len() && pre[j] == x;
                    assert(post[j] == x);
                }
                if x == ch {
                    assert(post[i as int] == x);
                }
            }
        }
        i = i + 1;
    }
    assert(s@.subrange(0, s@.len() as int) =~= s@);
    assert(s@.subrange(s@.len() as int, s@.len() as int) =~= Seq::<char>::empty());
    Ok(cr)
}

/// Parses a FEN string into a `Board`.
///
/// Expects the standard six-field format:
/// `<placement> <color> <castling> <en_passant> <halfmove> <fullmove>`
///
/// The last two fields (halfmove clock and fullmove number) are optional and
/// default to `0` and `1` respectively if omitted.
///
/// Returns a [`ChessError`] if any field is malformed or a piece character is
/// unrecognised.
pub fn parse_fen(fen: &str) -> (res: Result<Board, ChessError>)
    ensures
        match fen_spec(fen@) {
            Ok(f) => res matches Ok(b) && board_matches(b, f) && b == fen_board(fen@),
            Err(msg) => res matches Err(e) && e.message@ == msg,
        },
        res matches Ok(b) ==> b.wf(),
{
    let chars = chars_of(fen);
    let parts = split_whitespace(chars.as_slice());
    let ghost ws = words(fen@);
    assert(parts.deep_view() == ws);
    assert(parts@.len() == ws.len());
    if parts.len() < 4 {
        return Err(ChessError::new(String::from_str("FEN must have at least 4 fields")));
    }
    assert(parts[1]@ == ws[1]);
    assert(parts[2]@ == ws[2]);
    assert(parts[3]@ == ws[3]);
    assert(parts[0]@ == ws[0]);

    let side_to_move = if seq_is(parts[1].as_slice(), 'w') {
        Color::White
    } else if seq_is(parts[1].as_slice(), 'b') {
        Color::Black
    } else {
        return Err(error_quoting("Invalid side to move: ", parts[1].as_slice()));
    };

    let castling_rights = match read_castling(parts[2].as_slice()) {
        Ok(cr) => cr,
        Err(c) => {
            let cs = vec![c];
            assert(cs@ =~= seq![c]);
            return Err(error_quoting("Invalid castling char: ", cs.as_slice()));
        },
    };

    let en_passant = if seq_is(parts[3].as_slice(), '-') {
        None
    } else {
        let p3 = parts[3].as_slice();
        let sq = if p3.len() >= 2 { parse_square_chars(p3[0], p3[1]) } else { None };
        assert(sq == parse_square_spec(p3@)) by {
            if p3@.len() >= 2 {
                assert(p3@[0] == seq![p3@[0], p3@[1]][0]);
            }
        }
        match sq {
            Some(s) => Some(s),
            None => {
                return Err(error_quoting("Invalid en passant square: ", p3));
            },
        }
    };

    let halfmove_clock: u32 = if parts.len() > 4 {
        assert(parts[4]@ == ws[4]);
        match parse_u32(parts[4].as_slice()) {
            Some(n) => n,
            None => {
                return Err(error_quoting("Invalid halfmove clock: ", parts[4].as_slice()));
            },
        }
    } else {
        0
    };
    let fullmove_number: u32 = if parts.len() > 5 {
        assert(parts[5]@ == ws[5]);
        match parse_u32(parts[5].as_slice()) {
            Some(n) => n,
            None => {
                return Err(error_quoting("Invalid fullmove number: ", parts[5].as_slice()));
            },
        }
    } else {
        1
    };

    let mut board = Board {
        bb: [[0u64; 6]; 2],
        side_to_move,
        castling_rights,
        en_passant,
        halfmove_clock,
        fullmove_number,
    };
    proof {
        lemma_bits_all();
        assert forall|c: int, p: int, t: int| 0 <= c < 2 && 0 <= p < 6 && 0 <= t < 64 implies
            (#[trigger] has_bit(board.bbv(c, p), t) <==> empty_grid()[t] == Some(piece_of_slot(c * 6 + p))) by {
            assert(board.bbv(c, p) == 0);
        }
    }
    match place_pieces(&mut board, parts[0].as_slice()) {
        Ok(()) => {
            proof {
                let f = fen_spec(fen@)->Ok_0;
                assert(board_matches(board, f));
                let c = fen_board(fen@);
                assert(board_matches(c, f));
                lemma_board_matches_unique(board, c, f);
            }
            Ok(board)
        },
        Err(e) => Err(e),
    }
}


/// The full FEN of a board: placement, side to move, castling, en passant,
/// half-move clock and full-move number, separated by single spaces.
pub open spec fn fen_string_spec(b: Board) -> Seq<char> {
    b.placement_spec() + seq![' ', b.side_to_move.spec_to_char(), ' '] + b.castling_rights.fen_str_spec()
        + seq![' '] + b.ep_spec() + seq![' '] + decimal(b.halfmove_clock as nat) + seq![' ']
        + decimal(b.fullmove_number as nat)
}

/// The position key of a board is its FEN without the two clock fields:
/// the FEN is the key, a space, the half-move clock, a space and the
/// full-move number. So boards that differ only in their clocks have the
/// same key.
pub proof fn lemma_position_key_is_fen_prefix(b: Board, c: Board)
    ensures
        fen_string_spec(b) == b.position_key_spec() + seq![' '] + decimal(b.halfmove_clock as nat) + seq![' ']
            + decimal(b.fullmove_number as nat),
        (c.bb == b.bb && c.side_to_move == b.side_to_move && c.castling_rights == b.castling_rights
            && c.en_passant == b.en_passant) ==> c.position_key_spec() == b.position_key_spec(),
{
    if c.bb == b.bb {
        lemma_placement_same_bits(b, c, 7);
    }
}

proof fn lemma_piece_at_same_bits(b: Board, c: Board, sq: int, k: int)
    requires
        b.bb == c.bb,
    ensures
        b.piece_at_from(sq, k) == c.piece_at_from(sq, k),
    decreases 12 - k,
{
    if 0 <= k < 12 {
        assert(b.slot(k) == c.slot(k));
        lemma_piece_at_same_bits(b, c, sq, k + 1);
    }
}

proof fn lemma_rank_fen_same_bits(b: Board, c: Board, r: int, f: int, e: nat)
    requires
        b.bb == c.bb,
    ensures
        b.rank_fen_from(r, f, e) == c.rank_fen_from(r, f, e),
    decreases 8 - f,
{
    if f < 8 {
        lemma_piece_at_same_bits(b, c, r * 8 + f, 0);
        lemma_rank_fen_same_bits(b, c, r, f + 1, e + 1);
        lemma_rank_fen_same_bits(b, c, r, f + 1, 0);
    }
}

proof fn lemma_placement_same_bits(b: Board, c: Board, r: int)
    requires
        b.bb == c.bb,
    ensures
        b.placement_from(r) == c.placement_from(r),
    decreases r,
{
    if r > 0 {
        lemma_rank_fen_same_bits(b, c, r, 0, 0);
        lemma_placement_same_bits(b, c, r - 1);
    } else {
        lemma_rank_fen_same_bits(b, c, 0, 0, 0);
    }
}

/// Serialises a `Board` to a complete FEN string.
pub fn board_to_fen(board: &Board) -> (s: String)
    ensures
        s@ == fen_string_spec(*board),
{
    let mut out = String::new();
    board.push_placement(&mut out);
    push_char(&mut out, ' ');
    push_char(&mut out, board.side_to_move.to_char());
    push_char(&mut out, ' ');
    push_castling(&mut out, board.castling_rights);
    push_char(&mut out, ' ');
    match board.en_passant {
        Some(e) => push_square_name(&mut out, e),
        None => push_char(&mut out, '-'),
    }
    push_char(&mut out, ' ');
    push_decimal(&mut out, board.halfmove_clock);
    push_char(&mut out, ' ');
    push_decimal(&mut out, board.fullmove_number);
    assert(out@ =~= fen_string_spec(*board));
    out
}

/// The grid of a board: the piece on each square.
pub open spec fn grid_of(b: Board) -> Seq<Option<Piece>> {
    Seq::new(64, |t: int| b.spec_piece_at(t))
}

/// No square is held by two bitboards.
pub open spec fn disjoint(b: Board) -> bool {
    forall|t: int, j: int, k: int| 0 <= j < k < 12 ==> !(#[trigger] has_bit(b.slot(j), t) && #[trigger] has_bit(b.slot(k), t))
}

/// The reader state after the placement characters `s`, from state `st`.
pub open spec fn place_run(st: (int, int, Seq<Option<Piece>>), s: Seq<char>) -> Result<(int, int, Seq<Option<Piece>>), Seq<char>>
    decreases s.len(),
{
    if s.len() == 0 {
        Ok(st)
    } else {
        match place_run(st, s.drop_last()) {
            Err(e) => Err(e),
            Ok(st2) => place_char(st2, s.last()),
        }
    }
}

proof fn lemma_place_chars_run(s: Seq<char>)
    ensures
        place_chars(s) == place_run((7, 0, empty_grid()), s),
    decreases s.len(),
{
    if s.len() > 0 {
        lemma_place_chars_run(s.drop_last());
    }
}

proof fn lemma_place_run_concat(st: (int, int, Seq<Option<Piece>>), x: Seq<char>, y: Seq<char>)
    ensures
        place_run(st, x + y) == match place_run(st, x) {
            Ok(st2) => place_run(st2, y),
            Err(e) => Err(e),
        },
    decreases y.len(),
{
    if y.len() == 0 {
        assert(x + y =~= x);
    } else {
        lemma_place_run_concat(st, x, y.drop_last());
        assert((x + y).drop_last() =~= x + y.drop_last());
        assert((x + y).last() == y.last());
    }
}

proof fn lemma_place_run_one(st: (int, int, Seq<Option<Piece>>), c: char)
    ensures
        place_run(st, seq![c]) == place_char(st, c),
        place_run(st, Seq::<char>::empty()) == Ok::<(int, int, Seq<Option<Piece>>), Seq<char>>(st),
{
    assert(seq![c].drop_last() =~= Seq::<char>::empty());
    assert(seq![c].last() == c);
}

/// The grid `g` with the pieces of rank `r` from file `f` on filled in.
pub open spec fn fill_rank(g: Seq<Option<Piece>>, b: Board, r: int, f: int) -> Seq<Option<Piece>> {
    Seq::new(64, |t: int| if t / 8 == r && t % 8 >= f && b.spec_piece_at(t) is Some { b.spec_piece_at(t) } else { g[t] })
}

/// The grid `g` with the pieces of ranks `r` down to the first filled in.
pub open spec fn fill_ranks(g: Seq<Option<Piece>>, b: Board, r: int) -> Seq<Option<Piece>> {
    Seq::new(64, |t: int| if t / 8 <= r && b.spec_piece_at(t) is Some { b.spec_piece_at(t) } else { g[t] })
}

proof fn lemma_fen_char_round_trip(p: Piece)
    ensures
        Piece::spec_from_fen_char(p.spec_to_fen_char()) == Some(p),
        p.spec_to_fen_char() != '/',
        !('1' <= p.spec_to_fen_char() && p.spec_to_fen_char() <= '8'),
        !crate::text::is_ws(p.spec_to_fen_char()),
        p.spec_to_fen_char() != '-',
{
}

proof fn lemma_rank_run(b: Board, r: int, f: int, e: int, g: Seq<Option<Piece>>)
    requires
        0 <= r < 8,
        0 <= e <= f <= 8,
        g.len() == 64,
    ensures
        place_run((r, f - e, g), b.rank_fen_from(r, f, e as nat)) == Ok::<(int, int, Seq<Option<Piece>>), Seq<char>>((r, 8, fill_rank(g, b, r, f))),
    decreases 8 - f,
{
    let st = (r, f - e, g);
    if f >= 8 {
        assert(fill_rank(g, b, r, f) =~= g);
        if e > 0 {
            assert(b.rank_fen_from(r, f, e as nat) == seq![crate::text::digit_char(e)]);
            lemma_place_run_one(st, crate::text::digit_char(e));
            assert(crate::text::digit_char(e) as int == e + 48);
        } else {
            assert(b.rank_fen_from(r, f, e as nat) =~= Seq::<char>::empty());
            lemma_place_run_one(st, 'x');
        }
    } else {
        match b.spec_piece_at(r * 8 + f) {
            None => {
                lemma_rank_run(b, r, f + 1, e + 1, g);
                assert(fill_rank(g, b, r, f + 1) =~= fill_rank(g, b, r, f)) by {
                    assert forall|t: int| 0 <= t < 64 implies fill_rank(g, b, r, f + 1)[t] == fill_rank(g, b, r, f)[t] by {
                        if t / 8 == r && t % 8 == f {
                            assert(t == r * 8 + f);
                        }
                    }
                }
            },
            Some(p) => {
                let run = Board::empty_run(e as nat);
                let rest = b.rank_fen_from(r, f + 1, 0);
                let c = p.spec_to_fen_char();
                assert(b.rank_fen_from(r, f, e as nat) == run + seq![c] + rest);
                lemma_place_run_concat(st, run + seq![c], rest);
                lemma_place_run_concat(st, run, seq![c]);
                if e > 0 {
                    assert(run == seq![crate::text::digit_char(e)]);
                    lemma_place_run_one(st, crate::text::digit_char(e));
                } else {
                    assert(run =~= Seq::<char>::empty());
                    lemma_place_run_one(st, c);
                }
                assert(place_run(st, run) == Ok::<(int, int, Seq<Option<Piece>>), Seq<char>>((r, f, g)));
                lemma_place_run_one((r, f, g), c);
                lemma_fen_char_round_trip(p);
                let g2 = g.update(r * 8 + f, Some(p));
                assert(place_run((r, f, g), seq![c]) == Ok::<(int, int, Seq<Option<Piece>>), Seq<char>>((r, f + 1, g2)));
                lemma_rank_run(b, r, f + 1, 0, g2);
                assert(fill_rank(g2, b, r, f + 1) =~= fill_rank(g, b, r, f)) by {
                    assert forall|t: int| 0 <= t < 64 implies fill_rank(g2, b, r, f + 1)[t] == fill_rank(g, b, r, f)[t] by {
                        if t / 8 == r && t % 8 == f {
                            assert(t == r * 8 + f);
                        }
                        if t == r * 8 + f {
                            assert(t / 8 == r && t % 8 == f);
                        }
                    }
                }
            },
        }
    }
}

proof fn lemma_placement_run(b: Board, r: int, g: Seq<Option<Piece>>)
    requires
        0 <= r < 8,
        g.len() == 64,
    ensures
        place_run((r, 0, g), b.placement_from(r)) == Ok::<(int, int, Seq<Option<Piece>>), Seq<char>>((0, 8, fill_ranks(g, b, r))),
    decreases r,
{
    lemma_rank_run(b, r, 0, 0, g);
    let g1 = fill_rank(g, b, r, 0);
    if r == 0 {
        assert(fill_ranks(g, b, 0) =~= g1);
    } else {
        let x = b.rank_fen_from(r, 0, 0);
        let y = b.placement_from(r - 1);
        assert(b.placement_from(r) == x + seq!['/'] + y);
        lemma_place_run_concat((r, 0, g), x + seq!['/'], y);
        lemma_place_run_concat((r, 0, g), x, seq!['/']);
        lemma_place_run_one((r, 8, g1), '/');
        lemma_placement_run(b, r - 1, g1);
        assert(fill_ranks(g1, b, r - 1) =~= fill_ranks(g, b, r));
    }
}

/// The placement field of a board reads back as the board's grid.
pub proof fn lemma_placement_reads_back(b: Board)
    ensures
        place_chars(b.placement_spec()) == Ok::<(int, int, Seq<Option<Piece>>), Seq<char>>((0, 8, grid_of(b))),
{
    lemma_place_chars_run(b.placement_spec());
    lemma_placement_run(b, 7, empty_grid());
    assert(fill_ranks(empty_grid(), b, 7) =~= grid_of(b));
}

/// Every character of a castling field made of castling characters is accepted.
proof fn lemma_bad_castling_none(s: Seq<char>)
    requires
        forall|i: int| 0 <= i < s.len() ==> castling_char_ok(#[trigger] s[i]),
    ensures
        bad_castling(s) is None,
    decreases s.len(),
{
    if s.len() > 0 {
        assert forall|i: int| 0 <= i < s.drop_first().len() implies castling_char_ok(#[trigger] s.drop_first()[i]) by {
            assert(s.drop_first()[i] == s[i + 1]);
        }
        lemma_bad_castling_none(s.drop_first());
    }
}

/// The castling field of some rights reads back as those rights.
proof fn lemma_castling_reads_back(cr: CastlingRights)
    ensures
        bad_castling(cr.fen_str_spec()) is None,
        castling_of(cr.fen_str_spec()) == cr,
        cr.fen_str_spec().len() > 0,
        forall|i: int| 0 <= i < cr.fen_str_spec().len() ==> !crate::text::is_ws(#[trigger] cr.fen_str_spec()[i]),
{
    let a = if cr.white_kingside { seq!['K'] } else { Seq::<char>::empty() };
    let bq = if cr.white_queenside { seq!['Q'] } else { Seq::<char>::empty() };
    let c = if cr.black_kingside { seq!['k'] } else { Seq::<char>::empty() };
    let d = if cr.black_queenside { seq!['q'] } else { Seq::<char>::empty() };
    let body = a + bq + c + d;
    let s = cr.fen_str_spec();
    assert forall|i: int| 0 <= i < body.len() implies
        (#[trigger] body[i] == 'K' && cr.white_kingside) || (body[i] == 'Q' && cr.white_queenside)
        || (body[i] == 'k' && cr.black_kingside) || (body[i] == 'q' && cr.black_queenside) by {
        if i < a.len() {
            assert(body[i] == a[i]);
        } else if i < a.len() + bq.len() {
            assert(body[i] == bq[i - a.len()]);
        } else if i < a.len() + bq.len() + c.len() {
            assert(body[i] == c[i - a.len() - bq.len()]);
        } else {
            assert(body[i] == d[i - a.len() - bq.len() - c.len()]);
        }
    }
    if body.len() == 0 {
        assert(s == seq!['-']);
        assert(!cr.white_kingside && !cr.white_queenside && !cr.black_kingside && !cr.black_queenside);
        assert(!s.contains('K') && !s.contains('Q') && !s.contains('k') && !s.contains('q'));
    } else {
        assert(s == body);
        if cr.white_kingside {
            assert(body[0] == 'K');
        }
        if cr.white_queenside {
            assert(body[a.len() as int] == 'Q');
        }
        if cr.black_kingside {
            assert(body[(a.len() + bq.len()) as int] == 'k');
        }
        if cr.black_queenside {
            assert(body[(a.len() + bq.len() + c.len()) as int] == 'q');
        }
    }
    lemma_bad_castling_none(s);
}

/// The en-passant field of a board reads back as its target square.
proof fn lemma_ep_reads_back(b: Board)
    requires
        b.wf(),
    ensures
        b.ep_spec().len() > 0,
        forall|i: int| 0 <= i < b.ep_spec().len() ==> !crate::text::is_ws(#[trigger] b.ep_spec()[i]),
        (b.ep_spec() == seq!['-']) == (b.en_passant is None),
        b.en_passant matches Some(e) ==> parse_square_spec(b.ep_spec()) == Some(e),
{
    match b.en_passant {
        Some(e) => {
            let r = (e / 8 + 1) as nat;
            assert(crate::text::decimal(r) == seq![crate::text::digit_char(r as int)]);
            let s = b.ep_spec();
            assert(s =~= seq![((97 + e % 8) as u32) as char, crate::text::digit_char(r as int)]);
            assert(s.len() == 2);
            assert(s != seq!['-']);
        },
        None => {},
    }
}

/// The characters of a rank's FEN are piece letters and digits.
proof fn lemma_rank_chars(b: Board, r: int, f: int, e: nat)
    requires
        e <= f <= 8,
    ensures
        forall|i: int| 0 <= i < b.rank_fen_from(r, f, e).len() ==> !crate::text::is_ws(#[trigger] b.rank_fen_from(r, f, e)[i]),
    decreases 8 - f,
{
    if f >= 8 {
        if e > 0 {
            assert(b.rank_fen_from(r, f, e) == seq![crate::text::digit_char(e as int)]);
            assert(crate::text::digit_char(e as int) as int == e + 48);
        }
    } else {
        match b.spec_piece_at(r * 8 + f) {
            None => {
                lemma_rank_chars(b, r, f + 1, e + 1);
                assert(b.rank_fen_from(r, f, e) == b.rank_fen_from(r, f + 1, e + 1));
            },
            Some(p) => {
                lemma_rank_chars(b, r, f + 1, 0);
                lemma_fen_char_round_trip(p);
                let run = Board::empty_run(e);
                let rest = b.rank_fen_from(r, f + 1, 0);
                let s = run + seq![p.spec_to_fen_char()] + rest;
                assert(b.rank_fen_from(r, f, e) == s);
                assert forall|i: int| 0 <= i < s.len() implies !crate::text::is_ws(#[trigger] s[i]) by {
                    if i >= run.len() + 1 {
                        assert(s[i] == rest[i - run.len() - 1]);
                    } else if i == run.len() {
                        assert(s[i] == p.spec_to_fen_char());
                    } else {
                        assert(s[i] == run[i]);
                        assert(run == seq![crate::text::digit_char(e as int)]);
                    }
                }
            },
        }
    }
}

/// The placement field has no whitespace, and it is not empty.
proof fn lemma_placement_chars(b: Board, r: int)
    requires
        0 <= r < 8,
    ensures
        forall|i: int| 0 <= i < b.placement_from(r).len() ==> !crate::text::is_ws(#[trigger] b.placement_from(r)[i]),
        r > 0 ==> b.placement_from(r).len() > 0,
    decreases r,
{
    lemma_rank_chars(b, r, 0, 0);
    if r > 0 {
        lemma_placement_chars(b, r - 1);
        let x = b.rank_fen_from(r, 0, 0);
        let y = b.placement_from(r - 1);
        let s = x + seq!['/'] + y;
        assert forall|i: int| 0 <= i < s.len() implies !crate::text::is_ws(#[trigger] s[i]) by {
            if i < x.len() {
                assert(s[i] == x[i]);
            } else if i > x.len() {
                assert(s[i] == y[i - x.len() - 1]);
            }
        }
    }
}

/// The words of a board's FEN are its six fields.
proof fn lemma_fen_words(b: Board)
    requires
        b.wf(),
    ensures
        crate::text::words(fen_string_spec(b)) == seq![
            b.placement_spec(),
            seq![b.side_to_move.spec_to_char()],
            b.castling_rights.fen_str_spec(),
            b.ep_spec(),
            crate::text::decimal(b.halfmove_clock as nat),
            crate::text::decimal(b.fullmove_number as nat),
        ],
{
    let p = b.placement_spec();
    let c = b.castling_rights.fen_str_spec();
    let e = b.ep_spec();
    let d1 = crate::text::decimal(b.halfmove_clock as nat);
    let d2 = crate::text::decimal(b.fullmove_number as nat);
    lemma_placement_chars(b, 7);
    lemma_castling_reads_back(b.castling_rights);
    lemma_ep_reads_back(b);
    crate::text::lemma_decimal_reads_back(b.halfmove_clock);
    crate::text::lemma_decimal_reads_back(b.fullmove_number);
    crate::text::lemma_six_words(p, b.side_to_move.spec_to_char(), c, e, d1, d2);
}

/// The FEN of a board reads back as the board's fields: its grid, side to
/// move, castling rights, en-passant target and clocks.
pub proof fn lemma_fen_reads_back(b: Board)
    requires
        b.wf(),
    ensures
        fen_spec(fen_string_spec(b)) == Ok::<(Seq<Option<Piece>>, Color, CastlingRights, Option<Square>, u32, u32), Seq<char>>(
            (grid_of(b), b.side_to_move, b.castling_rights, b.en_passant, b.halfmove_clock, b.fullmove_number)),
{
    lemma_fen_words(b);
    lemma_castling_reads_back(b.castling_rights);
    lemma_ep_reads_back(b);
    crate::text::lemma_decimal_reads_back(b.halfmove_clock);
    crate::text::lemma_decimal_reads_back(b.fullmove_number);
    lemma_placement_reads_back(b);
    let parts = crate::text::words(fen_string_spec(b));
    match b.side_to_move {
        Color::White => {
            assert(parts[1] =~= seq!['w']);
            assert(parts[1] != seq!['b']) by {
                assert(parts[1][0] != seq!['b'][0]);
            }
        },
        Color::Black => {
            assert(parts[1] =~= seq!['b']);
            assert(parts[1] != seq!['w']) by {
                assert(parts[1][0] != seq!['w'][0]);
            }
        },
    }
}

/// Each board reads back from its FEN, as long as no square is held by two
/// bitboards: `parse_fen(board_to_fen(b))` gives `b` again.
pub proof fn lemma_fen_round_trip(b: Board)
    requires
        b.wf(),
        disjoint(b),
    ensures
        fen_spec(fen_string_spec(b)) is Ok,
        fen_board(fen_string_spec(b)) == b,
{
    lemma_fen_reads_back(b);
    let f = fen_spec(fen_string_spec(b))->Ok_0;
    assert forall|c: int, p: int, t: int| 0 <= c < 2 && 0 <= p < 6 && 0 <= t < 64 implies
        (#[trigger] has_bit(b.bbv(c, p), t) <==> grid_of(b)[t] == Some(piece_of_slot(c * 6 + p))) by {
        let k = c * 6 + p;
        assert(b.slot(k) == b.bbv(c, p));
        if has_bit(b.bbv(c, p), t) {
            assert forall|i: int| 0 <= i < k implies !has_bit(b.slot(i), t) by {
                assert(!(has_bit(b.slot(i), t) && has_bit(b.slot(k), t)));
            }
            crate::board::lemma_piece_at_from_first(b, t, 0, k);
        }
        if grid_of(b)[t] == Some(piece_of_slot(k)) {
            let j = lemma_piece_at_source(b, t, 0);
            lemma_slot_injective(j, k);
        }
    }
    assert(board_matches(b, f));
    lemma_board_matches_unique(b, fen_board(fen_string_spec(b)), f);
}

/// The piece found on a square comes from a bitboard holding it.
pub proof fn lemma_piece_at_source(b: Board, t: int, k: int) -> (j: int)
    requires
        0 <= k <= 12,
        b.piece_at_from(t, k) is Some,
    ensures
        k <= j < 12,
        has_bit(b.slot(j), t),
        b.piece_at_from(t, k) == Some(piece_of_slot(j)),
    decreases 12 - k,
{
    if has_bit(b.slot(k), t) {
        k
    } else {
        lemma_piece_at_source(b, t, k + 1)
    }
}

proof fn lemma_slot_injective(j: int, k: int)
    requires
        0 <= j < 12,
        0 <= k < 12,
        piece_of_slot(j) == piece_of_slot(k),
    ensures
        j == k,
{
}

/// Where the bitboards of the starting position have their bits.
proof fn lemma_start_bits(t: u64)
    requires
        t < 64,
    ensures
        (0x000000000000FF00u64 >> t) & 1u64 == 1u64 ==> 8 <= t < 16,
        (0x0000000000000042u64 >> t) & 1u64 == 1u64 ==> (t == 1 || t == 6),
        (0x0000000000000024u64 >> t) & 1u64 == 1u64 ==> (t == 2 || t == 5),
        (0x0000000000000081u64 >> t) & 1u64 == 1u64 ==> (t == 0 || t == 7),
        (0x0000000000000008u64 >> t) & 1u64 == 1u64 ==> t == 3,
        (0x0000000000000010u64 >> t) & 1u64 == 1u64 ==> t == 4,
        (0x00FF000000000000u64 >> t) & 1u64 == 1u64 ==> 48 <= t < 56,
        (0x4200000000000000u64 >> t) & 1u64 == 1u64 ==> (t == 57 || t == 62),
        (0x2400000000000000u64 >> t) & 1u64 == 1u64 ==> (t == 58 || t == 61),
        (0x8100000000000000u64 >> t) & 1u64 == 1u64 ==> (t == 56 || t == 63),
        (0x0800000000000000u64 >> t) & 1u64 == 1u64 ==> t == 59,
        (0x1000000000000000u64 >> t) & 1u64 == 1u64 ==> t == 60,
{
    assert(
        ((0x000000000000FF00u64 >> t) & 1u64 == 1u64 ==> 8 <= t < 16)
        && ((0x0000000000000042u64 >> t) & 1u64 == 1u64 ==> (t == 1 || t == 6))
        && ((0x0000000000000024u64 >> t) & 1u64 == 1u64 ==> (t == 2 || t == 5))
        && ((0x0000000000000081u64 >> t) & 1u64 == 1u64 ==> (t == 0 || t == 7))
        && ((0x0000000000000008u64 >> t) & 1u64 == 1u64 ==> t == 3)
        && ((0x0000000000000010u64 >> t) & 1u64 == 1u64 ==> t == 4)
        && ((0x00FF000000000000u64 >> t) & 1u64 == 1u64 ==> 48 <= t < 56)
        && ((0x4200000000000000u64 >> t) & 1u64 == 1u64 ==> (t == 57 || t == 62))
        && ((0x2400000000000000u64 >> t) & 1u64 == 1u64 ==> (t == 58 || t == 61))
        && ((0x8100000000000000u64 >> t) & 1u64 == 1u64 ==> (t == 56 || t == 63))
        && ((0x0800000000000000u64 >> t) & 1u64 == 1u64 ==> t == 59)
        && ((0x1000000000000000u64 >> t) & 1u64 == 1u64 ==> t == 60)
    ) by (bit_vector)
        requires
            t < 64,
    ;
}

/// No square of the starting position is held by two bitboards.
pub proof fn lemma_start_disjoint()
    ensures
        disjoint(starting_board()),
        starting_board().wf(),
{
    let b = starting_board();
    assert forall|t: int, j: int, k: int| 0 <= j < k < 12 implies !(#[trigger] has_bit(b.slot(j), t) && #[trigger] has_bit(b.slot(k), t)) by {
        if 0 <= t < 64 {
            lemma_start_bits(t as u64);
        }
    }
}

/// The starting position reads back from its FEN.
pub proof fn lemma_start_round_trip()
    ensures
        fen_spec(fen_string_spec(starting_board())) is Ok,
        fen_board(fen_string_spec(starting_board())) == starting_board(),
{
    lemma_start_disjoint();
    lemma_fen_round_trip(starting_board());
}

proof fn lemma_rank_len(b: Board, r: int, f: int, e: nat)
    requires
        e <= f <= 8,
    ensures
        b.rank_fen_from(r, f, e).len() <= 8 - f + (if e > 0 { 1int } else { 0int }),
    decreases 8 - f,
{
    if f < 8 {
        match b.spec_piece_at(r * 8 + f) {
            None => lemma_rank_len(b, r, f + 1, e + 1),
            Some(p) => lemma_rank_len(b, r, f + 1, 0),
        }
    }
}

proof fn lemma_placement_len(b: Board, r: int)
    requires
        0 <= r < 8,
    ensures
        b.placement_from(r).len() <= 9 * (r + 1),
    decreases r,
{
    lemma_rank_len(b, r, 0, 0);
    if r > 0 {
        lemma_placement_len(b, r - 1);
    }
}

/// Ten to the power `k`.
pub open spec fn pow10(k: nat) -> nat
    decreases k,
{
    if k == 0 { 1 } else { 10 * pow10((k - 1) as nat) }
}

proof fn lemma_decimal_len(n: nat, k: nat)
    requires
        k >= 1,
        n < pow10(k),
    ensures
        crate::text::decimal(n).len() <= k,
    decreases k,
{
    if n >= 10 {
        assert(k >= 2) by {
            if k == 1 {
                assert(pow10(1) == 10 * pow10(0));
            }
        }
        assert(n / 10 < pow10((k - 1) as nat));
        lemma_decimal_len(n / 10, (k - 1) as nat);
    }
}

/// A board's FEN is a short text.
pub proof fn lemma_fen_len(b: Board)
    requires
        b.wf(),
    ensures
        fen_string_spec(b).len() <= 120,
{
    lemma_placement_len(b, 7);
    assert(pow10(10) == 10000000000nat) by {
        reveal_with_fuel(pow10, 11);
    }
    lemma_decimal_len(b.halfmove_clock as nat, 10);
    lemma_decimal_len(b.fullmove_number as nat, 10);
    lemma_ep_reads_back(b);
    if let Some(e) = b.en_passant {
        assert(crate::text::decimal((e / 8 + 1) as nat) == seq![crate::text::digit_char(e / 8 + 1)]);
    }
    assert(b.castling_rights.fen_str_spec().len() <= 4);
}

} // verus!
