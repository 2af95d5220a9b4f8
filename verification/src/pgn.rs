//! Standard Algebraic Notation and Portable Game Notation.
use vstd::prelude::*;
use crate::attacks::{in_check_spec, is_in_check};
use crate::board::Board;
use crate::movegen::{
    all_ok, apply_move, apply_ok, apply_spec, generate_legal_moves, legal_moves_spec, move_ok, playable,
};
use crate::text::{
    decimal, push_chars, push_decimal, u32_to_string,
    chars_eq_str, chars_of, copy_range, find_char, first_index_of, lines_spec, push_char, split_lines,
    split_whitespace, string_from_chars, trim_annotation_marks, trim_annotations, trim_char, trim_matching,
    trim_whitespace, trim_ws, words,
};
use crate::fen::{fen_board, fen_spec, parse_fen};
use crate::types::{ChessError, Color, file_of, push_square_name, rank_of, square_name_spec, Move, MoveFlag, Piece, PieceType};

verus! {

/// The file letter of a square.
pub open spec fn file_char(sq: int) -> char {
    ((97 + sq % 8) as u32) as char
}

/// The rank digit of a square.
pub open spec fn rank_char(sq: int) -> char {
    ((49 + sq / 8) as u32) as char
}

/// `m` is another move of a piece of type `pt` to the target of `mv`.
pub open spec fn rival(b: Board, mv: Move, pt: PieceType, m: Move) -> bool {
    &&& m.to == mv.to
    &&& m.from != mv.from
    &&& b.spec_piece_at(m.from as int) matches Some(p) && p.piece_type == pt
}

/// Some legal move is a rival of `mv`.
pub open spec fn any_rival(b: Board, mv: Move, pt: PieceType) -> bool {
    let l = legal_moves_spec(b);
    exists|i: int| 0 <= i < l.len() && #[trigger] rival(b, mv, pt, l[i])
}

/// Some rival of `mv` starts on the same file as `mv`.
pub open spec fn rival_same_file(b: Board, mv: Move, pt: PieceType) -> bool {
    let l = legal_moves_spec(b);
    exists|i: int| 0 <= i < l.len() && #[trigger] rival(b, mv, pt, l[i]) && l[i].from % 8 == mv.from % 8
}

/// Some rival of `mv` starts on the same rank as `mv`.
pub open spec fn rival_same_rank(b: Board, mv: Move, pt: PieceType) -> bool {
    let l = legal_moves_spec(b);
    exists|i: int| 0 <= i < l.len() && #[trigger] rival(b, mv, pt, l[i]) && l[i].from / 8 == mv.from / 8
}

/// The disambiguation of a piece move: nothing when no other legal move of
/// the same piece type reaches the same square, else the source file if that
/// tells them apart, else the source rank, else both.
pub open spec fn disambiguation(b: Board, mv: Move, pt: PieceType) -> Seq<char> {
    if !any_rival(b, mv, pt) {
        Seq::empty()
    } else if !rival_same_file(b, mv, pt) {
        seq![file_char(mv.from as int)]
    } else if !rival_same_rank(b, mv, pt) {
        seq![rank_char(mv.from as int)]
    } else {
        seq![file_char(mv.from as int), rank_char(mv.from as int)]
    }
}

/// `+` when the move gives check and the opponent can reply, `#` when it
/// gives check and the opponent cannot, nothing otherwise.
pub open spec fn check_suffix(b: Board, mv: Move) -> Seq<char> {
    let nb = apply_spec(b, mv);
    if in_check_spec(nb, nb.side_to_move) {
        if legal_moves_spec(nb).len() > 0 { seq!['+'] } else { seq!['#'] }
    } else {
        Seq::empty()
    }
}

/// The SAN of `mv` on `b` for the piece `piece` standing on its source square.
pub open spec fn piece_san(b: Board, mv: Move, piece: Piece) -> Seq<char> {
    let pt = piece.piece_type;
    let letter = if pt != PieceType::Pawn { seq![pt.spec_to_char()] } else { Seq::empty() };
    let dis = if pt != PieceType::Pawn { disambiguation(b, mv, pt) } else { Seq::empty() };
    let capture = b.spec_piece_at(mv.to as int) is Some || mv.flag == MoveFlag::EnPassant;
    let cap = if capture {
        (if pt == PieceType::Pawn { seq![file_char(mv.from as int)] } else { Seq::empty() }) + seq!['x']
    } else {
        Seq::empty()
    };
    let promo = match mv.flag {
        MoveFlag::Promotion(p) => seq!['=', p.spec_to_char()],
        _ => Seq::empty(),
    };
    letter + dis + cap + square_name_spec(mv.to as int) + promo + check_suffix(b, mv)
}

/// Standard Algebraic Notation of `mv` on `b`: `O-O` / `O-O-O` for castling;
/// otherwise piece letter, disambiguation, capture mark, target square,
/// promotion and check mark. A move from an empty square is written in UCI.
pub open spec fn san_spec(b: Board, mv: Move) -> Seq<char> {
    if mv.flag == MoveFlag::CastleKingside {
        "O-O"@
    } else if mv.flag == MoveFlag::CastleQueenside {
        "O-O-O"@
    } else {
        match b.spec_piece_at(mv.from as int) {
            None => mv.uci_spec(),
            Some(piece) => piece_san(b, mv, piece),
        }
    }
}

/// `mv` can be written in SAN on `b`: moves can be generated on `b` and on
/// the board after `mv`, and `mv` fits the board.
pub open spec fn san_ready(b: Board, mv: Move) -> bool {
    &&& playable(b)
    &&& apply_ok(b, mv)
    &&& playable(apply_spec(b, mv))
}

/// A board whose clocks leave room for two more plies.
pub open spec fn roomy(b: Board) -> bool {
    &&& b.wf()
    &&& b.halfmove_clock < u32::MAX - 1
    &&& b.fullmove_number < u32::MAX - 1
}

/// On a board with clock room, any move that fits can be written in SAN.
pub proof fn lemma_roomy_san_ready(b: Board, mv: Move)
    requires
        roomy(b),
        move_ok(b.side_to_move, mv),
    ensures
        san_ready(b, mv),
{
}

fn push_file_rank(s: &mut String, sq: u8, file: bool, rank: bool)
    requires
        sq < 64,
    ensures
        final(s)@ == old(s)@ + (if file { seq![file_char(sq as int)] } else { Seq::empty() })
            + (if rank { seq![rank_char(sq as int)] } else { Seq::empty() }),
{
    if file {
        push_char(s, (97u8 + file_of(sq)) as char);
    }
    let ghost mid = s@;
    if rank {
        push_char(s, (49u8 + rank_of(sq)) as char);
    }
    assert(final(s)@ =~= old(s)@ + (if file { seq![file_char(sq as int)] } else { Seq::empty() })
        + (if rank { seq![rank_char(sq as int)] } else { Seq::empty() }));
}

/// Which rivals `mv` has among the legal moves: (any, one on the same
/// file, one on the same rank).
fn rivals_of(board: &Board, mv: &Move, pt: PieceType) -> (r: (bool, bool, bool))
    requires
        playable(*board),
        mv.from < 64,
    ensures
        r.0 == any_rival(*board, *mv, pt),
        r.1 == rival_same_file(*board, *mv, pt),
        r.2 == rival_same_rank(*board, *mv, pt),
{
    let ghost b = *board;
    let legal = generate_legal_moves(board);
    let ghost l = legal_moves_spec(b);
    let mut any = false;
    let mut same_file = false;
    let mut same_rank = false;
    let mut i: usize = 0;
    while i < legal.len()
        invariant
            b == *board,
            legal@ == l,
            l == legal_moves_spec(b),
            all_ok(b.side_to_move, l),
            i <= l.len(),
            mv.from < 64,
            any == exists|j: int| 0 <= j < i && #[trigger] rival(b, *mv, pt, l[j]),
            same_file == exists|j: int| 0 <= j < i && #[trigger] rival(b, *mv, pt, l[j]) && l[j].from % 8 == mv.from % 8,
            same_rank == exists|j: int| 0 <= j < i && #[trigger] rival(b, *mv, pt, l[j]) && l[j].from / 8 == mv.from / 8,
        decreases l.len() - i,
    {
        let m = legal[i];
        assert(move_ok(b.side_to_move, l[i as int]));
        let is_rival = m.to == mv.to && m.from != mv.from && match board.piece_at(m.from) {
            Some(p) => p.piece_type == pt,
            None => false,
        };
        assert(is_rival == rival(b, *mv, pt, l[i as int]));
        if is_rival {
            any = true;
            if file_of(m.from) == file_of(mv.from) {
                same_file = true;
            }
            if rank_of(m.from) == rank_of(mv.from) {
                same_rank = true;
            }
        }
        i = i + 1;
    }
    (any, same_file, same_rank)
}

/// Appends the check mark of `mv`, if any.
fn push_check_suffix(board: &Board, mv: &Move, san: &mut String)
    requires
        san_ready(*board, *mv),
    ensures
        final(san)@ == old(san)@ + check_suffix(*board, *mv),
{
    let new_board = apply_move(board, mv);
    if is_in_check(&new_board, new_board.side_to_move) {
        let replies = generate_legal_moves(&new_board);
        if replies.len() > 0 {
            push_char(san, '+');
        } else {
            push_char(san, '#');
        }
    }
    assert(final(san)@ =~= old(san)@ + check_suffix(*board, *mv));
}

/// Converts a `Move` to Standard Algebraic Notation (SAN).
///
/// Disambiguation suffixes (file, rank, or both) are added only when required
/// to distinguish between two or more legal moves that land on the same square
/// with the same piece type.
#[verifier::spinoff_prover]
#[verifier::rlimit(40)]
pub fn move_to_san(board: &Board, mv: &Move) -> (san: String)
    requires
        san_ready(*board, *mv),
    ensures
        san@ == san_spec(*board, *mv),
{
    if mv.flag == MoveFlag::CastleKingside {
        return String::from_str("O-O");
    }
    if mv.flag == MoveFlag::CastleQueenside {
        return String::from_str("O-O-O");
    }
    let piece = match board.piece_at(mv.from) {
        Some(p) => p,
        None => return mv.to_uci(),
    };
    let pt = piece.piece_type;
    let mut san = String::new();
    let ghost b = *board;

    if pt != PieceType::Pawn {
        push_char(&mut san, pt.to_char());
        let (any, same_file, same_rank) = rivals_of(board, mv, pt);
        if any {
            if !same_file {
                push_file_rank(&mut san, mv.from, true, false);
            } else if !same_rank {
                push_file_rank(&mut san, mv.from, false, true);
            } else {
                push_file_rank(&mut san, mv.from, true, true);
            }
        }
    }
    let ghost head = san@;
    assert(head =~= (if pt != PieceType::Pawn { seq![pt.spec_to_char()] } else { Seq::empty() })
        + (if pt != PieceType::Pawn { disambiguation(b, *mv, pt) } else { Seq::empty() }));

    let is_capture = board.piece_at(mv.to).is_some() || mv.flag == MoveFlag::EnPassant;
    if is_capture {
        if pt == PieceType::Pawn {
            push_file_rank(&mut san, mv.from, true, false);
        }
        push_char(&mut san, 'x');
    }
    push_square_name(&mut san, mv.to);
    if let MoveFlag::Promotion(p) = mv.flag {
        push_char(&mut san, '=');
        push_char(&mut san, p.to_char());
    }
    push_check_suffix(board, mv, &mut san);
    assert(san@ =~= piece_san(b, *mv, piece));
    san
}

/// Reading state of the comment stripper after `s`: open brace depth, the
/// text kept, and whether a `;` has ended the line.
pub open spec fn comment_fold(s: Seq<char>) -> (nat, Seq<char>, bool)
    decreases s.len(),
{
    if s.len() == 0 {
        (0, Seq::empty(), false)
    } else {
        let (depth, out, stopped) = comment_fold(s.drop_last());
        let c = s.last();
        if stopped {
            (depth, out, stopped)
        } else if c == '{' {
            ((depth + 1) as nat, out, false)
        } else if c == '}' && depth > 0 {
            ((depth - 1) as nat, out, false)
        } else if c == ';' {
            (depth, out, true)
        } else if depth == 0 {
            (depth, out.push(c), false)
        } else {
            (depth, out, false)
        }
    }
}

/// A PGN line without its `{...}` comments and without what follows a `;`.
pub open spec fn strip_comments_spec(s: Seq<char>) -> Seq<char> {
    comment_fold(s).1
}

/// Removes `{...}` and `;` line comments from a PGN line.
pub fn strip_pgn_comments(s: &[char]) -> (r: Vec<char>)
    ensures
        r@ == strip_comments_spec(s@),
{
    let mut result: Vec<char> = Vec::new();
    let mut depth: usize = 0;
    let mut i: usize = 0;
    while i < s.len()
        invariant
            i <= s@.len(),
            depth <= i,
            comment_fold(s@.subrange(0, i as int)) == (depth as nat, result@, false),
        decreases s@.len() - i,
    {
        let c = s[i];
        let ghost post = s@.subrange(0, i + 1);
        assert(post.drop_last() =~= s@.subrange(0, i as int));
        assert(post.last() == c);
        if c == '{' {
            depth = depth + 1;
        } else if c == '}' && depth > 0 {
            depth = depth - 1;
        } else if c == ';' {
            proof {
                lemma_comment_stop(s@, i + 1);
            }
            return result;
        } else if depth == 0 {
            result.push(c);
        }
        i = i + 1;
    }
    assert(s@.subrange(0, s@.len() as int) =~= s@);
    result
}

/// After a `;`, the comment stripper keeps what it had.
proof fn lemma_comment_stop(s: Seq<char>, k: int)
    requires
        0 <= k <= s.len(),
        comment_fold(s.subrange(0, k)).2,
    ensures
        comment_fold(s).1 == comment_fold(s.subrange(0, k)).1,
        comment_fold(s).2,
    decreases s.len() - k,
{
    if k < s.len() {
        assert(s.subrange(0, k + 1).drop_last() =~= s.subrange(0, k));
        lemma_comment_stop(s, k + 1);
    } else {
        assert(s.subrange(0, k) =~= s);
    }
}

/// Stripping comments never keeps a `;` or a `{`: a `;` outside braces ends
/// the line and braces open comments.
pub proof fn lemma_strip_keeps_no_comment_marks(s: Seq<char>)
    ensures
        forall|i: int| 0 <= i < strip_comments_spec(s).len() ==> #[trigger] strip_comments_spec(s)[i] != ';'
            && strip_comments_spec(s)[i] != '{',
    decreases s.len(),
{
    if s.len() > 0 {
        let s0 = s.drop_last();
        lemma_strip_keeps_no_comment_marks(s0);
        let (depth, out, stopped) = comment_fold(s0);
        let c = s.last();
        assert(out == strip_comments_spec(s0));
        if !stopped && c != '{' && !(c == '}' && depth > 0) && c != ';' && depth == 0 {
            assert(strip_comments_spec(s) == out.push(c));
            assert forall|i: int| 0 <= i < out.push(c).len() implies #[trigger] out.push(c)[i] != ';'
                && out.push(c)[i] != '{' by {
                if i < out.len() {
                    assert(out.push(c)[i] == strip_comments_spec(s0)[i]);
                }
            }
        } else {
            assert(strip_comments_spec(s) == out);
        }
    }
}

/// Text before a `;` that opens no comment is kept, and everything from the
/// `;` to the end of the line is dropped.
pub proof fn lemma_strip_line_comment(a: Seq<char>, c: Seq<char>)
    requires
        forall|i: int| 0 <= i < a.len() ==> #[trigger] a[i] != '{' && a[i] != '}' && a[i] != ';',
    ensures
        strip_comments_spec(a + seq![';'] + c) == a,
{
    lemma_fold_plain(a);
    let x = a + seq![';'];
    assert(x.drop_last() =~= a);
    assert(comment_fold(x) == (0nat, a, true));
    let s = x + c;
    assert(s.subrange(0, x.len() as int) =~= x);
    lemma_comment_stop(s, x.len() as int);
}

/// A `;` ends the line, inside braces too: nothing after it is kept, so
/// the line strips to what the text before the `;` strips to.
pub proof fn lemma_strip_stops_at_semicolon(a: Seq<char>, c: Seq<char>)
    ensures
        strip_comments_spec(a + seq![';'] + c) == strip_comments_spec(a),
{
    let x = a + seq![';'];
    assert(x.drop_last() =~= a);
    assert(x.last() == ';');
    assert(comment_fold(x).2);
    assert(comment_fold(x).1 == comment_fold(a).1);
    let s = x + c;
    assert(s.subrange(0, x.len() as int) =~= x);
    lemma_comment_stop(s, x.len() as int);
}

/// The stripper reads on from the state it has reached: texts that leave it
/// in one state lead it to one state after the same text.
proof fn lemma_fold_same_state(u: Seq<char>, v: Seq<char>, c: Seq<char>)
    requires
        comment_fold(u) == comment_fold(v),
    ensures
        comment_fold(u + c) == comment_fold(v + c),
    decreases c.len(),
{
    if c.len() > 0 {
        lemma_fold_same_state(u, v, c.drop_last());
        assert((u + c).drop_last() =~= u + c.drop_last());
        assert((v + c).drop_last() =~= v + c.drop_last());
        assert((u + c).last() == c.last());
        assert((v + c).last() == c.last());
    }
}

/// Inside braces, text with no brace and no `;` changes nothing.
proof fn lemma_fold_in_comment(u: Seq<char>, x: Seq<char>)
    requires
        comment_fold(u).0 > 0,
        !comment_fold(u).2,
        forall|i: int| 0 <= i < x.len() ==> #[trigger] x[i] != '{' && x[i] != '}' && x[i] != ';',
    ensures
        comment_fold(u + x) == comment_fold(u),
    decreases x.len(),
{
    if x.len() > 0 {
        let x0 = x.drop_last();
        assert forall|i: int| 0 <= i < x0.len() implies #[trigger] x0[i] != '{' && x0[i] != '}' && x0[i] != ';' by {
            assert(x0[i] == x[i]);
        }
        lemma_fold_in_comment(u, x0);
        assert((u + x).drop_last() =~= u + x0);
        assert((u + x).last() == x[x.len() - 1]);
    }
}

/// A `{...}` comment, opened outside braces, is dropped with its text: the
/// line strips as if it were not there.
pub proof fn lemma_strip_drops_brace_comment(a: Seq<char>, x: Seq<char>, c: Seq<char>)
    requires
        comment_fold(a).0 == 0,
        !comment_fold(a).2,
        forall|i: int| 0 <= i < x.len() ==> #[trigger] x[i] != '{' && x[i] != '}' && x[i] != ';',
    ensures
        strip_comments_spec(a + seq!['{'] + x + seq!['}'] + c) == strip_comments_spec(a + c),
{
    let u = a + seq!['{'];
    assert(u.drop_last() =~= a);
    assert(u.last() == '{');
    assert(comment_fold(u) == (1nat, comment_fold(a).1, false));
    lemma_fold_in_comment(u, x);
    let w = u + x + seq!['}'];
    assert(w.drop_last() =~= u + x);
    assert(w.last() == '}');
    assert(comment_fold(w) == comment_fold(a));
    lemma_fold_same_state(w, a, c);
    assert(a + seq!['{'] + x + seq!['}'] + c =~= w + c);
}

proof fn lemma_fold_plain(a: Seq<char>)
    requires
        forall|i: int| 0 <= i < a.len() ==> #[trigger] a[i] != '{' && a[i] != '}' && a[i] != ';',
    ensures
        comment_fold(a) == (0nat, a, false),
    decreases a.len(),
{
    if a.len() > 0 {
        let a0 = a.drop_last();
        assert forall|i: int| 0 <= i < a0.len() implies #[trigger] a0[i] != '{' && a0[i] != '}' && a0[i] != ';' by {
            assert(a0[i] == a[i]);
        }
        lemma_fold_plain(a0);
        assert(a[a.len() - 1] == a.last());
        assert(a0.push(a.last()) =~= a);
    }
}

/// A move token is kept unless it is empty, a move number (ends with `.`)
/// or a result token.
pub open spec fn keep_token(t: Seq<char>) -> bool {
    &&& t.len() > 0
    &&& t.last() != '.'
    &&& t != "1-0"@
    &&& t != "0-1"@
    &&& t != "1/2-1/2"@
    &&& t != "*"@
}

/// The move tokens among the words `ws`, each without its annotation marks.
pub open spec fn move_tokens(ws: Seq<Seq<char>>) -> Seq<Seq<char>>
    decreases ws.len(),
{
    if ws.len() == 0 {
        Seq::empty()
    } else {
        let rest = move_tokens(ws.drop_last());
        let t = trim_annotations(ws.last());
        if keep_token(t) { rest.push(t) } else { rest }
    }
}

/// The tag of a line `[Name value]`: the name runs to the first space, the
/// value is the rest with its surrounding quotes removed.
pub open spec fn tag_of(line: Seq<char>) -> Option<(Seq<char>, Seq<char>)> {
    if line.len() >= 2 && line.last() == ']' {
        let inner = line.subrange(1, line.len() - 1);
        match first_index_of(inner, ' ') {
            Some(k) => Some((inner.subrange(0, k), trim_char(inner.subrange(k + 1, inner.len() as int), '"'))),
            None => None,
        }
    } else {
        None
    }
}

/// One PGN line read in state (in the tag section, tags, move tokens).
pub open spec fn pgn_step(st: (bool, Seq<(Seq<char>, Seq<char>)>, Seq<Seq<char>>), raw: Seq<char>) -> (bool, Seq<(Seq<char>, Seq<char>)>, Seq<Seq<char>>) {
    let (in_tags, tags, moves) = st;
    let line = trim_ws(raw);
    if line.len() == 0 {
        (false, tags, moves)
    } else if line[0] == '[' && in_tags {
        (true, match tag_of(line) { Some(t) => tags.push(t), None => tags }, moves)
    } else {
        (false, tags, moves + move_tokens(words(strip_comments_spec(line))))
    }
}

pub open spec fn pgn_fold(lines: Seq<Seq<char>>) -> (bool, Seq<(Seq<char>, Seq<char>)>, Seq<Seq<char>>)
    decreases lines.len(),
{
    if lines.len() == 0 {
        (true, Seq::empty(), Seq::empty())
    } else {
        pgn_step(pgn_fold(lines.drop_last()), lines.last())
    }
}

/// The tag pairs and move tokens of a PGN text.
pub open spec fn parse_pgn_spec(s: Seq<char>) -> (Seq<(Seq<char>, Seq<char>)>, Seq<Seq<char>>) {
    let st = pgn_fold(lines_spec(s));
    (st.1, st.2)
}

fn is_result_token(t: &[char]) -> (b: bool)
    ensures
        b == (t@ == "1-0"@ || t@ == "0-1"@ || t@ == "1/2-1/2"@ || t@ == "*"@),
{
    chars_eq_str(t, "1-0") || chars_eq_str(t, "0-1") || chars_eq_str(t, "1/2-1/2") || chars_eq_str(t, "*")
}

/// Appends the move tokens of the words `ws` to `moves`.
fn push_move_tokens(ws: &Vec<Vec<char>>, moves: &mut Vec<String>)
    ensures
        final(moves).deep_view() == old(moves).deep_view() + move_tokens(ws.deep_view()),
{
    let mut i: usize = 0;
    let ghost wv = ws.deep_view();
    assert(wv.subrange(0, 0) =~= Seq::<Seq<char>>::empty());
    while i < ws.len()
        invariant
            i <= ws@.len(),
            wv == ws.deep_view(),
            moves.deep_view() == old(moves).deep_view() + move_tokens(wv.subrange(0, i as int)),
        decreases ws@.len() - i,
    {
        let t = trim_annotation_marks(ws[i].as_slice());
        let ghost pre = wv.subrange(0, i as int);
        let ghost post = wv.subrange(0, i + 1);
        assert(post.drop_last() =~= pre);
        assert(post.last() == ws[i as int]@);
        let keep = t.len() > 0 && t[t.len() - 1] != '.' && !is_result_token(t.as_slice());
        assert(keep == keep_token(t@));
        if keep {
            let ghost before = moves.deep_view();
            let st = string_from_chars(t.as_slice());
            moves.push(st);
            assert(moves.deep_view() =~= before.push(t@));
            assert(old(moves).deep_view() + move_tokens(pre).push(t@) =~= old(moves).deep_view() + move_tokens(post));
        }
        i = i + 1;
    }
    assert(wv.subrange(0, wv.len() as int) =~= wv);
}

/// Reads a tag line `[Name "value"]`.
fn read_tag(line: &[char]) -> (r: Option<(String, String)>)
    ensures
        match tag_of(line@) {
            Some(t) => r matches Some(p) && p.0@ == t.0 && p.1@ == t.1,
            None => r is None,
        },
{
    if line.len() < 2 || line[line.len() - 1] != ']' {
        return None;
    }
    let inner = copy_range(line, 1, line.len() - 1);
    match find_char(inner.as_slice(), ' ') {
        Some(k) => {
            let key = copy_range(inner.as_slice(), 0, k);
            let rest = copy_range(inner.as_slice(), k + 1, inner.len());
            let val = trim_matching(rest.as_slice(), '"');
            Some((string_from_chars(key.as_slice()), string_from_chars(val.as_slice())))
        },
        None => None,
    }
}

/// Parses a PGN string and returns the tag pairs and the move tokens.
pub fn parse_pgn(pgn: &str) -> (res: Result<(Vec<(String, String)>, Vec<String>), crate::types::ChessError>)
    ensures
        res matches Ok(r) && r.0.deep_view() == parse_pgn_spec(pgn@).0 && r.1.deep_view() == parse_pgn_spec(pgn@).1,
{
    let chars = chars_of(pgn);
    let lines = split_lines(chars.as_slice());
    let ghost lv = lines.deep_view();
    let mut tags: Vec<(String, String)> = Vec::new();
    let mut moves: Vec<String> = Vec::new();
    let mut in_tags = true;
    let mut i: usize = 0;
    assert(lv.subrange(0, 0) =~= Seq::<Seq<char>>::empty());
    assert(tags.deep_view() =~= Seq::<(Seq<char>, Seq<char>)>::empty());
    assert(moves.deep_view() =~= Seq::<Seq<char>>::empty());
    while i < lines.len()
        invariant
            i <= lines@.len(),
            lv == lines.deep_view(),
            lv == lines_spec(pgn@),
            pgn_fold(lv.subrange(0, i as int)) == (in_tags, tags.deep_view(), moves.deep_view()),
        decreases lines@.len() - i,
    {
        let ghost pre = lv.subrange(0, i as int);
        let ghost post = lv.subrange(0, i + 1);
        assert(post.drop_last() =~= pre);
        assert(post.last() == lines[i as int]@);
        let line = trim_whitespace(lines[i].as_slice());
        if line.len() == 0 {
            in_tags = false;
        } else if line[0] == '[' && in_tags {
            match read_tag(line.as_slice()) {
                Some(t) => {
                    let ghost before = tags.deep_view();
                    let ghost tv = (t.0@, t.1@);
                    tags.push(t);
                    assert(tags.deep_view() =~= before.push(tv));
                },
                None => {},
            }
        } else {
            in_tags = false;
            let stripped = strip_pgn_comments(line.as_slice());
            let ws = split_whitespace(stripped.as_slice());
            push_move_tokens(&ws, &mut moves);
        }
        i = i + 1;
    }
    assert(lv.subrange(0, lv.len() as int) =~= lv);
    Ok((tags, moves))
}

/// The text of one tag pair: `[Name "value"]` and a line break.
pub open spec fn tag_text(name: Seq<char>, value: Seq<char>) -> Seq<char> {
    seq!['['] + name + seq![' ', '"'] + value + seq!['"', ']', '\n']
}

/// The tag section: every tag pair in order.
pub open spec fn tags_text(tags: Seq<(Seq<char>, Seq<char>)>) -> Seq<char>
    decreases tags.len(),
{
    if tags.len() == 0 {
        Seq::empty()
    } else {
        tags_text(tags.drop_last()) + tag_text(tags.last().0, tags.last().1)
    }
}

/// The result token: the value of the first `Result` tag, or `*`.
pub open spec fn result_token(tags: Seq<(Seq<char>, Seq<char>)>) -> Seq<char>
    decreases tags.len(),
{
    if tags.len() == 0 {
        "*"@
    } else if tags[0].0 == "Result"@ {
        tags[0].1
    } else {
        result_token(tags.drop_first())
    }
}

/// The move number written before a move on `b`: `N. ` before White's
/// moves, and `N... ` before a first move by Black.
pub open spec fn number_prefix(b: Board, first: bool) -> Seq<char> {
    if first && b.side_to_move == Color::Black {
        decimal(b.fullmove_number as nat) + seq!['.', '.', '.', ' ']
    } else if b.side_to_move == Color::White {
        decimal(b.fullmove_number as nat) + seq!['.', ' ']
    } else {
        Seq::empty()
    }
}

/// The movetext of `mvs` played from `b`: each move in SAN followed by a
/// space, with the move numbers.
pub open spec fn movetext(b: Board, mvs: Seq<Move>, first: bool) -> Seq<char>
    decreases mvs.len(),
{
    if mvs.len() == 0 {
        Seq::empty()
    } else {
        number_prefix(b, first) + san_spec(b, mvs[0]) + seq![' '] + movetext(apply_spec(b, mvs[0]), mvs.drop_first(), false)
    }
}

/// Every move of `mvs`, played in turn from `b`, can be written in SAN.
pub open spec fn history_ok(b: Board, mvs: Seq<Move>) -> bool
    decreases mvs.len(),
{
    mvs.len() == 0 || (san_ready(b, mvs[0]) && history_ok(apply_spec(b, mvs[0]), mvs.drop_first()))
}

/// The moves of a history of (move, SAN) entries.
pub open spec fn history_moves(h: Seq<(Move, String)>) -> Seq<Move> {
    h.map_values(|e: (Move, String)| e.0)
}

/// The tag pairs as text.
pub open spec fn tag_views(tags: Seq<(&str, &str)>) -> Seq<(Seq<char>, Seq<char>)> {
    tags.map_values(|t: (&str, &str)| (t.0@, t.1@))
}

/// A PGN text: the tag section, an empty line, the movetext and the result
/// token.
pub open spec fn pgn_text(b: Board, mvs: Seq<Move>, tags: Seq<(Seq<char>, Seq<char>)>) -> Seq<char> {
    tags_text(tags) + seq!['\n'] + movetext(b, mvs, true) + result_token(tags)
}

/// Appends the move number (if one is due) and the SAN of `mv` with a space.
fn push_move_entry(pgn: &mut String, board: &Board, mv: &Move, first: bool)
    requires
        san_ready(*board, *mv),
    ensures
        final(pgn)@ == old(pgn)@ + number_prefix(*board, first) + san_spec(*board, *mv) + seq![' '],
{
    if first && board.side_to_move == Color::Black {
        push_decimal(pgn, board.fullmove_number);
        push_char(pgn, '.');
        push_char(pgn, '.');
        push_char(pgn, '.');
        push_char(pgn, ' ');
    } else if board.side_to_move == Color::White {
        push_decimal(pgn, board.fullmove_number);
        push_char(pgn, '.');
        push_char(pgn, ' ');
    }
    let ghost mid = pgn@;
    assert(mid =~= old(pgn)@ + number_prefix(*board, first));
    let san = move_to_san(board, mv);
    pgn.append(san.as_str());
    push_char(pgn, ' ');
    assert(final(pgn)@ =~= mid + san_spec(*board, *mv) + seq![' ']);
}

/// Writes the movetext of moves played in turn from `start_board`: the move
/// numbers and each move in SAN, each followed by a space.
pub fn write_movetext(start_board: &Board, move_history: &[(Move, String)]) -> (s: String)
    requires
        history_ok(*start_board, history_moves(move_history@)),
    ensures
        s@ == movetext(*start_board, history_moves(move_history@), true),
{
    let ghost mvs = history_moves(move_history@);
    let mut pgn = String::new();
    let mut board = *start_board;
    let mut i: usize = 0;
    assert(mvs.subrange(0, mvs.len() as int) =~= mvs);
    assert(Seq::<char>::empty() + movetext(*start_board, mvs, true) =~= movetext(*start_board, mvs, true));
    while i < move_history.len()
        invariant
            i <= move_history@.len(),
            mvs == history_moves(move_history@),
            mvs.len() == move_history@.len(),
            history_ok(board, mvs.subrange(i as int, mvs.len() as int)),
            pgn@ + movetext(board, mvs.subrange(i as int, mvs.len() as int), i == 0)
                == movetext(*start_board, mvs, true),
        decreases move_history@.len() - i,
    {
        let mv = move_history[i].0;
        let ghost rest = mvs.subrange(i as int, mvs.len() as int);
        assert(rest[0] == mv);
        assert(rest.drop_first() =~= mvs.subrange(i + 1, mvs.len() as int));
        let ghost before = pgn@;
        let ghost b0 = board;
        push_move_entry(&mut pgn, &board, &mv, i == 0);
        board = apply_move(&board, &mv);
        assert(before + movetext(b0, rest, i == 0) =~= pgn@ + movetext(board, rest.drop_first(), false));
        i = i + 1;
    }
    assert(mvs.subrange(mvs.len() as int, mvs.len() as int) =~= Seq::<Move>::empty());
    assert(pgn@ + Seq::<char>::empty() =~= pgn@);
    pgn
}

/// Generates a PGN string from a list of moves applied to a starting position.
///
/// `tags` is an ordered list of `(name, value)` pairs for the seven mandatory
/// PGN tag roster plus any extras the caller wishes to include.
pub fn moves_to_pgn(start_board: &Board, move_history: &[(Move, String)], tags: &[(&str, &str)]) -> (pgn: String)
    requires
        history_ok(*start_board, history_moves(move_history@)),
    ensures
        pgn@ == pgn_text(*start_board, history_moves(move_history@), tag_views(tags@)),
{
    let ghost tv = tag_views(tags@);
    let ghost mvs = history_moves(move_history@);
    let mut pgn = String::new();
    let mut k: usize = 0;
    while k < tags.len()
        invariant
            k <= tags@.len(),
            tv == tag_views(tags@),
            pgn@ == tags_text(tv.subrange(0, k as int)),
        decreases tags@.len() - k,
    {
        let (name, value) = tags[k];
        let ghost before = pgn@;
        push_char(&mut pgn, '[');
        pgn.append(name);
        push_char(&mut pgn, ' ');
        push_char(&mut pgn, '"');
        pgn.append(value);
        push_char(&mut pgn, '"');
        push_char(&mut pgn, ']');
        push_char(&mut pgn, '\n');
        assert(tv.subrange(0, k + 1).drop_last() =~= tv.subrange(0, k as int));
        assert(pgn@ =~= before + tag_text(name@, value@));
        k = k + 1;
    }
    assert(tv.subrange(0, tv.len() as int) =~= tv);
    push_char(&mut pgn, '\n');
    let mt = write_movetext(start_board, move_history);
    pgn.append(mt.as_str());

    // The result token.
    let mut k: usize = 0;
    let mut result: &str = "*";
    let mut found = false;
    while k < tags.len() && !found
        invariant
            k <= tags@.len(),
            tv == tag_views(tags@),
            found ==> result@ == result_token(tv),
            !found ==> result@ == "*"@,
            !found ==> result_token(tv) == result_token(tv.subrange(k as int, tv.len() as int)),
        decreases tags@.len() - k + (if found { 0int } else { 1int }),
    {
        let (name, value) = tags[k];
        let nc = chars_of(name);
        let ghost sub = tv.subrange(k as int, tv.len() as int);
        assert(sub[0] == (name@, value@));
        assert(sub.drop_first() =~= tv.subrange(k + 1, tv.len() as int));
        if chars_eq_str(nc.as_slice(), "Result") {
            result = value;
            found = true;
        } else {
            k = k + 1;
        }
    }
    if !found {
        assert(tv.subrange(k as int, tv.len() as int) =~= Seq::<(Seq<char>, Seq<char>)>::empty());
    }
    pgn.append(result);
    assert(pgn@ =~= pgn_text(*start_board, mvs, tv));
    pgn
}

/// The written move `m` on `b`, without its annotation marks, is the SAN
/// token `san`.
pub open spec fn san_matches(b: Board, m: Move, san: Seq<char>) -> bool {
    trim_annotations(san_spec(b, m)) == san
}

/// `k` is the first index of a move of `l` that `san` names on `b`.
pub open spec fn is_first_san_match(b: Board, l: Seq<Move>, san: Seq<char>, k: int) -> bool {
    &&& 0 <= k < l.len()
    &&& san_matches(b, l[k], san)
    &&& forall|j: int| 0 <= j < k ==> !#[trigger] san_matches(b, l[j], san)
}

/// The first legal move of `b` that `san` names, if any.
pub open spec fn san_lookup(b: Board, san: Seq<char>) -> Option<Move> {
    let l = legal_moves_spec(b);
    if exists|k: int| is_first_san_match(b, l, san, k) {
        Some(l[choose|k: int| is_first_san_match(b, l, san, k)])
    } else {
        None
    }
}

/// The UCI moves that the SAN tokens `sans` name when played in turn from
/// `b`, or the error for the first token that names no legal move.
pub open spec fn replay_sans(b: Board, sans: Seq<Seq<char>>) -> Result<Seq<Seq<char>>, Seq<char>>
    decreases sans.len(),
{
    if sans.len() == 0 {
        Ok(Seq::empty())
    } else {
        match san_lookup(b, sans[0]) {
            None => Err("No legal move matches SAN "@ + crate::fen::quoted(sans[0])),
            Some(m) => match replay_sans(apply_spec(b, m), sans.drop_first()) {
                Ok(r) => Ok(seq![m.uci_spec()] + r),
                Err(e) => Err(e),
            },
        }
    }
}

/// Finds the first legal move that the token `san` names.
pub fn find_san_move(board: &Board, legal: &Vec<Move>, san: &[char]) -> (r: Option<Move>)
    requires
        roomy(*board),
        legal@ == legal_moves_spec(*board),
        all_ok(board.side_to_move, legal@),
    ensures
        r == san_lookup(*board, san@),
{
    let ghost b = *board;
    let ghost l = legal@;
    let mut i: usize = 0;
    while i < legal.len()
        invariant
            i <= l.len(),
            b == *board,
            l == legal@,
            l == legal_moves_spec(b),
            roomy(b),
            all_ok(b.side_to_move, l),
            forall|j: int| 0 <= j < i ==> !#[trigger] san_matches(b, l[j], san@),
        decreases l.len() - i,
    {
        let m = legal[i];
        assert(move_ok(b.side_to_move, l[i as int]));
        proof {
            lemma_roomy_san_ready(b, m);
        }
        let written = move_to_san(board, &m);
        let wc = chars_of(written.as_str());
        let trimmed = trim_annotation_marks(wc.as_slice());
        if crate::text::chars_eq(trimmed.as_slice(), san) {
            proof {
                assert(is_first_san_match(b, l, san@, i as int));
                let k = choose|k: int| is_first_san_match(b, l, san@, k);
                if k < i {
                    assert(!san_matches(b, l[k], san@));
                } else if k > i {
                    assert(!san_matches(b, l[i as int], san@));
                }
            }
            return Some(m);
        }
        i = i + 1;
    }
    proof {
        if exists|k: int| is_first_san_match(b, l, san@, k) {
            let k = choose|k: int| is_first_san_match(b, l, san@, k);
            assert(!san_matches(b, l[k], san@));
        }
    }
    None
}

/// The text of each string.
pub open spec fn string_views(v: Seq<String>) -> Seq<Seq<char>> {
    v.map_values(|t: String| t@)
}

/// `p` put before the moves of a replay result.
pub open spec fn prepend(p: Seq<Seq<char>>, r: Result<Seq<Seq<char>>, Seq<char>>) -> Result<Seq<Seq<char>>, Seq<char>> {
    match r {
        Ok(x) => Ok(p + x),
        Err(e) => Err(e),
    }
}

proof fn lemma_replay_step(b: Board, sans: Seq<Seq<char>>, m: Move, done: Seq<Seq<char>>)
    requires
        sans.len() > 0,
        san_lookup(b, sans[0]) == Some(m),
    ensures
        prepend(done, replay_sans(b, sans)) == prepend(done.push(m.uci_spec()), replay_sans(apply_spec(b, m), sans.drop_first())),
{
    match replay_sans(apply_spec(b, m), sans.drop_first()) {
        Ok(r) => {
            assert(done + (seq![m.uci_spec()] + r) =~= done.push(m.uci_spec()) + r);
        },
        Err(_) => {},
    }
}

/// Replays PGN move tokens from a given starting FEN, returning the UCI move list.
///
/// SAN tokens are resolved against the legal move list at each ply.
pub fn pgn_moves_to_uci(start_fen: &str, san_moves: &[String]) -> (res: Result<Vec<String>, ChessError>)
    requires
        fen_spec(start_fen@) is Ok ==> {
            let f = fen_spec(start_fen@)->Ok_0;
            f.4 + san_moves@.len() < u32::MAX - 1 && f.5 + san_moves@.len() < u32::MAX - 1
        },
    ensures
        match fen_spec(start_fen@) {
            Err(msg) => res matches Err(e) && e.message@ == msg,
            Ok(_) => match replay_sans(fen_board(start_fen@), string_views(san_moves@)) {
                Ok(u) => res matches Ok(v) && v.deep_view() == u,
                Err(msg) => res matches Err(e) && e.message@ == msg,
            },
        },
        res matches Ok(v) ==> forall|i: int| 0 <= i < v@.len() ==> uci_shaped(#[trigger] v@[i]@),
{
    let mut board = match parse_fen(start_fen) {
        Ok(b) => b,
        Err(e) => return Err(e),
    };
    let ghost sans = string_views(san_moves@);
    let ghost start = board;
    let mut uci_moves: Vec<String> = Vec::new();
    let mut i: usize = 0;
    assert(sans.subrange(0, sans.len() as int) =~= sans);
    assert(prepend(uci_moves.deep_view(), replay_sans(start, sans)) == replay_sans(start, sans)) by {
        match replay_sans(start, sans) {
            Ok(x) => { assert(uci_moves.deep_view() + x =~= x); },
            Err(_) => {},
        }
    }
    while i < san_moves.len()
        invariant
            i <= san_moves@.len(),
            sans == string_views(san_moves@),
            board.wf(),
            board.halfmove_clock <= start.halfmove_clock + i,
            board.fullmove_number <= start.fullmove_number + i,
            start.halfmove_clock + san_moves@.len() < u32::MAX - 1,
            start.fullmove_number + san_moves@.len() < u32::MAX - 1,
            start == fen_board(start_fen@),
            fen_spec(start_fen@) is Ok,
            replay_sans(start, sans) == prepend(uci_moves.deep_view(), replay_sans(board, sans.subrange(i as int, sans.len() as int))),
            forall|k: int| 0 <= k < uci_moves@.len() ==> uci_shaped(#[trigger] uci_moves@[k]@),
        decreases san_moves@.len() - i,
    {
        let ghost rest = sans.subrange(i as int, sans.len() as int);
        assert(rest[0] == san_moves@[i as int]@);
        assert(rest.drop_first() =~= sans.subrange(i + 1, sans.len() as int));
        let legal = generate_legal_moves(&board);
        let sc = chars_of(san_moves[i].as_str());
        match find_san_move(&board, &legal, sc.as_slice()) {
            None => {
                let mut m = String::from_str("No legal move matches SAN ");
                push_char(&mut m, '\'');
                m.append(san_moves[i].as_str());
                push_char(&mut m, '\'');
                assert(m@ =~= "No legal move matches SAN "@ + crate::fen::quoted(sans[i as int]));
                assert(sc@ == rest[0]);
                assert(replay_sans(board, rest) == Err::<Seq<Seq<char>>, Seq<char>>(m@));
                return Err(ChessError::new(m));
            },
            Some(mv) => {
                proof {
                    let l = legal_moves_spec(board);
                    let k = choose|k: int| is_first_san_match(board, l, sans[i as int], k);
                    assert(move_ok(board.side_to_move, l[k]));
                    lemma_replay_step(board, rest, mv, uci_moves.deep_view());
                    lemma_uci_shaped(mv);
                }
                let ghost before = uci_moves.deep_view();
                let u = mv.to_uci();
                let ghost uv = u@;
                uci_moves.push(u);
                assert(uci_moves.deep_view() =~= before.push(uv));
                board = apply_move(&board, &mv);
            },
        }
        i = i + 1;
    }
    assert(sans.subrange(i as int, sans.len() as int) =~= Seq::<Seq<char>>::empty());
    assert(uci_moves.deep_view() + Seq::<Seq<char>>::empty() =~= uci_moves.deep_view());
    Ok(uci_moves)
}

proof fn lemma_comment_len(s: Seq<char>)
    ensures
        comment_fold(s).1.len() <= s.len(),
    decreases s.len(),
{
    if s.len() > 0 {
        lemma_comment_len(s.drop_last());
    }
}

proof fn lemma_move_tokens_len(ws: Seq<Seq<char>>)
    ensures
        move_tokens(ws).len() <= ws.len(),
    decreases ws.len(),
{
    if ws.len() > 0 {
        lemma_move_tokens_len(ws.drop_last());
    }
}

proof fn lemma_pgn_fold_len(lines: Seq<Seq<char>>)
    ensures
        pgn_fold(lines).2.len() <= crate::text::total_len(lines),
    decreases lines.len(),
{
    if lines.len() > 0 {
        lemma_pgn_fold_len(lines.drop_last());
        let raw = lines.last();
        let line = trim_ws(raw);
        crate::text::lemma_trim_len(raw);
        lemma_comment_len(line);
        crate::text::lemma_words_len(strip_comments_spec(line));
        lemma_move_tokens_len(words(strip_comments_spec(line)));
    }
}

/// A PGN text has no more move tokens than characters.
pub proof fn lemma_pgn_tokens_len(s: Seq<char>)
    ensures
        parse_pgn_spec(s).1.len() <= s.len(),
{
    crate::text::lemma_lines_len(s);
    lemma_pgn_fold_len(lines_spec(s));
}

/// A UCI move string: four or five ASCII characters.
pub open spec fn uci_shaped(s: Seq<char>) -> bool {
    4 <= s.len() <= 5 && forall|i: int| 0 <= i < s.len() ==> (#[trigger] s[i] as u32) < 128
}

proof fn lemma_uci_shaped(m: Move)
    requires
        m.from < 64,
        m.to < 64,
    ensures
        uci_shaped(m.uci_spec()),
{
    let f = m.from as int;
    let t = m.to as int;
    assert(crate::text::decimal((f / 8 + 1) as nat) == seq![crate::text::digit_char(f / 8 + 1)]);
    assert(crate::text::decimal((t / 8 + 1) as nat) == seq![crate::text::digit_char(t / 8 + 1)]);
    let s = m.uci_spec();
    assert(s.len() >= 4);
    assert forall|i: int| 0 <= i < s.len() implies (#[trigger] s[i] as u32) < 128 by {
        if i >= 4 {
            match m.flag {
                MoveFlag::Promotion(pt) => {
                    assert(s[i] == crate::types::lower_char(pt));
                },
                _ => {},
            }
        }
    }
}

} // verus!
