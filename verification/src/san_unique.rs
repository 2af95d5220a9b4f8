//! SAN names each legal move once: two legal moves of a position whose SAN
//! texts agree, check marks aside, are the same move.
use vstd::prelude::*;
use crate::attacks::rk;
use crate::bits::has_bit;
use crate::board::{lemma_piece_at_from_first, Board};
use crate::fen::{disjoint, lemma_piece_at_source};
use crate::movegen::{
    capturable, castle_move, gen_shape, lemma_legal_moves_safe, lemma_pseudo_shape, legal_moves_spec,
    pawn_made, pawn_moves_at, pawn_kind, pawn_pred_at, promo_rank, promotions,
};
use crate::pgn::{check_suffix, disambiguation, file_char, is_first_san_match, piece_san, rank_char, san_lookup, san_matches, san_spec};
use crate::pgn_reading::{lemma_san_disambiguates, lemma_trim_marks_only};
use crate::text::{decimal, digit_char, is_annotation, trim_annotations};
use crate::types::{square_name_spec, Color, Move, MoveFlag, Piece, PieceType};

verus! {

/// With no square held twice, a piece of `us` of type index `p` on `t` is
/// what the board shows there.
proof fn lemma_has_piece_at(b: Board, us: Color, p: int, t: int)
    requires
        disjoint(b),
        0 <= p < 6,
        b.has(us, p, t),
    ensures
        b.spec_piece_at(t) == Some(Piece { piece_type: PieceType::spec_from_index(p as usize), color: us }),
{
    let c = us.spec_index() as int;
    let k = c * 6 + p;
    assert(b.slot(k) == b.bbv(c, p));
    assert forall|i: int| 0 <= i < k implies !has_bit(b.slot(i), t) by {
        assert(!(has_bit(b.slot(i), t) && has_bit(b.slot(k), t)));
    }
    lemma_piece_at_from_first(b, t, 0, k);
}

/// A square the board shows a piece on is occupied.
proof fn lemma_piece_at_occupied(b: Board, t: int)
    requires
        b.spec_piece_at(t) is Some,
    ensures
        b.occupied(t),
{
    let j = lemma_piece_at_source(b, t, 0);
    assert(b.slot(j) == b.bbv(j / 6, j % 6));
}

/// An occupied square shows a piece.
proof fn lemma_occupied_piece_at(b: Board, us: Color, t: int)
    requires
        disjoint(b),
        b.occupied_by(us, t),
    ensures
        b.spec_piece_at(t) is Some,
{
    if b.has(us, 0, t) {
        lemma_has_piece_at(b, us, 0, t);
    } else if b.has(us, 1, t) {
        lemma_has_piece_at(b, us, 1, t);
    } else if b.has(us, 2, t) {
        lemma_has_piece_at(b, us, 2, t);
    } else if b.has(us, 3, t) {
        lemma_has_piece_at(b, us, 3, t);
    } else if b.has(us, 4, t) {
        lemma_has_piece_at(b, us, 4, t);
    } else {
        lemma_has_piece_at(b, us, 5, t);
    }
}

/// The SAN of a move of `piece` without its check mark: piece letter,
/// disambiguation, capture mark, target square and promotion.
pub open spec fn san_body(b: Board, mv: Move, piece: Piece) -> Seq<char> {
    let pt = piece.piece_type;
    let letter = if pt != PieceType::Pawn { seq![pt.spec_to_char()] } else { Seq::empty() };
    let dis = if pt != PieceType::Pawn { disambiguation(b, mv, pt) } else { Seq::empty() };
    let capture = b.spec_piece_at(mv.to as int) is Some || mv.flag == MoveFlag::EnPassant;
    let cap = if capture {
        (if pt == PieceType::Pawn { seq![file_char(mv.from as int)] } else { Seq::empty() }) + seq!['x']
    } else {
        Seq::empty()
    };
    let promo = match mv.flag {
        MoveFlag::Promotion(p) => seq!['=', p.spec_to_char()],
        _ => Seq::empty(),
    };
    letter + dis + cap + square_name_spec(mv.to as int) + promo
}

/// The move captures: the board shows a piece on its target, or it takes en passant.
pub open spec fn captures(b: Board, mv: Move) -> bool {
    b.spec_piece_at(mv.to as int) is Some || mv.flag == MoveFlag::EnPassant
}

/// The piece a move promotes to, if it promotes.
pub open spec fn promo_of(mv: Move) -> Option<PieceType> {
    match mv.flag {
        MoveFlag::Promotion(p) => Some(p),
        _ => None,
    }
}

proof fn lemma_square_chars(sq: int)
    requires
        0 <= sq < 64,
    ensures
        square_name_spec(sq) == seq![file_char(sq), rank_char(sq)],
        'a' <= file_char(sq) && file_char(sq) <= 'h',
        '1' <= rank_char(sq) && rank_char(sq) <= '8',
{
    assert(decimal((sq / 8 + 1) as nat) == seq![digit_char(sq / 8 + 1)]);
    assert(square_name_spec(sq) =~= seq![file_char(sq), rank_char(sq)]);
}

/// Trimming the marks off the SAN of a piece move leaves its body.
proof fn lemma_trim_body(b: Board, mv: Move, piece: Piece)
    requires
        mv.to < 64,
    ensures
        trim_annotations(piece_san(b, mv, piece)) == san_body(b, mv, piece),
{
    let a = san_body(b, mv, piece);
    let chk = check_suffix(b, mv);
    assert(piece_san(b, mv, piece) == a + chk);
    lemma_square_chars(mv.to as int);
    let sq = square_name_spec(mv.to as int);
    let pt = piece.piece_type;
    let letter = if pt != PieceType::Pawn { seq![pt.spec_to_char()] } else { Seq::<char>::empty() };
    let dis = if pt != PieceType::Pawn { disambiguation(b, mv, pt) } else { Seq::<char>::empty() };
    let cap = if captures(b, mv) {
        (if pt == PieceType::Pawn { seq![file_char(mv.from as int)] } else { Seq::<char>::empty() }) + seq!['x']
    } else {
        Seq::<char>::empty()
    };
    let promo = match mv.flag {
        MoveFlag::Promotion(p) => seq!['=', p.spec_to_char()],
        _ => Seq::<char>::empty(),
    };
    assert(a == letter + dis + cap + sq + promo);
    match mv.flag {
        MoveFlag::Promotion(p) => {
            assert(a.last() == p.spec_to_char());
        },
        _ => {
            assert(a.last() == sq[1]);
        },
    }
    assert forall|i: int| 0 <= i < chk.len() implies is_annotation(#[trigger] chk[i]) by {}
    lemma_trim_marks_only(a, chk);
}

/// The body of a plain move of a piece other than a pawn: its letter first,
/// its target square last.
proof fn lemma_body_piece(b: Board, mv: Move, piece: Piece)
    requires
        mv.to < 64,
        piece.piece_type != PieceType::Pawn,
        promo_of(mv) is None,
    ensures
        ({
            let t = san_body(b, mv, piece);
            &&& t.len() >= 3
            &&& t[0] == piece.piece_type.spec_to_char()
            &&& t[t.len() - 2] == file_char(mv.to as int)
            &&& t[t.len() - 1] == rank_char(mv.to as int)
        }),
{
    lemma_square_chars(mv.to as int);
    let pt = piece.piece_type;
    let head = seq![pt.spec_to_char()] + disambiguation(b, mv, pt)
        + (if captures(b, mv) { Seq::<char>::empty() + seq!['x'] } else { Seq::<char>::empty() });
    let t = san_body(b, mv, piece);
    assert(t == head + seq![file_char(mv.to as int), rank_char(mv.to as int)] + Seq::<char>::empty());
    assert(t =~= head + seq![file_char(mv.to as int), rank_char(mv.to as int)]);
    assert(head[0] == pt.spec_to_char());
}

/// The body of a pawn move: the source file and `x` when it captures, the
/// target square, and the promotion.
proof fn lemma_body_pawn(b: Board, mv: Move, piece: Piece)
    requires
        mv.to < 64,
        piece.piece_type == PieceType::Pawn,
    ensures
        san_body(b, mv, piece) == (if captures(b, mv) { seq![file_char(mv.from as int), 'x'] } else { Seq::<char>::empty() })
            + seq![file_char(mv.to as int), rank_char(mv.to as int)]
            + (match mv.flag {
                MoveFlag::Promotion(p) => seq!['=', p.spec_to_char()],
                _ => Seq::<char>::empty(),
            }),
{
    lemma_square_chars(mv.to as int);
    let cap = if captures(b, mv) { seq![file_char(mv.from as int)] + seq!['x'] } else { Seq::<char>::empty() };
    let promo = match mv.flag {
        MoveFlag::Promotion(p) => seq!['=', p.spec_to_char()],
        _ => Seq::<char>::empty(),
    };
    assert(san_body(b, mv, piece) =~= Seq::<char>::empty() + Seq::<char>::empty() + cap
        + seq![file_char(mv.to as int), rank_char(mv.to as int)] + promo);
    if captures(b, mv) {
        assert(cap =~= seq![file_char(mv.from as int), 'x']);
    }
    assert(san_body(b, mv, piece) =~= cap + seq![file_char(mv.to as int), rank_char(mv.to as int)] + promo);
}


/// Two pawn moves with the same SAN body go to the same square, both
/// capture or neither does (and then from the same file), and promote to
/// the same piece if at all.
proof fn lemma_pawn_texts(b: Board, m1: Move, m2: Move, p1: Piece, p2: Piece)
    requires
        m1.to < 64,
        m2.to < 64,
        p1.piece_type == PieceType::Pawn,
        p2.piece_type == PieceType::Pawn,
        san_body(b, m1, p1) == san_body(b, m2, p2),
    ensures
        m1.to == m2.to,
        captures(b, m1) == captures(b, m2),
        captures(b, m1) ==> m1.from % 8 == m2.from % 8,
        promo_of(m1) == promo_of(m2),
{
    lemma_body_pawn(b, m1, p1);
    lemma_body_pawn(b, m2, p2);
    lemma_square_chars(m1.to as int);
    lemma_square_chars(m2.to as int);
    let c1 = if captures(b, m1) { seq![file_char(m1.from as int), 'x'] } else { Seq::<char>::empty() };
    let c2 = if captures(b, m2) { seq![file_char(m2.from as int), 'x'] } else { Seq::<char>::empty() };
    let s1 = seq![file_char(m1.to as int), rank_char(m1.to as int)];
    let s2 = seq![file_char(m2.to as int), rank_char(m2.to as int)];
    let r1 = match m1.flag {
        MoveFlag::Promotion(p) => seq!['=', p.spec_to_char()],
        _ => Seq::<char>::empty(),
    };
    let r2 = match m2.flag {
        MoveFlag::Promotion(p) => seq!['=', p.spec_to_char()],
        _ => Seq::<char>::empty(),
    };
    let t = c1 + s1 + r1;
    assert(t == c2 + s2 + r2);
    assert(t[1] == (c1 + s1)[1]);
    assert((c2 + s2 + r2)[1] == (c2 + s2)[1]);
    assert(captures(b, m1) == captures(b, m2));
    let n = c1.len() as int;
    assert(t[n] == s1[0] && t[n + 1] == s1[1]);
    assert((c2 + s2 + r2)[n] == s2[0] && (c2 + s2 + r2)[n + 1] == s2[1]);
    assert(m1.to % 8 == m2.to % 8);
    assert(m1.to / 8 == m2.to / 8);
    if captures(b, m1) {
        assert(t[0] == file_char(m1.from as int));
        assert((c2 + s2 + r2)[0] == file_char(m2.from as int));
    }
    assert(r1.len() == r2.len());
    assert(t.subrange(n + 2, t.len() as int) =~= r1);
    assert((c2 + s2 + r2).subrange(n + 2, t.len() as int) =~= r2);
    match m1.flag {
        MoveFlag::Promotion(q1) => {
            match m2.flag {
                MoveFlag::Promotion(q2) => {
                    assert(r1[1] == r2[1]);
                    assert(q1 == q2);
                },
                _ => {},
            }
        },
        _ => {},
    }
}


/// The en-passant target, if any, is not on the last rank of the side to
/// move.
pub open spec fn ep_off_last_rank(b: Board) -> bool {
    b.en_passant matches Some(e) ==> rk(e as int) != promo_rank(b.side_to_move)
}

/// What a move of pawn section `sec` is: a pawn of `us` starts on its
/// source; pushes go to an empty square, captures to a capturable one; and
/// the flag that the section gives.
proof fn lemma_pawn_made_facts(b: Board, us: Color, sec: int, m: Move)
    requires
        1 <= sec <= 7,
        pawn_made(b, us, sec, m),
    ensures
        b.has(us, 0, m.from as int),
        m.from < 64,
        m.to < 64,
        sec == 1 ==> m.flag == MoveFlag::Normal,
        sec == 2 ==> m.flag == MoveFlag::DoublePawnPush,
        (sec == 4 || sec == 5) ==> m.flag == (if b.en_passant == Some(m.to) { MoveFlag::EnPassant } else { MoveFlag::Normal }),
        (sec == 3 || sec >= 6) ==> m.flag is Promotion,
        sec <= 3 ==> !b.occupied(m.to as int),
        sec >= 4 ==> capturable(b, us, m.to as int),
{
    let ms = pawn_moves_at(m.from as int, m.to as int, pawn_kind(sec), b.en_passant == Some(m.to));
    let i = choose|i: int| 0 <= i < ms.len() && ms[i] == m;
    assert(ms[i] == m);
    if sec == 3 || sec >= 6 {
        assert(ms == promotions(m.from as int, m.to as int));
    }
}

/// With no square held twice and the en-passant target off the last rank,
/// the moves of the capture sections capture and those of the push sections
/// do not.
proof fn lemma_pawn_captures(b: Board, sec: int, m: Move)
    requires
        disjoint(b),
        ep_off_last_rank(b),
        1 <= sec <= 7,
        pawn_made(b, b.side_to_move, sec, m),
    ensures
        captures(b, m) == (sec >= 4),
{
    let us = b.side_to_move;
    lemma_pawn_made_facts(b, us, sec, m);
    if sec <= 3 {
        if b.spec_piece_at(m.to as int) is Some {
            lemma_piece_at_occupied(b, m.to as int);
        }
    } else if b.occupied_by(us.spec_opposite(), m.to as int) {
        lemma_occupied_piece_at(b, us.spec_opposite(), m.to as int);
    } else {
        assert(b.en_passant == Some(m.to));
        assert(pawn_pred_at(b, us, sec, m.to as int));
        assert(sec == 4 || sec == 5);
    }
}

/// Two pawn moves of the side to move to the same square, capturing alike
/// (from one file when they capture) and promoting alike, are one move.
proof fn lemma_pawn_same(b: Board, s1: int, m1: Move, s2: int, m2: Move)
    requires
        1 <= s1 <= 7,
        1 <= s2 <= 7,
        pawn_made(b, b.side_to_move, s1, m1),
        pawn_made(b, b.side_to_move, s2, m2),
        m1.to == m2.to,
        (s1 >= 4) == (s2 >= 4),
        s1 >= 4 ==> m1.from % 8 == m2.from % 8,
        promo_of(m1) == promo_of(m2),
    ensures
        m1 == m2,
{
    let us = b.side_to_move;
    lemma_pawn_made_facts(b, us, s1, m1);
    lemma_pawn_made_facts(b, us, s2, m2);
    let t = m1.to as int;
    assert(pawn_pred_at(b, us, s1, t));
    assert(pawn_pred_at(b, us, s2, t));
    assert(s1 == s2);
    assert(m1.from == m2.from);
    match m1.flag {
        MoveFlag::Promotion(q) => {
            assert(m2.flag == MoveFlag::Promotion(q));
        },
        _ => {},
    }
}


/// A generated move other than castling starts on a square the board shows
/// a piece of the side to move on: a pawn for the moves of the pawn
/// sections, another piece, moving plainly, otherwise.
proof fn lemma_noncastle(b: Board, m: Move) -> (piece: Piece)
    requires
        disjoint(b),
        gen_shape(b, m),
        m != castle_move(b.side_to_move, true),
        m != castle_move(b.side_to_move, false),
    ensures
        b.spec_piece_at(m.from as int) == Some(piece),
        m.from < 64,
        m.to < 64,
        m.flag != MoveFlag::CastleKingside && m.flag != MoveFlag::CastleQueenside,
        piece.piece_type == PieceType::Pawn ==> exists|sec: int| 1 <= sec <= 7 && #[trigger] pawn_made(b, b.side_to_move, sec, m),
        piece.piece_type != PieceType::Pawn ==> m.flag == MoveFlag::Normal,
{
    let us = b.side_to_move;
    if exists|sec: int| 1 <= sec <= 7 && #[trigger] pawn_made(b, us, sec, m) {
        let sec = choose|sec: int| 1 <= sec <= 7 && #[trigger] pawn_made(b, us, sec, m);
        lemma_pawn_made_facts(b, us, sec, m);
        lemma_has_piece_at(b, us, 0, m.from as int);
        Piece { piece_type: PieceType::Pawn, color: us }
    } else {
        let p = choose|p: int| 1 <= p < 6 && #[trigger] b.has(us, p, m.from as int);
        lemma_has_piece_at(b, us, p, m.from as int);
        Piece { piece_type: PieceType::spec_from_index(p as usize), color: us }
    }
}

/// The first character of the body of a move that is not castling: the
/// piece letter, or for a pawn a file letter.
proof fn lemma_body_first(b: Board, m: Move, piece: Piece)
    requires
        m.from < 64,
        m.to < 64,
        piece.piece_type != PieceType::Pawn ==> m.flag == MoveFlag::Normal,
    ensures
        san_body(b, m, piece).len() > 0,
        piece.piece_type != PieceType::Pawn ==> san_body(b, m, piece)[0] == piece.piece_type.spec_to_char(),
        piece.piece_type == PieceType::Pawn ==> 'a' <= san_body(b, m, piece)[0] && san_body(b, m, piece)[0] <= 'h',
{
    lemma_square_chars(m.from as int);
    lemma_square_chars(m.to as int);
    if piece.piece_type != PieceType::Pawn {
        lemma_body_piece(b, m, piece);
    } else {
        lemma_body_pawn(b, m, piece);
        let c = if captures(b, m) { seq![file_char(m.from as int), 'x'] } else { Seq::<char>::empty() };
        let sq = seq![file_char(m.to as int), rank_char(m.to as int)];
        let r = match m.flag {
            MoveFlag::Promotion(p) => seq!['=', p.spec_to_char()],
            _ => Seq::<char>::empty(),
        };
        assert((c + sq + r)[0] == (c + sq)[0]);
    }
}

/// Castling moves are written `O-O` and `O-O-O`; no other move's SAN
/// starts with `O`.
proof fn lemma_castle_texts(b: Board, m1: Move, m2: Move)
    requires
        disjoint(b),
        gen_shape(b, m1),
        gen_shape(b, m2),
        m1 == castle_move(b.side_to_move, true) || m1 == castle_move(b.side_to_move, false),
        trim_annotations(san_spec(b, m1)) == trim_annotations(san_spec(b, m2)),
    ensures
        m1 == m2,
{
    let us = b.side_to_move;
    reveal_strlit("O-O");
    reveal_strlit("O-O-O");
    assert(trim_annotations("O-O"@) == "O-O"@);
    assert(trim_annotations("O-O-O"@) == "O-O-O"@);
    if m2 == castle_move(us, true) || m2 == castle_move(us, false) {
        assert("O-O"@.len() != "O-O-O"@.len());
    } else {
        let piece = lemma_noncastle(b, m2);
        lemma_trim_body(b, m2, piece);
        lemma_body_first(b, m2, piece);
        assert(trim_annotations(san_spec(b, m2)) == san_body(b, m2, piece));
        assert(san_body(b, m2, piece)[0] != 'O');
    }
}

/// Two legal moves other than castling with the same SAN body are one move.
#[verifier::spinoff_prover]
proof fn lemma_noncastle_texts(b: Board, m1: Move, m2: Move)
    requires
        disjoint(b),
        ep_off_last_rank(b),
        legal_moves_spec(b).contains(m1),
        legal_moves_spec(b).contains(m2),
        gen_shape(b, m1),
        gen_shape(b, m2),
        m1 != castle_move(b.side_to_move, true),
        m1 != castle_move(b.side_to_move, false),
        m2 != castle_move(b.side_to_move, true),
        m2 != castle_move(b.side_to_move, false),
        trim_annotations(san_spec(b, m1)) == trim_annotations(san_spec(b, m2)),
    ensures
        m1 == m2,
{
    let us = b.side_to_move;
    let p1 = lemma_noncastle(b, m1);
    let p2 = lemma_noncastle(b, m2);
    lemma_trim_body(b, m1, p1);
    lemma_trim_body(b, m2, p2);
    lemma_body_first(b, m1, p1);
    lemma_body_first(b, m2, p2);
    let t = san_body(b, m1, p1);
    assert(t == trim_annotations(san_spec(b, m1)));
    assert(t == san_body(b, m2, p2));
    if p1.piece_type == PieceType::Pawn && p2.piece_type == PieceType::Pawn {
        lemma_pawn_texts(b, m1, m2, p1, p2);
        let s1 = choose|sec: int| 1 <= sec <= 7 && #[trigger] pawn_made(b, us, sec, m1);
        let s2 = choose|sec: int| 1 <= sec <= 7 && #[trigger] pawn_made(b, us, sec, m2);
        lemma_pawn_captures(b, s1, m1);
        lemma_pawn_captures(b, s2, m2);
        lemma_pawn_same(b, s1, m1, s2, m2);
    } else if p1.piece_type != PieceType::Pawn && p2.piece_type != PieceType::Pawn {
        lemma_body_piece(b, m1, p1);
        lemma_body_piece(b, m2, p2);
        lemma_square_chars(m1.to as int);
        lemma_square_chars(m2.to as int);
        assert(p1.piece_type == p2.piece_type);
        assert(m1.to % 8 == m2.to % 8);
        assert(m1.to / 8 == m2.to / 8);
        assert(m1.to == m2.to);
        if m1.from != m2.from {
            lemma_san_disambiguates(b, m1, m2);
        }
    } else {
        assert(p1.piece_type == PieceType::Pawn || p2.piece_type == PieceType::Pawn);
    }
}

/// SAN names each legal move once: two legal moves whose SAN texts agree,
/// check marks aside, are the same move. This holds on every position where
/// no square is held by two pieces and the en-passant target, if any, is not
/// on the last rank of the side to move.
pub proof fn lemma_san_unambiguous(b: Board, m1: Move, m2: Move)
    requires
        disjoint(b),
        ep_off_last_rank(b),
        legal_moves_spec(b).contains(m1),
        legal_moves_spec(b).contains(m2),
        trim_annotations(san_spec(b, m1)) == trim_annotations(san_spec(b, m2)),
    ensures
        m1 == m2,
{
    lemma_legal_moves_safe(b, m1);
    lemma_legal_moves_safe(b, m2);
    lemma_pseudo_shape(b, m1);
    lemma_pseudo_shape(b, m2);
    let us = b.side_to_move;
    if m1 == castle_move(us, true) || m1 == castle_move(us, false) {
        lemma_castle_texts(b, m1, m2);
    } else if m2 == castle_move(us, true) || m2 == castle_move(us, false) {
        lemma_castle_texts(b, m2, m1);
    } else {
        lemma_noncastle_texts(b, m1, m2);
    }
}

/// Reading back the SAN of a legal move, check marks aside, finds that very
/// move among the legal moves.
pub proof fn lemma_san_lookup_finds(b: Board, m: Move)
    requires
        disjoint(b),
        ep_off_last_rank(b),
        legal_moves_spec(b).contains(m),
    ensures
        san_lookup(b, trim_annotations(san_spec(b, m))) == Some(m),
{
    let l = legal_moves_spec(b);
    let san = trim_annotations(san_spec(b, m));
    let i = choose|i: int| 0 <= i < l.len() && l[i] == m;
    assert(san_matches(b, l[i], san));
    if !(exists|k: int| is_first_san_match(b, l, san, k)) {
        lemma_first_match_exists(b, l, san, i);
    }
    let k = choose|k: int| is_first_san_match(b, l, san, k);
    assert(l.contains(l[k]));
    lemma_san_unambiguous(b, l[k], m);
}

/// When some move of `l` is named by `san`, a first one is.
proof fn lemma_first_match_exists(b: Board, l: Seq<Move>, san: Seq<char>, i: int)
    requires
        0 <= i < l.len(),
        san_matches(b, l[i], san),
    ensures
        exists|k: int| is_first_san_match(b, l, san, k),
    decreases i,
{
    if forall|j: int| 0 <= j < i ==> !#[trigger] san_matches(b, l[j], san) {
        assert(is_first_san_match(b, l, san, i));
    } else {
        let j = choose|j: int| 0 <= j < i && #[trigger] san_matches(b, l[j], san);
        lemma_first_match_exists(b, l, san, j);
    }
}


} // verus!
