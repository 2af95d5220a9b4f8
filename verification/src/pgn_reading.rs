//! What reading a PGN text gives back of what writing it put in: the tag
//! pairs, and each move as its SAN without check marks.
use vstd::prelude::*;
use crate::board::Board;
use crate::movegen::{apply_spec, legal_moves_spec, move_ok};
use crate::pgn::{
    any_rival, check_suffix, comment_fold, disambiguation, file_char, rival, rival_same_file, rival_same_rank, history_ok, keep_token, move_tokens, movetext,
    number_prefix, parse_pgn_spec, pgn_fold, pgn_step, pgn_text, piece_san, rank_char, result_token, san_ready,
    san_spec, strip_comments_spec, tag_of, tag_text, tags_text,
};
use crate::text::{
    decimal, first_index_of, is_annotation, is_digit, is_word, is_ws, lemma_decimal_digits, lemma_first_index_of,
    lemma_words_joined, lemma_words_single, lines_fold, lines_spec, strip_cr, trim_annotations, trim_char,
    trim_end_ws, trim_start_ws, trim_ws, words,
};
use crate::types::{square_name_spec, Move, MoveFlag, Piece, PieceType};

verus! {

/// A character that SAN uses: a letter, a digit, or one of `=`, `+`, `#`, `-`.
pub open spec fn san_char(c: char) -> bool {
    ||| ('a' <= c && c <= 'z')
    ||| ('A' <= c && c <= 'Z')
    ||| ('0' <= c && c <= '9')
    ||| c == '='
    ||| c == '+'
    ||| c == '#'
    ||| c == '-'
}

/// Every character of `s` is a SAN character.
pub open spec fn san_chars(s: Seq<char>) -> bool {
    forall|i: int| 0 <= i < s.len() ==> san_char(#[trigger] s[i])
}

proof fn lemma_san_chars_concat(a: Seq<char>, b: Seq<char>)
    requires
        san_chars(a),
        san_chars(b),
    ensures
        san_chars(a + b),
{
    assert forall|i: int| 0 <= i < (a + b).len() implies san_char(#[trigger] (a + b)[i]) by {
        if i < a.len() {
            assert((a + b)[i] == a[i]);
        } else {
            assert((a + b)[i] == b[i - a.len()]);
        }
    }
}

proof fn lemma_decimal_san(n: nat)
    ensures
        san_chars(decimal(n)),
        decimal(n).len() > 0,
        is_digit(decimal(n)[0]),
{
    lemma_decimal_digits(n);
    assert forall|i: int| 0 <= i < decimal(n).len() implies san_char(#[trigger] decimal(n)[i]) by {
        assert(is_digit(decimal(n)[i]));
    }
}

proof fn lemma_file_char(sq: int)
    requires
        0 <= sq < 64,
    ensures
        'a' <= file_char(sq) && file_char(sq) <= 'h',
{
}

proof fn lemma_rank_char(sq: int)
    requires
        0 <= sq < 64,
    ensures
        '1' <= rank_char(sq) && rank_char(sq) <= '8',
{
}

proof fn lemma_square_name_san(sq: int)
    requires
        0 <= sq < 64,
    ensures
        san_chars(square_name_spec(sq)),
        square_name_spec(sq).len() > 0,
        'a' <= square_name_spec(sq)[0] && square_name_spec(sq)[0] <= 'h',
{
    lemma_file_char(sq);
    lemma_decimal_san((sq / 8 + 1) as nat);
    let f = seq![((97 + sq % 8) as u32) as char];
    assert(san_chars(f));
    lemma_san_chars_concat(f, decimal((sq / 8 + 1) as nat));
}

proof fn lemma_piece_letter(pt: PieceType)
    ensures
        'A' <= pt.spec_to_char() && pt.spec_to_char() <= 'Z',
        'a' <= crate::types::lower_char(pt) && crate::types::lower_char(pt) <= 'z',
{
}

/// SAN is made of SAN characters and starts with a letter.
pub proof fn lemma_san_text(b: Board, mv: Move)
    requires
        move_ok(b.side_to_move, mv),
    ensures
        san_chars(san_spec(b, mv)),
        san_spec(b, mv).len() > 0,
        ('a' <= san_spec(b, mv)[0] && san_spec(b, mv)[0] <= 'z') || ('A' <= san_spec(b, mv)[0] && san_spec(b, mv)[0] <= 'Z'),
{
    reveal_strlit("O-O");
    reveal_strlit("O-O-O");
    if mv.flag == MoveFlag::CastleKingside || mv.flag == MoveFlag::CastleQueenside {
    } else {
        match b.spec_piece_at(mv.from as int) {
            None => {
                let u = mv.uci_spec();
                lemma_square_name_san(mv.from as int);
                lemma_square_name_san(mv.to as int);
                lemma_san_chars_concat(square_name_spec(mv.from as int), square_name_spec(mv.to as int));
                let head = square_name_spec(mv.from as int) + square_name_spec(mv.to as int);
                let tail = match mv.flag {
                    MoveFlag::Promotion(pt) => seq![crate::types::lower_char(pt)],
                    _ => Seq::<char>::empty(),
                };
                match mv.flag {
                    MoveFlag::Promotion(pt) => { lemma_piece_letter(pt); },
                    _ => {},
                }
                assert(san_chars(tail));
                lemma_san_chars_concat(head, tail);
                assert(u == head + tail);
                assert(u[0] == head[0]);
            },
            Some(piece) => {
                lemma_piece_san_text(b, mv, piece);
            },
        }
    }
}

proof fn lemma_piece_san_text(b: Board, mv: Move, piece: Piece)
    requires
        move_ok(b.side_to_move, mv),
    ensures
        san_chars(piece_san(b, mv, piece)),
        piece_san(b, mv, piece).len() > 0,
        ('a' <= piece_san(b, mv, piece)[0] && piece_san(b, mv, piece)[0] <= 'z')
            || ('A' <= piece_san(b, mv, piece)[0] && piece_san(b, mv, piece)[0] <= 'Z'),
{
    let pt = piece.piece_type;
    let letter = if pt != PieceType::Pawn { seq![pt.spec_to_char()] } else { Seq::<char>::empty() };
    let dis = if pt != PieceType::Pawn { disambiguation(b, mv, pt) } else { Seq::<char>::empty() };
    let capture = b.spec_piece_at(mv.to as int) is Some || mv.flag == MoveFlag::EnPassant;
    let cap = if capture {
        (if pt == PieceType::Pawn { seq![file_char(mv.from as int)] } else { Seq::<char>::empty() }) + seq!['x']
    } else {
        Seq::<char>::empty()
    };
    let sq = square_name_spec(mv.to as int);
    let promo = match mv.flag {
        MoveFlag::Promotion(p) => seq!['=', p.spec_to_char()],
        _ => Seq::<char>::empty(),
    };
    let chk = check_suffix(b, mv);
    lemma_piece_letter(pt);
    lemma_file_char(mv.from as int);
    lemma_rank_char(mv.from as int);
    lemma_square_name_san(mv.to as int);
    assert(san_chars(letter));
    assert(san_chars(dis));
    assert(san_chars(cap));
    match mv.flag {
        MoveFlag::Promotion(p) => { lemma_piece_letter(p); },
        _ => {},
    }
    assert(san_chars(promo));
    assert(san_chars(chk));
    lemma_san_chars_concat(letter, dis);
    lemma_san_chars_concat(letter + dis, cap);
    lemma_san_chars_concat(letter + dis + cap, sq);
    lemma_san_chars_concat(letter + dis + cap + sq, promo);
    lemma_san_chars_concat(letter + dis + cap + sq + promo, chk);
    let s = letter + dis + cap + sq + promo + chk;
    assert(s == piece_san(b, mv, piece));
    if pt != PieceType::Pawn {
        assert(s[0] == pt.spec_to_char());
    } else if capture {
        assert(s[0] == file_char(mv.from as int));
    } else {
        assert(letter + dis + cap =~= Seq::<char>::empty());
        assert(s[0] == sq[0]);
    }
}


/// The moves of `mvs` played in turn from `b`, each as its SAN without
/// trailing annotation marks: what reading their movetext gives.
pub open spec fn san_tokens(b: Board, mvs: Seq<Move>) -> Seq<Seq<char>>
    decreases mvs.len(),
{
    if mvs.len() == 0 {
        Seq::empty()
    } else {
        seq![trim_annotations(san_spec(b, mvs[0]))] + san_tokens(apply_spec(b, mvs[0]), mvs.drop_first())
    }
}

/// The result tokens a PGN text ends with.
pub open spec fn is_result(r: Seq<char>) -> bool {
    r == "1-0"@ || r == "0-1"@ || r == "1/2-1/2"@ || r == "*"@
}

/// Reading the tokens of two runs of words reads each in turn.
proof fn lemma_move_tokens_append(a: Seq<Seq<char>>, b: Seq<Seq<char>>)
    ensures
        move_tokens(a + b) == move_tokens(a) + move_tokens(b),
    decreases b.len(),
{
    if b.len() == 0 {
        assert(a + b =~= a);
        assert(move_tokens(a) + move_tokens(b) =~= move_tokens(a));
    } else {
        lemma_move_tokens_append(a, b.drop_last());
        assert((a + b).drop_last() =~= a + b.drop_last());
        assert((a + b).last() == b.last());
        let t = trim_annotations(b.last());
        if keep_token(t) {
            assert(move_tokens(a) + move_tokens(b.drop_last()).push(t) =~= (move_tokens(a) + move_tokens(b.drop_last())).push(t));
        }
    }
}

proof fn lemma_move_tokens_one(x: Seq<char>)
    ensures
        move_tokens(seq![x]) == (if keep_token(trim_annotations(x)) { seq![trim_annotations(x)] } else { Seq::<Seq<char>>::empty() }),
{
    assert(seq![x].drop_last() =~= Seq::<Seq<char>>::empty());
    assert(seq![x].last() == x);
    assert(move_tokens(Seq::<Seq<char>>::empty()) == Seq::<Seq<char>>::empty());
    assert(Seq::<Seq<char>>::empty().push(trim_annotations(x)) =~= seq![trim_annotations(x)]);
}

/// Trimming annotation marks keeps a prefix, and keeps the first character
/// when it is no mark.
proof fn lemma_trim_annotations_prefix(s: Seq<char>)
    ensures
        trim_annotations(s).len() <= s.len(),
        trim_annotations(s) == s.subrange(0, trim_annotations(s).len() as int),
        s.len() > 0 && !is_annotation(s[0]) ==> trim_annotations(s).len() > 0,
        trim_annotations(s).len() > 0 ==> !is_annotation(trim_annotations(s).last()),
    decreases s.len(),
{
    if s.len() > 0 && is_annotation(s.last()) {
        lemma_trim_annotations_prefix(s.drop_last());
        let t = trim_annotations(s.drop_last());
        assert(s.drop_last().subrange(0, t.len() as int) =~= s.subrange(0, t.len() as int));
        if s.len() > 0 && !is_annotation(s[0]) {
            if s.len() == 1 {
                assert(s.last() == s[0]);
            } else {
                assert(s.drop_last()[0] == s[0]);
            }
        }
    } else {
        assert(s.subrange(0, s.len() as int) =~= s);
    }
}

/// The SAN of a move is kept as a token, without its marks.
proof fn lemma_san_token(b: Board, mv: Move)
    requires
        move_ok(b.side_to_move, mv),
    ensures
        is_word(san_spec(b, mv)),
        keep_token(trim_annotations(san_spec(b, mv))),
{
    let s = san_spec(b, mv);
    lemma_san_text(b, mv);
    assert forall|i: int| 0 <= i < s.len() implies !is_ws(#[trigger] s[i]) by {
        assert(san_char(s[i]));
    }
    lemma_trim_annotations_prefix(s);
    let t = trim_annotations(s);
    assert(t[0] == s[0]);
    assert(t.last() == s[t.len() - 1]);
    assert(san_char(s[t.len() - 1]));
    reveal_strlit("1-0");
    reveal_strlit("0-1");
    reveal_strlit("1/2-1/2");
    reveal_strlit("*");
    assert(t != "1-0"@) by { if t == "1-0"@ { assert(t[0] == '1'); } }
    assert(t != "0-1"@) by { if t == "0-1"@ { assert(t[0] == '0'); } }
    assert(t != "1/2-1/2"@) by { if t == "1/2-1/2"@ { assert(t[0] == '1'); } }
    assert(t != "*"@) by { if t == "*"@ { assert(t[0] == '*'); } }
}

/// A result token is one word, and no move token.
proof fn lemma_result_token(r: Seq<char>)
    requires
        is_result(r),
    ensures
        is_word(r),
        words(r) == seq![r],
        move_tokens(seq![r]) == Seq::<Seq<char>>::empty(),
        r.len() > 0,
        !is_ws(r[0]),
        !is_ws(r.last()),
{
    reveal_strlit("1-0");
    reveal_strlit("0-1");
    reveal_strlit("1/2-1/2");
    reveal_strlit("*");
    assert forall|i: int| 0 <= i < r.len() implies !is_ws(#[trigger] r[i]) by {
        if r == "1/2-1/2"@ {
            assert(r[i] == '1' || r[i] == '/' || r[i] == '2' || r[i] == '-');
        }
    }
    lemma_words_single(r);
    lemma_move_tokens_one(r);
    assert(trim_annotations(r) == r) by {
        assert(!is_annotation(r.last()));
    }
}

/// A move number written before a move is one word ending in `.`, followed
/// by a space.
proof fn lemma_number_prefix(b: Board, first: bool)
    ensures
        number_prefix(b, first).len() == 0 || {
            let p = number_prefix(b, first);
            let w = p.drop_last();
            &&& p.last() == ' '
            &&& p == w + seq![' ']
            &&& is_word(w)
            &&& is_digit(w[0])
            &&& move_tokens(seq![w]) == Seq::<Seq<char>>::empty()
        },
{
    let p = number_prefix(b, first);
    if p.len() > 0 {
        let n = b.fullmove_number as nat;
        lemma_decimal_digits(n);
        let d = decimal(n);
        let w = p.drop_last();
        if first && b.side_to_move == crate::types::Color::Black {
            assert(w =~= d + seq!['.', '.', '.']);
        } else {
            assert(w =~= d + seq!['.']);
        }
        assert(p =~= w + seq![' ']);
        assert forall|i: int| 0 <= i < w.len() implies !is_ws(#[trigger] w[i]) by {
            if i < d.len() {
                assert(w[i] == d[i]);
                assert(is_digit(d[i]));
            }
        }
        assert(w[0] == d[0]);
        lemma_move_tokens_one(w);
        assert(trim_annotations(w) == w) by {
            assert(!is_annotation(w.last()));
        }
    }
}

/// The movetext of moves, followed by a result, reads back as the moves'
/// SAN tokens.
proof fn lemma_movetext_tokens(b: Board, mvs: Seq<Move>, first: bool, r: Seq<char>)
    requires
        history_ok(b, mvs),
        is_result(r),
    ensures
        move_tokens(words(movetext(b, mvs, first) + r)) == san_tokens(b, mvs),
    decreases mvs.len(),
{
    lemma_result_token(r);
    if mvs.len() == 0 {
        assert(movetext(b, mvs, first) + r =~= r);
    } else {
        let m = mvs[0];
        let nb = apply_spec(b, m);
        let rest = mvs.drop_first();
        assert(san_ready(b, m));
        let s = san_spec(b, m);
        lemma_san_token(b, m);
        let big_r = movetext(nb, rest, false) + r;
        lemma_movetext_tokens(nb, rest, false, r);
        let p = number_prefix(b, first);
        lemma_number_prefix(b, first);
        lemma_words_joined(s, big_r, words(big_r));
        let tail = s + seq![' '] + big_r;
        assert(movetext(b, mvs, first) == p + s + seq![' '] + movetext(nb, rest, false));
        lemma_move_tokens_one(s);
        lemma_move_tokens_append(seq![s], words(big_r));
        if p.len() == 0 {
            assert(movetext(b, mvs, first) + r =~= tail);
            assert(move_tokens(seq![s] + words(big_r)) =~= san_tokens(b, mvs));
        } else {
            let w = p.drop_last();
            assert(movetext(b, mvs, first) + r =~= w + seq![' '] + tail);
            lemma_words_joined(w, tail, seq![s] + words(big_r));
            lemma_move_tokens_append(seq![w], seq![s] + words(big_r));
            assert(move_tokens(seq![w] + (seq![s] + words(big_r))) =~= san_tokens(b, mvs));
        }
    }
}


/// No character of `s` breaks a line or opens or closes a comment.
pub open spec fn line_chars(s: Seq<char>) -> bool {
    forall|i: int| 0 <= i < s.len() ==> (#[trigger] s[i] != '\n' && s[i] != '{' && s[i] != '}' && s[i] != ';')
}

proof fn lemma_line_chars_concat(a: Seq<char>, b: Seq<char>)
    requires
        line_chars(a),
        line_chars(b),
    ensures
        line_chars(a + b),
{
    assert forall|i: int| 0 <= i < (a + b).len() implies #[trigger] (a + b)[i] != '\n' && (a + b)[i] != '{'
        && (a + b)[i] != '}' && (a + b)[i] != ';' by {
        if i < a.len() {
            assert((a + b)[i] == a[i]);
        } else {
            assert((a + b)[i] == b[i - a.len()]);
        }
    }
}

proof fn lemma_san_line_chars(s: Seq<char>)
    requires
        san_chars(s),
    ensures
        line_chars(s),
{
    assert forall|i: int| 0 <= i < s.len() implies #[trigger] s[i] != '\n' && s[i] != '{' && s[i] != '}' && s[i] != ';' by {
        assert(san_char(s[i]));
    }
}

/// Movetext stays on one line and holds no comment marks.
proof fn lemma_movetext_line(b: Board, mvs: Seq<Move>, first: bool)
    requires
        history_ok(b, mvs),
    ensures
        line_chars(movetext(b, mvs, first)),
    decreases mvs.len(),
{
    if mvs.len() > 0 {
        let m = mvs[0];
        let nb = apply_spec(b, m);
        assert(san_ready(b, m));
        lemma_movetext_line(nb, mvs.drop_first(), false);
        lemma_san_text(b, m);
        lemma_san_line_chars(san_spec(b, m));
        let p = number_prefix(b, first);
        lemma_number_prefix(b, first);
        assert(line_chars(p)) by {
            if p.len() > 0 {
                let n = b.fullmove_number as nat;
                lemma_decimal_digits(n);
                let d = decimal(n);
                assert forall|i: int| 0 <= i < p.len() implies #[trigger] p[i] != '\n' && p[i] != '{' && p[i] != '}'
                    && p[i] != ';' by {
                    if i < d.len() {
                        assert(p[i] == d[i]);
                        assert(is_digit(d[i]));
                    }
                }
            }
        }
        assert(line_chars(seq![' ']));
        lemma_line_chars_concat(p, san_spec(b, m));
        lemma_line_chars_concat(p + san_spec(b, m), seq![' ']);
        lemma_line_chars_concat(p + san_spec(b, m) + seq![' '], movetext(nb, mvs.drop_first(), false));
    }
}

/// Without comment marks, a line is kept whole.
proof fn lemma_strip_plain(s: Seq<char>)
    requires
        line_chars(s),
    ensures
        comment_fold(s) == (0nat, s, false),
    decreases s.len(),
{
    if s.len() > 0 {
        let s0 = s.drop_last();
        assert(line_chars(s0)) by {
            assert forall|i: int| 0 <= i < s0.len() implies #[trigger] s0[i] != '\n' && s0[i] != '{' && s0[i] != '}'
                && s0[i] != ';' by {
                assert(s0[i] == s[i]);
            }
        }
        lemma_strip_plain(s0);
        assert(s[s.len() - 1] == s.last());
        assert(s0.push(s.last()) =~= s);
    }
}

/// A line with no whitespace at either end is its own trim.
proof fn lemma_trim_ws_id(s: Seq<char>)
    requires
        s.len() > 0,
        !is_ws(s[0]),
        !is_ws(s.last()),
    ensures
        trim_ws(s) == s,
{
    assert(trim_start_ws(s) == s);
    assert(trim_end_ws(s) == s);
}

/// Reading characters with no line break extends the current line.
proof fn lemma_lines_fold_plain(s: Seq<char>, t: Seq<char>)
    requires
        forall|i: int| 0 <= i < t.len() ==> t[i] != '\n',
    ensures
        lines_fold(s + t) == (lines_fold(s).0, lines_fold(s).1 + t),
    decreases t.len(),
{
    if t.len() == 0 {
        assert(s + t =~= s);
        assert(lines_fold(s).1 + t =~= lines_fold(s).1);
    } else {
        let t0 = t.drop_last();
        lemma_lines_fold_plain(s, t0);
        assert((s + t).drop_last() =~= s + t0);
        assert((s + t).last() == t.last());
        assert(t[t.len() - 1] == t.last());
        assert((lines_fold(s).1 + t0).push(t.last()) =~= lines_fold(s).1 + t);
    }
}

/// Reading a line break finishes the current line.
proof fn lemma_lines_fold_newline(s: Seq<char>)
    ensures
        lines_fold(s + seq!['\n']) == (lines_fold(s).0.push(strip_cr(lines_fold(s).1)), Seq::<char>::empty()),
{
    assert((s + seq!['\n']).drop_last() =~= s);
    assert((s + seq!['\n']).last() == '\n');
}

/// A tag line, without its line break.
pub open spec fn tag_line(name: Seq<char>, value: Seq<char>) -> Seq<char> {
    seq!['['] + name + seq![' ', '"'] + value + seq!['"', ']']
}

/// The tag lines of a tag section.
pub open spec fn tag_lines(tags: Seq<(Seq<char>, Seq<char>)>) -> Seq<Seq<char>> {
    tags.map_values(|t: (Seq<char>, Seq<char>)| tag_line(t.0, t.1))
}

/// A tag pair that its tag line reads back: the name holds no space, name
/// and value no line break, and the value does not start or end with a
/// quote.
pub open spec fn plain_tag(t: (Seq<char>, Seq<char>)) -> bool {
    &&& forall|i: int| 0 <= i < t.0.len() ==> #[trigger] t.0[i] != ' ' && t.0[i] != '\n'
    &&& forall|i: int| 0 <= i < t.1.len() ==> #[trigger] t.1[i] != '\n'
    &&& t.1.len() > 0 ==> t.1[0] != '"' && t.1.last() != '"'
}

proof fn lemma_tag_line_plain(t: (Seq<char>, Seq<char>))
    requires
        plain_tag(t),
    ensures
        forall|i: int| 0 <= i < tag_line(t.0, t.1).len() ==> #[trigger] tag_line(t.0, t.1)[i] != '\n',
        tag_text(t.0, t.1) == tag_line(t.0, t.1) + seq!['\n'],
        strip_cr(tag_line(t.0, t.1)) == tag_line(t.0, t.1),
{
    let (n, v) = t;
    let l = tag_line(n, v);
    assert forall|i: int| 0 <= i < l.len() implies #[trigger] l[i] != '\n' by {
        if 1 <= i < 1 + n.len() {
            assert(l[i] == n[i - 1]);
        } else if 3 + n.len() <= i < 3 + n.len() + v.len() {
            assert(l[i] == v[i - 3 - n.len()]);
        }
    }
    assert(tag_text(n, v) =~= l + seq!['\n']);
    assert(l.last() == ']');
}

/// The tag section splits into its tag lines.
proof fn lemma_lines_tags(tags: Seq<(Seq<char>, Seq<char>)>)
    requires
        forall|i: int| 0 <= i < tags.len() ==> plain_tag(#[trigger] tags[i]),
    ensures
        lines_fold(tags_text(tags)) == (tag_lines(tags), Seq::<char>::empty()),
    decreases tags.len(),
{
    if tags.len() == 0 {
        assert(tag_lines(tags) =~= Seq::<Seq<char>>::empty());
    } else {
        let t0 = tags.drop_last();
        let t = tags.last();
        assert forall|i: int| 0 <= i < t0.len() implies plain_tag(#[trigger] t0[i]) by {
            assert(t0[i] == tags[i]);
        }
        lemma_lines_tags(t0);
        assert(plain_tag(tags[tags.len() - 1]));
        lemma_tag_line_plain(t);
        let l = tag_line(t.0, t.1);
        let x = tags_text(t0);
        assert(tags_text(tags) == x + tag_text(t.0, t.1));
        assert(x + tag_text(t.0, t.1) =~= (x + l) + seq!['\n']);
        lemma_lines_fold_plain(x, l);
        lemma_lines_fold_newline(x + l);
        assert(Seq::<char>::empty() + l =~= l);
        assert(tag_lines(t0).push(l) =~= tag_lines(tags));
    }
}

/// Trimming the quotes around a value gives the value back.
proof fn lemma_trim_quotes(v: Seq<char>)
    requires
        v.len() > 0 ==> v[0] != '"' && v.last() != '"',
    ensures
        trim_char(seq!['"'] + v + seq!['"'], '"') == v,
{
    let q = seq!['"'] + v + seq!['"'];
    let a = v + seq!['"'];
    assert(q.drop_first() =~= a);
    if v.len() == 0 {
        assert(a =~= seq!['"']);
        assert(a.drop_first() =~= Seq::<char>::empty());
        assert(trim_char(Seq::<char>::empty(), '"') == Seq::<char>::empty());
        assert(trim_char(a, '"') == trim_char(a.drop_first(), '"'));
    } else {
        assert(a[0] == v[0]);
        assert(a.drop_last() =~= v);
        assert(trim_char(v, '"') == v);
        assert(trim_char(a, '"') == trim_char(a.drop_last(), '"'));
    }
    assert(trim_char(q, '"') == trim_char(a, '"'));
}

/// A tag line reads back as its tag pair.
proof fn lemma_tag_of_line(t: (Seq<char>, Seq<char>))
    requires
        plain_tag(t),
    ensures
        tag_of(tag_line(t.0, t.1)) == Some(t),
{
    let (n, v) = t;
    let l = tag_line(n, v);
    let inner = l.subrange(1, l.len() - 1);
    assert(inner =~= n + seq![' '] + (seq!['"'] + v + seq!['"']));
    assert forall|j: int| 0 <= j < n.len() implies inner[j] != ' ' by {
        assert(inner[j] == n[j]);
    }
    assert(inner[n.len() as int] == ' ');
    lemma_first_index_of(inner, ' ', n.len() as int);
    assert(inner.subrange(0, n.len() as int) =~= n);
    assert(inner.subrange(n.len() as int + 1, inner.len() as int) =~= seq!['"'] + v + seq!['"']);
    lemma_trim_quotes(v);
    assert(l.last() == ']');
}

/// The tag lines read as tags, still in the tag section.
proof fn lemma_pgn_fold_tags(tags: Seq<(Seq<char>, Seq<char>)>)
    requires
        forall|i: int| 0 <= i < tags.len() ==> plain_tag(#[trigger] tags[i]),
    ensures
        pgn_fold(tag_lines(tags)) == (true, tags, Seq::<Seq<char>>::empty()),
    decreases tags.len(),
{
    if tags.len() == 0 {
        assert(tag_lines(tags) =~= Seq::<Seq<char>>::empty());
        assert(tags =~= Seq::<(Seq<char>, Seq<char>)>::empty());
    } else {
        let t0 = tags.drop_last();
        let t = tags.last();
        assert forall|i: int| 0 <= i < t0.len() implies plain_tag(#[trigger] t0[i]) by {
            assert(t0[i] == tags[i]);
        }
        lemma_pgn_fold_tags(t0);
        assert(plain_tag(tags[tags.len() - 1]));
        let l = tag_line(t.0, t.1);
        assert(tag_lines(tags).drop_last() =~= tag_lines(t0));
        assert(tag_lines(tags).last() == l);
        assert(l[0] == '[');
        assert(l.last() == ']');
        lemma_trim_ws_id(l);
        lemma_tag_of_line(t);
        assert(t0.push(t) =~= tags);
    }
}

/// Reading a PGN text gives back its tag pairs, and its moves as their SAN
/// without check and annotation marks, when the tags are plain and the
/// result is a result token.
pub proof fn lemma_pgn_reads_back(b: Board, mvs: Seq<Move>, tags: Seq<(Seq<char>, Seq<char>)>)
    requires
        history_ok(b, mvs),
        forall|i: int| 0 <= i < tags.len() ==> plain_tag(#[trigger] tags[i]),
        is_result(result_token(tags)),
    ensures
        parse_pgn_spec(pgn_text(b, mvs, tags)) == (tags, san_tokens(b, mvs)),
{
    let r = result_token(tags);
    let mt = movetext(b, mvs, true);
    let m = mt + r;
    let head = tags_text(tags);
    lemma_result_token(r);
    lemma_movetext_line(b, mvs, true);
    assert(line_chars(r)) by {
        reveal_strlit("1-0");
        reveal_strlit("0-1");
        reveal_strlit("1/2-1/2");
        reveal_strlit("*");
    }
    lemma_line_chars_concat(mt, r);
    // The lines: the tag lines, an empty line, the movetext line.
    lemma_lines_tags(tags);
    lemma_lines_fold_newline(head);
    assert(strip_cr(Seq::<char>::empty()) == Seq::<char>::empty());
    lemma_lines_fold_plain(head + seq!['\n'], m);
    assert(pgn_text(b, mvs, tags) == head + seq!['\n'] + m);
    assert(Seq::<char>::empty() + m =~= m);
    assert(m.len() > 0);
    let ls = tag_lines(tags).push(Seq::<char>::empty()).push(m);
    assert(lines_spec(pgn_text(b, mvs, tags)) == ls);
    // Reading them.
    lemma_pgn_fold_tags(tags);
    assert(ls.drop_last() =~= tag_lines(tags).push(Seq::<char>::empty()));
    assert(ls.drop_last().drop_last() =~= tag_lines(tags));
    assert(trim_ws(Seq::<char>::empty()) == Seq::<char>::empty()) by {
        assert(trim_start_ws(Seq::<char>::empty()) == Seq::<char>::empty());
        assert(trim_end_ws(Seq::<char>::empty()) == Seq::<char>::empty());
    }
    assert(pgn_fold(ls.drop_last()) == (false, tags, Seq::<Seq<char>>::empty()));
    // The movetext line.
    if mvs.len() > 0 {
        lemma_number_prefix(b, true);
        let p = number_prefix(b, true);
        assert(p.len() > 0);
        assert(m[0] == p[0]);
        assert(p[0] == p.drop_last()[0]);
        assert(!is_ws(m[0]));
    } else {
        assert(m =~= r);
    }
    assert(m.last() == r.last());
    lemma_trim_ws_id(m);
    lemma_strip_plain(m);
    assert(strip_comments_spec(m) == m);
    lemma_movetext_tokens(b, mvs, true, r);
    assert(Seq::<Seq<char>>::empty() + move_tokens(words(m)) =~= move_tokens(words(m)));
}

/// The result token is the value of the first `Result` tag.
pub proof fn lemma_result_token_at(tags: Seq<(Seq<char>, Seq<char>)>, k: int)
    requires
        0 <= k < tags.len(),
        tags[k].0 == "Result"@,
        forall|j: int| 0 <= j < k ==> (#[trigger] tags[j]).0 != "Result"@,
    ensures
        result_token(tags) == tags[k].1,
    decreases k,
{
    if k > 0 {
        let t = tags.drop_first();
        assert forall|j: int| 0 <= j < k - 1 implies (#[trigger] t[j]).0 != "Result"@ by {
            assert(t[j] == tags[j + 1]);
        }
        assert(tags[0].0 != "Result"@);
        lemma_result_token_at(t, k - 1);
    }
}

/// Marks after text that does not end in one are all that trimming removes.
pub proof fn lemma_trim_marks_only(a: Seq<char>, c: Seq<char>)
    requires
        a.len() > 0,
        !is_annotation(a.last()),
        forall|i: int| 0 <= i < c.len() ==> is_annotation(#[trigger] c[i]),
    ensures
        trim_annotations(a + c) == a,
    decreases c.len(),
{
    if c.len() == 0 {
        assert(a + c =~= a);
    } else {
        assert((a + c).last() == c[c.len() - 1]);
        assert((a + c).drop_last() =~= a + c.drop_last());
        assert forall|i: int| 0 <= i < c.drop_last().len() implies is_annotation(#[trigger] c.drop_last()[i]) by {
            assert(c.drop_last()[i] == c[i]);
        }
        lemma_trim_marks_only(a, c.drop_last());
    }
}

/// The SAN of a piece move without its check mark: piece letter,
/// disambiguation, capture mark, target square and promotion.
proof fn lemma_piece_san_trimmed(b: Board, mv: Move, piece: Piece)
    requires
        mv.to < 64,
        piece.piece_type != PieceType::Pawn,
    ensures
        ({
            let pt = piece.piece_type;
            let t = trim_annotations(piece_san(b, mv, piece));
            let dis = disambiguation(b, mv, pt);
            &&& t.len() > 1 + dis.len()
            &&& t[0] == pt.spec_to_char()
            &&& t.subrange(1, 1 + dis.len() as int) == dis
        }),
{
    let pt = piece.piece_type;
    let letter = seq![pt.spec_to_char()];
    let dis = disambiguation(b, mv, pt);
    let capture = b.spec_piece_at(mv.to as int) is Some || mv.flag == MoveFlag::EnPassant;
    let cap = if capture { Seq::<char>::empty() + seq!['x'] } else { Seq::<char>::empty() };
    let sq = square_name_spec(mv.to as int);
    let promo = match mv.flag {
        MoveFlag::Promotion(p) => seq!['=', p.spec_to_char()],
        _ => Seq::<char>::empty(),
    };
    let chk = check_suffix(b, mv);
    let a = letter + dis + cap + sq + promo;
    assert(piece_san(b, mv, piece) == a + chk);
    assert(decimal((mv.to / 8 + 1) as nat) == seq![crate::text::digit_char((mv.to / 8 + 1) as int)]);
    assert(sq.len() == 2);
    assert(sq[1] == crate::text::digit_char((mv.to / 8 + 1) as int));
    match mv.flag {
        MoveFlag::Promotion(p) => {
            assert(a.last() == p.spec_to_char());
        },
        _ => {
            assert(a.last() == sq[1]);
        },
    }
    assert forall|i: int| 0 <= i < chk.len() implies is_annotation(#[trigger] chk[i]) by {}
    lemma_trim_marks_only(a, chk);
    assert(a[0] == pt.spec_to_char());
    assert forall|k: int| 0 <= k < dis.len() implies #[trigger] a.subrange(1, 1 + dis.len() as int)[k] == dis[k] by {
        assert((letter + dis)[1 + k] == dis[k]);
        assert(a[1 + k] == (letter + dis)[1 + k]);
    }
    assert(a.subrange(1, 1 + dis.len() as int) =~= dis);
}

/// SAN tells apart two legal moves of pieces of the same kind (not pawns)
/// onto the same square from different squares: the disambiguation names
/// the file, the rank, or both, of the square each one starts from, so the
/// two SAN texts differ even without their check marks.
pub proof fn lemma_san_disambiguates(b: Board, m1: Move, m2: Move)
    requires
        legal_moves_spec(b).contains(m1),
        legal_moves_spec(b).contains(m2),
        m1.to == m2.to,
        m1.to < 64,
        m1.from != m2.from,
        m1.flag != MoveFlag::CastleKingside && m1.flag != MoveFlag::CastleQueenside,
        m2.flag != MoveFlag::CastleKingside && m2.flag != MoveFlag::CastleQueenside,
        b.spec_piece_at(m1.from as int) is Some,
        b.spec_piece_at(m2.from as int) is Some,
        b.spec_piece_at(m1.from as int)->0.piece_type == b.spec_piece_at(m2.from as int)->0.piece_type,
        b.spec_piece_at(m1.from as int)->0.piece_type != PieceType::Pawn,
    ensures
        trim_annotations(san_spec(b, m1)) != trim_annotations(san_spec(b, m2)),
{
    let p1 = b.spec_piece_at(m1.from as int)->0;
    let p2 = b.spec_piece_at(m2.from as int)->0;
    let pt = p1.piece_type;
    let l = legal_moves_spec(b);
    let i1 = choose|i: int| 0 <= i < l.len() && l[i] == m1;
    let i2 = choose|i: int| 0 <= i < l.len() && l[i] == m2;
    assert(rival(b, m1, pt, l[i2]));
    assert(rival(b, m2, pt, l[i1]));
    assert(any_rival(b, m1, pt));
    assert(any_rival(b, m2, pt));
    let same_file = m1.from % 8 == m2.from % 8;
    let same_rank = m1.from / 8 == m2.from / 8;
    if same_file {
        assert(rival_same_file(b, m1, pt));
        assert(rival_same_file(b, m2, pt));
    }
    if same_rank {
        assert(rival_same_rank(b, m1, pt));
        assert(rival_same_rank(b, m2, pt));
    }
    assert(!(same_file && same_rank));
    let d1 = disambiguation(b, m1, pt);
    let d2 = disambiguation(b, m2, pt);
    lemma_piece_san_trimmed(b, m1, p1);
    lemma_piece_san_trimmed(b, m2, p2);
    let t1 = trim_annotations(san_spec(b, m1));
    let t2 = trim_annotations(san_spec(b, m2));
    assert(t1 == trim_annotations(piece_san(b, m1, p1)));
    assert(t2 == trim_annotations(piece_san(b, m2, p2)));
    assert(d1.len() > 0 && d2.len() > 0);
    assert(t1[1] == t1.subrange(1, 1 + d1.len() as int)[0]);
    assert(t2[1] == t2.subrange(1, 1 + d2.len() as int)[0]);
    if d1.len() == 2 && d2.len() == 2 {
        assert(t1[2] == t1.subrange(1, 1 + d1.len() as int)[1]);
        assert(t2[2] == t2.subrange(1, 1 + d2.len() as int)[1]);
    }
    assert(t1[1] != t2[1] || (d1.len() == 2 && d2.len() == 2 && t1[2] != t2[2]));
}

} // verus!
