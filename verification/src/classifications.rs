//! Building blocks of move classification: evaluations, the kinds of
//! classification, and the board tactics they rest on (attackers,
//! defenders, piece safety, trapped pieces, danger levels).
use vstd::prelude::*;
use crate::attacks::{in_check_spec, is_in_check};
use crate::board::{set_piece_spec, Board};
use crate::movegen::{
    all_ok, apply_move, apply_spec, generate_legal_moves, generate_pseudo_legal_moves, legal_moves_spec, move_ok,
    pseudo_moves_spec,
};
use crate::types::{file_of, rank_of, Color, Move, MoveFlag, Piece, PieceType, Square};

verus! {

/// A piece together with the square it stands on.
#[derive(Debug, Clone, Copy, PartialEq, Eq, Structural)]
pub struct BoardPiece {
    pub piece: Piece,
    pub square: Square,
}

impl BoardPiece {
    pub fn new(piece: Piece, square: Square) -> (bp: Self)
        ensures
            bp == (BoardPiece { piece, square }),
    {
        Self { piece, square }
    }
}

/// An engine evaluation: centipawns, or a forced mate in some moves.
#[derive(Debug, Clone, Copy, PartialEq, Structural)]
pub enum Evaluation {
    Centipawn(i32),
    Mate(i32),
}

impl Evaluation {
    pub fn centipawn(&self) -> (r: Option<i32>)
        ensures
            r == (match *self {
                Evaluation::Centipawn(v) => Some(v),
                _ => None,
            }),
    {
        match self {
            Evaluation::Centipawn(v) => Some(*v),
            _ => None,
        }
    }

    pub fn mate_in(&self) -> (r: Option<i32>)
        ensures
            r == (match *self {
                Evaluation::Mate(v) => Some(v),
                _ => None,
            }),
    {
        match self {
            Evaluation::Mate(v) => Some(*v),
            _ => None,
        }
    }

    /// The value of the evaluation (centipawns or moves to mate).
    pub open spec fn spec_value(self) -> i32 {
        match self {
            Evaluation::Centipawn(v) => v,
            Evaluation::Mate(v) => v,
        }
    }

    /// The evaluation seen from `color`'s side: negated for Black.
    pub fn subjective(&self, color: Color) -> (r: Evaluation)
        requires
            self.spec_value() != i32::MIN,
        ensures
            r == (match *self {
                Evaluation::Centipawn(v) => Evaluation::Centipawn((if color == Color::Black { -v } else { v as int }) as i32),
                Evaluation::Mate(v) => Evaluation::Mate((if color == Color::Black { -v } else { v as int }) as i32),
            }),
    {
        let flip = color == Color::Black;
        match self {
            Evaluation::Centipawn(v) => Evaluation::Centipawn(if flip { -*v } else { *v }),
            Evaluation::Mate(v) => Evaluation::Mate(if flip { -*v } else { *v }),
        }
    }

    pub fn value(&self) -> (r: i32)
        ensures
            r == self.spec_value(),
    {
        match self {
            Evaluation::Centipawn(v) => *v,
            Evaluation::Mate(v) => *v,
        }
    }
}

/// The classification of a played move.
#[derive(Debug, Clone, Copy, PartialEq, Eq, PartialOrd, Ord, Structural)]
pub enum ClassificationKind {
    Brilliant,
    Great,
    Best,
    Excellent,
    Good,
    Okay,
    Inaccuracy,
    Miss,
    Mistake,
    Blunder,
    Forced,
    Book,
    Risky,
}

impl ClassificationKind {
    pub open spec fn name_spec(self) -> Seq<char> {
        match self {
            ClassificationKind::Brilliant => "Brilliant"@,
            ClassificationKind::Great => "Great"@,
            ClassificationKind::Best => "Best"@,
            ClassificationKind::Excellent => "Excellent"@,
            ClassificationKind::Good => "Good"@,
            ClassificationKind::Okay => "Okay"@,
            ClassificationKind::Inaccuracy => "Inaccuracy"@,
            ClassificationKind::Miss => "Miss"@,
            ClassificationKind::Mistake => "Mistake"@,
            ClassificationKind::Blunder => "Blunder"@,
            ClassificationKind::Forced => "Forced"@,
            ClassificationKind::Book => "Book"@,
            ClassificationKind::Risky => "Risky"@,
        }
    }

    /// The name of the classification, as shown to users.
    pub fn to_string(&self) -> (s: String)
        ensures
            s@ == self.name_spec(),
    {
        match self {
            ClassificationKind::Brilliant => String::from_str("Brilliant"),
            ClassificationKind::Great => String::from_str("Great"),
            ClassificationKind::Best => String::from_str("Best"),
            ClassificationKind::Excellent => String::from_str("Excellent"),
            ClassificationKind::Good => String::from_str("Good"),
            ClassificationKind::Okay => String::from_str("Okay"),
            ClassificationKind::Inaccuracy => String::from_str("Inaccuracy"),
            ClassificationKind::Miss => String::from_str("Miss"),
            ClassificationKind::Mistake => String::from_str("Mistake"),
            ClassificationKind::Blunder => String::from_str("Blunder"),
            ClassificationKind::Forced => String::from_str("Forced"),
            ClassificationKind::Book => String::from_str("Book"),
            ClassificationKind::Risky => String::from_str("Risky"),
        }
    }

    /// The engine's suggestion is worth showing for this kind: not for
    /// brilliant, great, forced and book moves.
    pub fn shows_suggestion(&self) -> (b: bool)
        ensures
            b == !(*self == ClassificationKind::Brilliant || *self == ClassificationKind::Great
                || *self == ClassificationKind::Forced || *self == ClassificationKind::Book),
    {
        match self {
            ClassificationKind::Brilliant | ClassificationKind::Great | ClassificationKind::Forced
            | ClassificationKind::Book => false,
            _ => true,
        }
    }
}

/// How a counterthreat is weighed against a threat.
#[derive(Debug, Clone, Copy, PartialEq, Eq, Structural)]
pub enum DangerEqualityStrategy {
    /// The counterthreat must be a direct result of the acting move.
    Creates,
    /// It is enough that the counterthreat exists after the move.
    Leaves,
}

/// The board's clocks can advance `n` more plies and its en-passant target
/// is a square.
pub open spec fn room(b: Board, n: int) -> bool {
    &&& b.wf()
    &&& b.halfmove_clock + n < u32::MAX
    &&& b.fullmove_number + n < u32::MAX
}

/// The square whose piece `mv` captures: for en passant, the square beside
/// the source on the target's file.
pub open spec fn capture_sq(mv: Move) -> int {
    if mv.flag == MoveFlag::EnPassant { (mv.from / 8) * 8 + mv.to % 8 } else { mv.to as int }
}

/// Returns the square being captured by `mv`.
/// For en passant the captured pawn is on a different square than `mv.to`.
pub fn capture_square(mv: &Move) -> (sq: Square)
    requires
        mv.from < 64,
        mv.to < 64,
    ensures
        sq == capture_sq(*mv),
{
    if mv.flag == MoveFlag::EnPassant {
        let rank = rank_of(mv.from);
        let file = file_of(mv.to);
        rank * 8 + file
    } else {
        mv.to
    }
}

/// The board with `color` to move, all else kept.
pub open spec fn with_side(b: Board, color: Color) -> Board {
    Board { side_to_move: color, ..b }
}

/// Returns a copy of `board` with `side_to_move` set to `color`.
/// All other state (pieces, castling, en passant) is preserved.
pub fn with_side_to_move(board: &Board, color: Color) -> (b: Board)
    ensures
        b == with_side(*board, color),
{
    let mut b = *board;
    b.side_to_move = color;
    b
}

/// `mv` is one of the pseudo-legal moves of `moves`, as `==` compares moves.
fn contains_move(moves: &Vec<Move>, mv: &Move) -> (r: bool)
    ensures
        r == moves@.contains(*mv),
{
    let mut i: usize = 0;
    while i < moves.len()
        invariant
            i <= moves@.len(),
            forall|j: int| 0 <= j < i ==> moves@[j] != *mv,
        decreases moves@.len() - i,
    {
        if moves[i] == *mv {
            return true;
        }
        i = i + 1;
    }
    false
}

/// A board with room for a ply keeps room for one ply fewer after a move
/// that fits it.
pub proof fn lemma_room_after(b: Board, mv: Move, n: int)
    requires
        room(b, n),
        n >= 1,
        move_ok(b.side_to_move, mv),
    ensures
        room(apply_spec(b, mv), n - 1),
        crate::movegen::apply_ok(b, mv),
        crate::movegen::playable(b),
{
}

/// Applies `mv` to `board` and returns the new board, or `None` if the move
/// is not pseudo-legal on `board`.
pub fn try_apply_move(board: &Board, mv: &Move) -> (r: Option<Board>)
    requires
        room(*board, 1),
    ensures
        r == (if pseudo_moves_spec(*board).contains(*mv) { Some(apply_spec(*board, *mv)) } else { None::<Board> }),
{
    let pseudo = generate_pseudo_legal_moves(board);
    if contains_move(&pseudo, mv) {
        proof {
            let k = choose|k: int| 0 <= k < pseudo@.len() && pseudo@[k] == *mv;
            assert(move_ok(board.side_to_move, pseudo@[k]));
        }
        Some(apply_move(board, mv))
    } else {
        None
    }
}

/// The move `m` on `b` mates: the opponent has no legal reply and is in check.
pub open spec fn mates(b: Board, m: Move) -> bool {
    let next = apply_spec(b, m);
    legal_moves_spec(next).len() == 0 && in_check_spec(next, next.side_to_move)
}

/// Some legal move of `b` mates.
pub open spec fn some_mate(b: Board) -> bool {
    let l = legal_moves_spec(b);
    exists|i: int| 0 <= i < l.len() && #[trigger] mates(b, l[i])
}

/// Checks whether any legal move results in checkmate.
pub fn any_move_is_checkmate(board: &Board) -> (r: bool)
    requires
        room(*board, 2),
    ensures
        r == some_mate(*board),
{
    let moves = generate_legal_moves(board);
    let ghost l = moves@;
    let mut i: usize = 0;
    while i < moves.len()
        invariant
            i <= l.len(),
            l == moves@,
            l == legal_moves_spec(*board),
            all_ok(board.side_to_move, l),
            room(*board, 2),
            forall|j: int| 0 <= j < i ==> !#[trigger] mates(*board, l[j]),
        decreases l.len() - i,
    {
        let mv = moves[i];
        assert(move_ok(board.side_to_move, l[i as int]));
        proof {
            lemma_room_after(*board, mv, 2);
        }
        let next = apply_move(board, &mv);
        let replies = generate_legal_moves(&next);
        if replies.len() == 0 && is_in_check(&next, next.side_to_move) {
            assert(mates(*board, l[i as int]));
            return true;
        }
        i = i + 1;
    }
    false
}

/// `acc` has a piece on `sq`.
pub open spec fn has_square(acc: Seq<BoardPiece>, sq: int) -> bool {
    exists|k: int| 0 <= k < acc.len() && #[trigger] acc[k].square == sq
}

/// The pieces (of the board `b`) whose moves among `ms` capture on `sq`,
/// each square once, in order of first appearance.
pub open spec fn attackers_among(b: Board, ms: Seq<Move>, sq: int) -> Seq<BoardPiece>
    decreases ms.len(),
{
    if ms.len() == 0 {
        Seq::empty()
    } else {
        let acc = attackers_among(b, ms.drop_last(), sq);
        let m = ms.last();
        match b.spec_piece_at(m.from as int) {
            Some(p) => if capture_sq(m) == sq && !has_square(acc, m.from as int) {
                acc.push(BoardPiece { piece: p, square: m.from })
            } else {
                acc
            },
            None => acc,
        }
    }
}

/// The pieces of `color` that directly attack `sq`: those with a
/// pseudo-legal move capturing there (pinned pieces included).
pub open spec fn direct_attackers(b: Board, sq: int, color: Color) -> Seq<BoardPiece> {
    attackers_among(b, pseudo_moves_spec(with_side(b, color)), sq)
}

/// Returns all pieces of `by_color` that directly attack `square`.
pub fn get_direct_attackers(board: &Board, square: Square, by_color: Color) -> (r: Vec<BoardPiece>)
    requires
        board.wf(),
    ensures
        r@ == direct_attackers(*board, square as int, by_color),
{
    let attacker_board = with_side_to_move(board, by_color);
    let ms = generate_pseudo_legal_moves(&attacker_board);
    let ghost msv = ms@;
    let mut acc: Vec<BoardPiece> = Vec::new();
    let mut i: usize = 0;
    assert(msv.subrange(0, 0) =~= Seq::<Move>::empty());
    while i < ms.len()
        invariant
            i <= msv.len(),
            msv == ms@,
            all_ok(by_color, msv),
            acc@ == attackers_among(*board, msv.subrange(0, i as int), square as int),
        decreases msv.len() - i,
    {
        let mv = ms[i];
        assert(move_ok(by_color, msv[i as int]));
        let ghost pre = msv.subrange(0, i as int);
        let ghost post = msv.subrange(0, i + 1);
        assert(post.drop_last() =~= pre);
        assert(post.last() == mv);
        if capture_square(&mv) == square {
            match board.piece_at(mv.from) {
                Some(p) => {
                    let mut seen = false;
                    let mut k: usize = 0;
                    while k < acc.len()
                        invariant
                            k <= acc@.len(),
                            seen == exists|j: int| 0 <= j < k && #[trigger] acc@[j].square == mv.from,
                        decreases acc@.len() - k,
                    {
                        if acc[k].square == mv.from {
                            seen = true;
                        }
                        k = k + 1;
                    }
                    if !seen {
                        acc.push(BoardPiece::new(p, mv.from));
                    }
                },
                None => {},
            }
        }
        i = i + 1;
    }
    assert(msv.subrange(0, msv.len() as int) =~= msv);
    acc
}

/// No two pieces of `s` stand on one square, and every square is on the board.
pub open spec fn squares_ok(s: Seq<BoardPiece>) -> bool {
    &&& forall|i: int, j: int| 0 <= i < j < s.len() ==> #[trigger] s[i].square != #[trigger] s[j].square
    &&& forall|i: int| 0 <= i < s.len() ==> #[trigger] s[i].square < 64
}

/// Pieces on distinct squares of the board number at most 64.
pub proof fn lemma_squares_bound(s: Seq<BoardPiece>)
    requires
        squares_ok(s),
    ensures
        s.len() <= 64,
{
    let t = s.map_values(|bp: BoardPiece| bp.square as int);
    assert forall|i: int, j: int| 0 <= i < t.len() && 0 <= j < t.len() && i != j implies t[i] != t[j] by {
        if i < j {
            assert(s[i].square != s[j].square);
        } else {
            assert(s[j].square != s[i].square);
        }
    }
    assert(t.no_duplicates());
    t.unique_seq_to_set();
    vstd::set_lib::lemma_int_range(0, 64);
    assert forall|x: int| t.to_set().contains(x) implies vstd::set_lib::set_int_range(0, 64).contains(x) by {
        let k = choose|k: int| 0 <= k < t.len() && t[k] == x;
        assert(s[k].square < 64);
    }
    vstd::set_lib::lemma_len_subset(t.to_set(), vstd::set_lib::set_int_range(0, 64));
}

/// The pieces found among some moves are real pieces of the board, each on
/// its own square.
pub proof fn lemma_attackers_among(b: Board, ms: Seq<Move>, sq: int)
    ensures
        squares_ok(attackers_among(b, ms, sq)),
        forall|i: int| 0 <= i < attackers_among(b, ms, sq).len() ==>
            b.spec_piece_at(#[trigger] attackers_among(b, ms, sq)[i].square as int) == Some(attackers_among(b, ms, sq)[i].piece),
    decreases ms.len(),
{
    if ms.len() > 0 {
        lemma_attackers_among(b, ms.drop_last(), sq);
        let acc = attackers_among(b, ms.drop_last(), sq);
        let m = ms.last();
        match b.spec_piece_at(m.from as int) {
            Some(p) => {
                if capture_sq(m) == sq && !has_square(acc, m.from as int) {
                    let r = acc.push(BoardPiece { piece: p, square: m.from });
                    crate::fen::lemma_piece_at_source(b, m.from as int, 0);
                    assert forall|i: int, j: int| 0 <= i < j < r.len() implies #[trigger] r[i].square != #[trigger] r[j].square by {
                        if j == acc.len() {
                            assert(acc[i].square != m.from);
                        } else {
                            assert(r[i] == acc[i] && r[j] == acc[j]);
                        }
                    }
                }
            },
            None => {},
        }
    }
}

/// The pieces of `d` on squares that `all` does not hold, in order.
pub open spec fn new_squares(d: Seq<BoardPiece>, all: Seq<BoardPiece>) -> Seq<BoardPiece>
    decreases d.len(),
{
    if d.len() == 0 {
        Seq::empty()
    } else {
        let r = new_squares(d.drop_last(), all);
        if has_square(all, d.last().square as int) { r } else { r.push(d.last()) }
    }
}

pub proof fn lemma_new_squares(d: Seq<BoardPiece>, all: Seq<BoardPiece>)
    requires
        squares_ok(d),
        squares_ok(all),
    ensures
        squares_ok(all + new_squares(d, all)),
        forall|i: int| 0 <= i < new_squares(d, all).len() ==> d.contains(#[trigger] new_squares(d, all)[i]),
    decreases d.len(),
{
    if d.len() > 0 {
        let d0 = d.drop_last();
        assert(squares_ok(d0)) by {
            assert forall|i: int, j: int| 0 <= i < j < d0.len() implies #[trigger] d0[i].square != #[trigger] d0[j].square by {
                assert(d[i].square != d[j].square);
            }
        }
        lemma_new_squares(d0, all);
        let r0 = new_squares(d0, all);
        assert forall|i: int| 0 <= i < r0.len() implies d.contains(#[trigger] r0[i]) by {
            assert(d0.contains(r0[i]));
            let k = choose|k: int| 0 <= k < d0.len() && d0[k] == r0[i];
            assert(d[k] == r0[i]);
        }
        if !has_square(all, d.last().square as int) {
            let x = d.last();
            let r = r0.push(x);
            assert(d[d.len() - 1] == x);
            let a0 = all + r0;
            let a1 = all + r;
            assert(a1 == a0.push(x));
            assert forall|i: int| 0 <= i < a0.len() implies #[trigger] a0[i].square != x.square by {
                if i < all.len() {
                    assert(a0[i] == all[i]);
                } else {
                    let k = choose|k: int| 0 <= k < d0.len() && d0[k] == r0[i - all.len()];
                    assert(d[k].square != d[d.len() - 1].square);
                }
            }
            assert forall|i: int, j: int| 0 <= i < j < a1.len() implies #[trigger] a1[i].square != #[trigger] a1[j].square by {
                if j < a0.len() {
                    assert(a1[i] == a0[i] && a1[j] == a0[j]);
                } else {
                    assert(a1[i] == a0[i]);
                }
            }
        }
    }
}

/// A battery entry: the board it was found on, its square and piece type.
pub type Front = (Board, Square, PieceType);

/// The frontier entries for newly revealed pieces, found on `scratch`.
pub open spec fn fronts(scratch: Board, r: Seq<BoardPiece>) -> Seq<Front> {
    r.map_values(|bp: BoardPiece| (scratch, bp.square, bp.piece.piece_type))
}

/// The attackers collected when the frontier is worked off, last entry
/// first: a king ends its line; any other front piece is lifted from its
/// board, and the pieces that then attack `sq` directly and are not yet
/// known join the attackers and the frontier.
pub open spec fn attackers_run(sq: int, color: Color, frontier: Seq<Front>, all: Seq<BoardPiece>) -> Seq<BoardPiece>
    decreases (64 - all.len()) * 65 + frontier.len() when squares_ok(all) && frontier.len() <= all.len()
{
    if frontier.len() == 0 {
        all
    } else {
        let (rb, fsq, ft) = frontier.last();
        let fr = frontier.drop_last();
        if ft == PieceType::King {
            proof {
                lemma_squares_bound(all);
            }
            attackers_run(sq, color, fr, all)
        } else {
            let scratch = set_piece_spec(rb, fsq as int, None);
            let d = direct_attackers(scratch, sq, color);
            let rev = new_squares(d, all);
            proof {
                lemma_attackers_among(scratch, pseudo_moves_spec(with_side(scratch, color)), sq);
                lemma_new_squares(d, all);
                lemma_squares_bound(all + rev);
            }
            attackers_run(sq, color, fr + fronts(scratch, rev), all + rev)
        }
    }
}

/// The attackers of `sq` of `color`, including X-ray attackers revealed
/// behind the front pieces of batteries.
pub open spec fn all_attackers(b: Board, sq: int, color: Color) -> Seq<BoardPiece> {
    let d = direct_attackers(b, sq, color);
    attackers_run(sq, color, fronts(b, d), d)
}

/// Boards of the frontier have an en-passant target on the board, and
/// squares of the frontier are squares.
pub open spec fn fronts_ok(f: Seq<Front>) -> bool {
    forall|i: int| 0 <= i < f.len() ==> (#[trigger] f[i]).0.wf() && f[i].1 < 64
}

/// The pieces of `d` on squares that `all` does not hold.
fn unseen(d: &Vec<BoardPiece>, all: &Vec<BoardPiece>) -> (r: Vec<BoardPiece>)
    ensures
        r@ == new_squares(d@, all@),
{
    let mut r: Vec<BoardPiece> = Vec::new();
    let mut i: usize = 0;
    assert(d@.subrange(0, 0) =~= Seq::<BoardPiece>::empty());
    while i < d.len()
        invariant
            i <= d@.len(),
            r@ == new_squares(d@.subrange(0, i as int), all@),
        decreases d@.len() - i,
    {
        let bp = d[i];
        let ghost post = d@.subrange(0, i + 1);
        assert(post.drop_last() =~= d@.subrange(0, i as int));
        assert(post.last() == bp);
        let mut seen = false;
        let mut k: usize = 0;
        while k < all.len()
            invariant
                k <= all@.len(),
                seen == exists|j: int| 0 <= j < k && #[trigger] all@[j].square == bp.square,
            decreases all@.len() - k,
        {
            if all[k].square == bp.square {
                seen = true;
            }
            k = k + 1;
        }
        if !seen {
            r.push(bp);
        }
        i = i + 1;
    }
    assert(d@.subrange(0, d@.len() as int) =~= d@);
    r
}

/// Returns all pieces of `by_color` that attack `square`, including pieces
/// that are revealed after the front piece in a battery is removed (X-ray
/// attackers).
pub fn get_attackers(board: &Board, square: Square, by_color: Color) -> (r: Vec<BoardPiece>)
    requires
        board.wf(),
    ensures
        r@ == all_attackers(*board, square as int, by_color),
{
    let mut all = get_direct_attackers(board, square, by_color);
    let ghost d0 = all@;
    proof {
        lemma_attackers_among(*board, pseudo_moves_spec(with_side(*board, by_color)), square as int);
    }
    let mut frontier: Vec<Front> = Vec::new();
    let mut i: usize = 0;
    while i < all.len()
        invariant
            i <= all@.len(),
            all@ == d0,
            squares_ok(d0),
            frontier@ == fronts(*board, d0.subrange(0, i as int)),
            fronts_ok(frontier@),
            board.wf(),
        decreases all@.len() - i,
    {
        let bp = all[i];
        frontier.push((*board, bp.square, bp.piece.piece_type));
        assert(frontier@ =~= fronts(*board, d0.subrange(0, i + 1)));
        i = i + 1;
    }
    assert(d0.subrange(0, d0.len() as int) =~= d0);
    while frontier.len() > 0
        invariant
            squares_ok(all@),
            frontier@.len() <= all@.len(),
            fronts_ok(frontier@),
            all_attackers(*board, square as int, by_color) == attackers_run(square as int, by_color, frontier@, all@),
        decreases (64 - all@.len()) * 65 + frontier@.len(),
    {
        proof {
            lemma_squares_bound(all@);
        }
        let ghost f0 = frontier@;
        let ghost a0 = all@;
        let entry = frontier.pop().unwrap();
        assert(entry == f0.last());
        assert(frontier@ == f0.drop_last());
        let (ref_board, front_sq, front_type) = entry;
        if front_type != PieceType::King {
            let mut scratch = ref_board;
            scratch.set_piece(front_sq, None);
            let direct = get_direct_attackers(&scratch, square, by_color);
            proof {
                lemma_attackers_among(scratch, pseudo_moves_spec(with_side(scratch, by_color)), square as int);
                lemma_new_squares(direct@, all@);
                lemma_squares_bound(all@ + new_squares(direct@, all@));
            }
            let revealed = unseen(&direct, &all);
            let ghost fr0 = frontier@;
            let mut k: usize = 0;
            while k < revealed.len()
                invariant
                    k <= revealed@.len(),
                    all@ == a0 + revealed@.subrange(0, k as int),
                    frontier@ == fr0 + fronts(scratch, revealed@.subrange(0, k as int)),
                    fronts_ok(fr0),
                    scratch.wf(),
                    squares_ok(a0 + revealed@),
                    fronts_ok(frontier@),
                decreases revealed@.len() - k,
            {
                let bp = revealed[k];
                assert((a0 + revealed@)[a0.len() + k] == bp);
                frontier.push((scratch, bp.square, bp.piece.piece_type));
                all.push(bp);
                assert(all@ =~= a0 + revealed@.subrange(0, k + 1));
                assert(frontier@ =~= fr0 + fronts(scratch, revealed@.subrange(0, k + 1)));
                k = k + 1;
            }
            assert(revealed@.subrange(0, revealed@.len() as int) =~= revealed@);
        }
    }
    all
}

/// The attackers of `piece` (by the other colour), direct only or with
/// X-ray attackers.
pub open spec fn attackers_of(b: Board, piece: BoardPiece, transitive: bool) -> Seq<BoardPiece> {
    let c = piece.piece.color.spec_opposite();
    if transitive {
        all_attackers(b, piece.square as int, c)
    } else {
        direct_attackers(b, piece.square as int, c)
    }
}

/// Helper: get all attackers of a `BoardPiece` on `board`.
fn get_attackers_of(board: &Board, piece: &BoardPiece, transitive: bool) -> (r: Vec<BoardPiece>)
    requires
        board.wf(),
    ensures
        r@ == attackers_of(*board, *piece, transitive),
{
    let defending_color = piece.piece.color.opposite();
    if transitive {
        get_attackers(board, piece.square, defending_color)
    } else {
        get_direct_attackers(board, piece.square, defending_color)
    }
}

/// The plain capture of the piece on `target` by `attacker`.
pub open spec fn capture_move(attacker: BoardPiece, target: int) -> Move {
    Move { from: attacker.square, to: target as u8, flag: MoveFlag::Normal }
}

/// For each attacker of `piece` (of colour `ac`) whose plain capture is
/// pseudo-legal, the pieces that can take back on the square after it.
pub open spec fn recapture_sets(b: Board, piece: BoardPiece, ac: Color, da: Seq<BoardPiece>, transitive: bool) -> Seq<Seq<BoardPiece>>
    decreases da.len(),
{
    if da.len() == 0 {
        Seq::empty()
    } else {
        let rest = recapture_sets(b, piece, ac, da.drop_last(), transitive);
        let a = da.last();
        let cb = with_side(b, ac);
        let mv = capture_move(a, piece.square as int);
        if pseudo_moves_spec(cb).contains(mv) {
            let after = apply_spec(cb, mv);
            rest.push(attackers_of(after, BoardPiece { piece: a.piece, square: piece.square }, transitive))
        } else {
            rest
        }
    }
}

/// The first of the smallest sets.
pub open spec fn first_smallest(sets: Seq<Seq<BoardPiece>>) -> Option<Seq<BoardPiece>>
    decreases sets.len(),
{
    if sets.len() == 0 {
        None
    } else {
        match first_smallest(sets.drop_last()) {
            None => Some(sets.last()),
            Some(best) => if sets.last().len() < best.len() { Some(sets.last()) } else { Some(best) },
        }
    }
}

/// The defenders of `piece`: with no attacker, the pieces that would attack
/// it were it of the other colour; else the smallest set of pieces that can
/// take back after one of its attackers takes it (the first such set when
/// several are as small), or none.
pub open spec fn defenders_spec(b: Board, piece: BoardPiece, transitive: bool) -> Seq<BoardPiece> {
    let ac = piece.piece.color.spec_opposite();
    let da = direct_attackers(b, piece.square as int, ac);
    if da.len() == 0 {
        let fp = Piece { piece_type: piece.piece.piece_type, color: ac };
        let scratch = set_piece_spec(b, piece.square as int, Some(fp));
        attackers_of(scratch, BoardPiece { piece: fp, square: piece.square }, transitive)
    } else {
        match first_smallest(recapture_sets(b, piece, ac, da, transitive)) {
            Some(s) => s,
            None => Seq::empty(),
        }
    }
}

/// Returns the set of pieces that defend `piece` on `board`.
/// The algorithm:
/// 1. Find all direct attackers of `piece`.
/// 2. For each attacker, simulate taking `piece` and count the recapturers.
/// 3. Return the smallest such recapturer set (worst case for the attacker).
/// 4. If there are no attackers at all, flip the piece colour and count
///    attackers of the flipped piece — these are effectively the defenders.
pub fn get_defenders(board: &Board, piece: &BoardPiece, transitive: bool) -> (r: Vec<BoardPiece>)
    requires
        room(*board, 1),
        piece.square < 64,
    ensures
        r@ == defenders_spec(*board, *piece, transitive),
{
    let attacker_color = piece.piece.color.opposite();
    let direct_attackers = get_direct_attackers(board, piece.square, attacker_color);
    if direct_attackers.len() == 0 {
        let flipped_piece = BoardPiece::new(Piece::new(piece.piece.piece_type, attacker_color), piece.square);
        let mut scratch = *board;
        scratch.set_piece(piece.square, Some(flipped_piece.piece));
        return get_attackers_of(&scratch, &flipped_piece, transitive);
    }
    let ghost da = direct_attackers@;
    let capture_board = with_side_to_move(board, attacker_color);
    let pseudo = generate_pseudo_legal_moves(&capture_board);
    let mut best: Option<Vec<BoardPiece>> = None;
    let mut i: usize = 0;
    assert(da.subrange(0, 0) =~= Seq::<BoardPiece>::empty());
    while i < direct_attackers.len()
        invariant
            i <= da.len(),
            da == direct_attackers@,
            room(*board, 1),
            piece.square < 64,
            capture_board == with_side(*board, attacker_color),
            attacker_color == piece.piece.color.spec_opposite(),
            pseudo@ == pseudo_moves_spec(capture_board),
            all_ok(attacker_color, pseudo@),
            match best {
                Some(v) => first_smallest(recapture_sets(*board, *piece, attacker_color, da.subrange(0, i as int), transitive)) == Some(v@),
                None => first_smallest(recapture_sets(*board, *piece, attacker_color, da.subrange(0, i as int), transitive)) is None,
            },
        decreases da.len() - i,
    {
        let attacker = direct_attackers[i];
        let ghost post = da.subrange(0, i + 1);
        assert(post.drop_last() =~= da.subrange(0, i as int));
        assert(post.last() == attacker);
        let capture_mv = Move::new(attacker.square, piece.square);
        assert(capture_mv == capture_move(attacker, piece.square as int));
        if contains_move(&pseudo, &capture_mv) {
            proof {
                let k = choose|k: int| 0 <= k < pseudo@.len() && pseudo@[k] == capture_mv;
                assert(move_ok(attacker_color, pseudo@[k]));
                lemma_room_after(capture_board, capture_mv, 1);
            }
            let after_capture = apply_move(&capture_board, &capture_mv);
            let recaptured = BoardPiece::new(attacker.piece, piece.square);
            let recapturers = get_attackers_of(&after_capture, &recaptured, transitive);
            proof {
                let rest = recapture_sets(*board, *piece, attacker_color, da.subrange(0, i as int), transitive);
                let sets = recapture_sets(*board, *piece, attacker_color, post, transitive);
                assert(sets == rest.push(recapturers@));
                assert(sets.drop_last() =~= rest);
                assert(sets.last() == recapturers@);
            }
            let replace = match &best {
                Some(b) => recapturers.len() < b.len(),
                None => true,
            };
            if replace {
                best = Some(recapturers);
            }
        }
        i = i + 1;
    }
    assert(da.subrange(0, da.len() as int) =~= da);
    match best {
        Some(v) => v,
        None => {
            let v: Vec<BoardPiece> = Vec::new();
            assert(v@ =~= Seq::<BoardPiece>::empty());
            v
        },
    }
}

/// Some piece of `s` is worth less than `v`.
pub open spec fn some_cheaper(s: Seq<BoardPiece>, v: i32) -> bool {
    exists|i: int| 0 <= i < s.len() && #[trigger] s[i].piece.piece_type.spec_value() < v
}

/// Some piece of `s` is a pawn.
pub open spec fn some_pawn(s: Seq<BoardPiece>) -> bool {
    exists|i: int| 0 <= i < s.len() && #[trigger] s[i].piece.piece_type == PieceType::Pawn
}

/// The lowest value among the pieces of `s` (`s` not empty).
pub open spec fn min_value(s: Seq<BoardPiece>) -> i32
    decreases s.len(),
{
    if s.len() <= 1 {
        s[0].piece.piece_type.spec_value()
    } else {
        let m = min_value(s.drop_last());
        let v = s.last().piece.piece_type.spec_value();
        if v < m { v } else { m }
    }
}

proof fn lemma_min_value(s: Seq<BoardPiece>)
    requires
        s.len() > 0,
    ensures
        forall|i: int| 0 <= i < s.len() ==> min_value(s) <= #[trigger] s[i].piece.piece_type.spec_value(),
        exists|i: int| 0 <= i < s.len() && min_value(s) == #[trigger] s[i].piece.piece_type.spec_value(),
    decreases s.len(),
{
    if s.len() == 1 {
        assert(min_value(s) == s[0].piece.piece_type.spec_value());
    } else {
        lemma_min_value(s.drop_last());
        let k = choose|i: int| 0 <= i < s.drop_last().len() && min_value(s.drop_last()) == #[trigger] s.drop_last()[i].piece.piece_type.spec_value();
        assert(s[k] == s.drop_last()[k]);
        assert(s[s.len() - 1] == s.last());
        if s.last().piece.piece_type.spec_value() < min_value(s.drop_last()) {
            assert(min_value(s) == s[s.len() - 1].piece.piece_type.spec_value());
        } else {
            assert(min_value(s) == s[k].piece.piece_type.spec_value());
        }
        assert forall|i: int| 0 <= i < s.len() implies min_value(s) <= #[trigger] s[i].piece.piece_type.spec_value() by {
            if i < s.len() - 1 {
                assert(s[i] == s.drop_last()[i]);
            }
        }
    }
}

/// A piece is safe when it cannot be won by exchanges: no attacker is worth
/// less; or it has no more attackers than defenders; or it is worth less
/// than every attacker and some defender is too; or a pawn defends it.
pub open spec fn safe_spec(b: Board, piece: BoardPiece) -> bool {
    let ac = piece.piece.color.spec_opposite();
    let da = direct_attackers(b, piece.square as int, ac);
    let at = all_attackers(b, piece.square as int, ac);
    let de = defenders_spec(b, piece, true);
    let v = piece.piece.piece_type.spec_value();
    if some_cheaper(da, v) {
        false
    } else if at.len() <= de.len() {
        true
    } else if da.len() > 0 && v < min_value(da) && some_cheaper(de, min_value(da)) {
        true
    } else {
        some_pawn(de)
    }
}

fn any_cheaper(s: &Vec<BoardPiece>, v: i32) -> (r: bool)
    ensures
        r == some_cheaper(s@, v),
{
    let mut i: usize = 0;
    while i < s.len()
        invariant
            i <= s@.len(),
            forall|j: int| 0 <= j < i ==> !(#[trigger] s@[j].piece.piece_type.spec_value() < v),
        decreases s@.len() - i,
    {
        if s[i].piece.piece_type.value() < v {
            return true;
        }
        i = i + 1;
    }
    false
}

fn any_pawn(s: &Vec<BoardPiece>) -> (r: bool)
    ensures
        r == some_pawn(s@),
{
    let mut i: usize = 0;
    while i < s.len()
        invariant
            i <= s@.len(),
            forall|j: int| 0 <= j < i ==> #[trigger] s@[j].piece.piece_type != PieceType::Pawn,
        decreases s@.len() - i,
    {
        if s[i].piece.piece_type == PieceType::Pawn {
            return true;
        }
        i = i + 1;
    }
    false
}

fn lowest_value(s: &Vec<BoardPiece>) -> (r: i32)
    requires
        s@.len() > 0,
    ensures
        r == min_value(s@),
{
    let mut m = s[0].piece.piece_type.value();
    let mut i: usize = 1;
    assert(min_value(s@.subrange(0, 1)) == s@[0].piece.piece_type.spec_value());
    while i < s.len()
        invariant
            1 <= i <= s@.len(),
            m == min_value(s@.subrange(0, i as int)),
        decreases s@.len() - i,
    {
        let v = s[i].piece.piece_type.value();
        assert(s@.subrange(0, i + 1).drop_last() =~= s@.subrange(0, i as int));
        if v < m {
            m = v;
        }
        i = i + 1;
    }
    assert(s@.subrange(0, s@.len() as int) =~= s@);
    m
}

/// Returns `true` if `piece` is safe on its current square, i.e. it cannot
/// be won by the opponent through a sequence of exchanges.
pub fn is_piece_safe(board: &Board, piece: &BoardPiece) -> (r: bool)
    requires
        room(*board, 1),
        piece.square < 64,
    ensures
        r == safe_spec(*board, *piece),
{
    let attacker_color = piece.piece.color.opposite();
    let direct_attackers = get_direct_attackers(board, piece.square, attacker_color);
    let attackers = get_attackers(board, piece.square, attacker_color);
    let defenders = get_defenders(board, piece, true);
    let v = piece.piece.piece_type.value();
    if any_cheaper(&direct_attackers, v) {
        return false;
    }
    if attackers.len() <= defenders.len() {
        return true;
    }
    if direct_attackers.len() > 0 {
        let lav = lowest_value(&direct_attackers);
        if v < lav && any_cheaper(&defenders, lav) {
            return true;
        }
    }
    any_pawn(&defenders)
}

/// The unsafe pieces of `color` below square `n`: no pawns or kings, only
/// pieces worth more than `cv`.
pub open spec fn unsafe_below(b: Board, color: Color, cv: i32, n: int) -> Seq<BoardPiece>
    decreases n,
{
    if n <= 0 {
        Seq::empty()
    } else {
        let r = unsafe_below(b, color, cv, n - 1);
        match b.spec_piece_at(n - 1) {
            Some(p) => if p.color == color && p.piece_type != PieceType::Pawn && p.piece_type != PieceType::King
                && p.piece_type.spec_value() > cv && !safe_spec(b, BoardPiece { piece: p, square: (n - 1) as u8 }) {
                r.push(BoardPiece { piece: p, square: (n - 1) as u8 })
            } else {
                r
            },
            None => r,
        }
    }
}

/// The value under which pieces are left out: that of the captured piece,
/// or zero.
pub open spec fn captured_or_zero(c: Option<i32>) -> i32 {
    match c {
        Some(v) => v,
        None => 0,
    }
}

/// Returns all pieces of `color` that are currently unsafe on the board.
///
/// Pawns and kings are excluded. If `last_move_captured_value` is
/// `Some(value)`, pieces whose value is at most that are excluded too.
pub fn get_unsafe_pieces(board: &Board, color: Color, last_move_captured_value: Option<i32>) -> (r: Vec<BoardPiece>)
    requires
        room(*board, 1),
    ensures
        r@ == unsafe_below(*board, color, captured_or_zero(last_move_captured_value), 64),
{
    let cv = match last_move_captured_value {
        Some(v) => v,
        None => 0,
    };
    let mut out: Vec<BoardPiece> = Vec::new();
    let mut sq: u8 = 0;
    while sq < 64
        invariant
            sq <= 64,
            room(*board, 1),
            cv == captured_or_zero(last_move_captured_value),
            out@ == unsafe_below(*board, color, cv, sq as int),
        decreases 64 - sq,
    {
        match board.piece_at(sq) {
            Some(p) => {
                if p.color == color && p.piece_type != PieceType::Pawn && p.piece_type != PieceType::King
                    && p.piece_type.value() > cv {
                    let bp = BoardPiece::new(p, sq);
                    if !is_piece_safe(board, &bp) {
                        out.push(bp);
                    }
                }
            },
            None => {},
        }
        sq = sq + 1;
    }
    out
}

/// The direct attackers (by the other colour) of each piece of `u` worth at
/// least `threatened`, other than it.
pub open spec fn relative_fold(b: Board, threatened: BoardPiece, acting: Color, u: Seq<BoardPiece>) -> Seq<Seq<BoardPiece>>
    decreases u.len(),
{
    if u.len() == 0 {
        Seq::empty()
    } else {
        let r = relative_fold(b, threatened, acting, u.drop_last());
        let up = u.last();
        if up.square != threatened.square && up.piece.piece_type.spec_value() >= threatened.piece.piece_type.spec_value() {
            r.push(direct_attackers(b, up.square as int, acting.spec_opposite()))
        } else {
            r
        }
    }
}

/// The direct attackers of each unsafe piece of `acting` worth at least
/// `threatened` (other than it).
pub open spec fn relative_spec(b: Board, threatened: BoardPiece, acting: Color, cap: Option<i32>) -> Seq<Seq<BoardPiece>> {
    relative_fold(b, threatened, acting, unsafe_below(b, acting, captured_or_zero(cap), 64))
}

/// The pieces of each vector.
pub open spec fn nested_view(v: Seq<Vec<BoardPiece>>) -> Seq<Seq<BoardPiece>> {
    v.map_values(|x: Vec<BoardPiece>| x@)
}

/// Returns the attackers of the unsafe pieces of `acting_color` worth as
/// much as `threatened_piece` or more, other than it.
fn relative_unsafe_piece_attacks(board: &Board, threatened_piece: &BoardPiece, acting_color: Color, last_captured_value: Option<i32>) -> (r: Vec<Vec<BoardPiece>>)
    requires
        room(*board, 1),
    ensures
        nested_view(r@) == relative_spec(*board, *threatened_piece, acting_color, last_captured_value),
{
    let u = get_unsafe_pieces(board, acting_color, last_captured_value);
    let mut out: Vec<Vec<BoardPiece>> = Vec::new();
    let mut i: usize = 0;
    assert(u@.subrange(0, 0) =~= Seq::<BoardPiece>::empty());
    assert(nested_view(out@) =~= Seq::<Seq<BoardPiece>>::empty());
    while i < u.len()
        invariant
            i <= u@.len(),
            board.wf(),
            nested_view(out@) == relative_fold(*board, *threatened_piece, acting_color, u@.subrange(0, i as int)),
        decreases u@.len() - i,
    {
        let up = u[i];
        let ghost post = u@.subrange(0, i + 1);
        assert(post.drop_last() =~= u@.subrange(0, i as int));
        assert(post.last() == up);
        if up.square != threatened_piece.square && up.piece.piece_type.value() >= threatened_piece.piece.piece_type.value() {
            let d = get_direct_attackers(board, up.square, acting_color.opposite());
            let ghost before = nested_view(out@);
            let ghost dv = d@;
            out.push(d);
            assert(nested_view(out@) =~= before.push(dv));
        }
        i = i + 1;
    }
    assert(u@.subrange(0, u@.len() as int) =~= u@);
    out
}

/// The value of the piece on `sq`, if any.
pub open spec fn value_at(b: Board, sq: int) -> Option<i32> {
    match b.spec_piece_at(sq) {
        Some(p) => Some(p.piece_type.spec_value()),
        None => None,
    }
}

/// A piece worth less than a queen.
pub open spec fn is_low_value(p: BoardPiece) -> bool {
    p.piece.piece_type.spec_value() < PieceType::Queen.spec_value()
}

/// Playing `mv` with the side of `threatened` creates a greater
/// counterthreat: more of its valuable pieces become unsafe than before,
/// or a piece worth less than a queen is given up for a mate.
pub open spec fn creates_spec(b: Board, threatened: BoardPiece, mv: Move) -> bool {
    let c = threatened.piece.color;
    let ab = with_side(b, c);
    if !pseudo_moves_spec(ab).contains(mv) {
        false
    } else {
        let after = apply_spec(ab, mv);
        let prev = relative_spec(ab, threatened, c, None);
        let new = relative_spec(after, threatened, c, value_at(b, mv.to as int));
        new.len() > prev.len() || (is_low_value(threatened) && some_mate(after))
    }
}

/// Playing `mv` with the side of `threatened` leaves a counterthreat at
/// least as great: some valuable piece of its side is unsafe after the
/// move, or a piece worth less than a queen is given up for a mate.
pub open spec fn leaves_spec(b: Board, threatened: BoardPiece, mv: Move) -> bool {
    let c = threatened.piece.color;
    let ab = with_side(b, c);
    if !pseudo_moves_spec(ab).contains(mv) {
        false
    } else {
        let after = apply_spec(ab, mv);
        relative_spec(after, threatened, c, value_at(b, mv.to as int)).len() > 0
            || (is_low_value(threatened) && some_mate(after))
    }
}

/// Returns `true` if playing `acting_move` creates a counterthreat that is
/// greater than the threat currently imposed on `threatened_piece`.
pub fn move_creates_greater_threat(board: &Board, threatened_piece: &BoardPiece, acting_move: &Move) -> (r: bool)
    requires
        room(*board, 3),
    ensures
        r == creates_spec(*board, *threatened_piece, *acting_move),
{
    let acting_color = threatened_piece.piece.color;
    let acting_board = with_side_to_move(board, acting_color);
    let prev = relative_unsafe_piece_attacks(&acting_board, threatened_piece, acting_color, None);
    let pseudo = generate_pseudo_legal_moves(&acting_board);
    if !contains_move(&pseudo, acting_move) {
        return false;
    }
    proof {
        let k = choose|k: int| 0 <= k < pseudo@.len() && pseudo@[k] == *acting_move;
        assert(move_ok(acting_color, pseudo@[k]));
        lemma_room_after(acting_board, *acting_move, 3);
    }
    let after_board = apply_move(&acting_board, acting_move);
    let captured_value = match board.piece_at(acting_move.to) {
        Some(p) => Some(p.piece_type.value()),
        None => None,
    };
    let new = relative_unsafe_piece_attacks(&after_board, threatened_piece, acting_color, captured_value);
    proof {
        assert(nested_view(prev@).len() == prev@.len());
        assert(nested_view(new@).len() == new@.len());
    }
    if new.len() > prev.len() {
        return true;
    }
    let is_low_value = threatened_piece.piece.piece_type.value() < PieceType::Queen.value();
    is_low_value && any_move_is_checkmate(&after_board)
}

/// Returns `true` if playing `acting_move` leaves a counterthreat at least as
/// great as the threat on `threatened_piece`, even if not directly caused by
/// the move itself.
pub fn move_leaves_greater_threat(board: &Board, threatened_piece: &BoardPiece, acting_move: &Move) -> (r: bool)
    requires
        room(*board, 3),
    ensures
        r == leaves_spec(*board, *threatened_piece, *acting_move),
{
    let acting_color = threatened_piece.piece.color;
    let acting_board = with_side_to_move(board, acting_color);
    let pseudo = generate_pseudo_legal_moves(&acting_board);
    if !contains_move(&pseudo, acting_move) {
        return false;
    }
    proof {
        let k = choose|k: int| 0 <= k < pseudo@.len() && pseudo@[k] == *acting_move;
        assert(move_ok(acting_color, pseudo@[k]));
        lemma_room_after(acting_board, *acting_move, 3);
    }
    let after_board = apply_move(&acting_board, acting_move);
    let captured_value = match board.piece_at(acting_move.to) {
        Some(p) => Some(p.piece_type.value()),
        None => None,
    };
    let relative = relative_unsafe_piece_attacks(&after_board, threatened_piece, acting_color, captured_value);
    proof {
        assert(nested_view(relative@).len() == relative@.len());
    }
    if relative.len() > 0 {
        return true;
    }
    let is_low_value = threatened_piece.piece.piece_type.value() < PieceType::Queen.value();
    is_low_value && any_move_is_checkmate(&after_board)
}

/// Every move of `moves` creates (or, with `Leaves`, leaves) a greater
/// counterthreat.
pub open spec fn danger_spec(b: Board, threatened: BoardPiece, moves: Seq<Move>, strategy: DangerEqualityStrategy) -> bool {
    &&& moves.len() > 0
    &&& forall|i: int| 0 <= i < moves.len() ==> match strategy {
        DangerEqualityStrategy::Creates => creates_spec(b, threatened, #[trigger] moves[i]),
        DangerEqualityStrategy::Leaves => leaves_spec(b, threatened, moves[i]),
    }
}

/// Returns `true` if every move in `acting_moves` creates (or leaves) a
/// counterthreat greater than that imposed on `threatened_piece`.
pub fn has_danger_levels(board: &Board, threatened_piece: &BoardPiece, acting_moves: &[Move], equality_strategy: DangerEqualityStrategy) -> (r: bool)
    requires
        room(*board, 3),
    ensures
        r == danger_spec(*board, *threatened_piece, acting_moves@, equality_strategy),
{
    if acting_moves.len() == 0 {
        return false;
    }
    let mut i: usize = 0;
    while i < acting_moves.len()
        invariant
            i <= acting_moves@.len(),
            room(*board, 3),
            forall|j: int| 0 <= j < i ==> match equality_strategy {
                DangerEqualityStrategy::Creates => creates_spec(*board, *threatened_piece, #[trigger] acting_moves@[j]),
                DangerEqualityStrategy::Leaves => leaves_spec(*board, *threatened_piece, acting_moves@[j]),
            },
        decreases acting_moves@.len() - i,
    {
        let ok = match equality_strategy {
            DangerEqualityStrategy::Creates => move_creates_greater_threat(board, threatened_piece, &acting_moves[i]),
            DangerEqualityStrategy::Leaves => move_leaves_greater_threat(board, threatened_piece, &acting_moves[i]),
        };
        if !ok {
            return false;
        }
        i = i + 1;
    }
    true
}

/// A move of the piece is no escape: it would take the king, or (with
/// danger levels) it creates a greater counterthreat, or the piece is not
/// safe where it lands.
pub open spec fn no_escape(cal: Board, piece: BoardPiece, mv: Move, check_danger: bool) -> bool {
    if (cal.spec_piece_at(mv.to as int) matches Some(t) && t.piece_type == PieceType::King) {
        false
    } else if check_danger && creates_spec(cal, piece, mv) {
        true
    } else {
        !safe_spec(apply_spec(cal, mv), BoardPiece { piece: piece.piece, square: mv.to })
    }
}

/// A piece is trapped when it is unsafe where it stands and every move it
/// has is no escape (a piece with no moves at all is trapped when unsafe).
pub open spec fn trapped_spec(b: Board, piece: BoardPiece, check_danger: bool) -> bool {
    let cal = with_side(b, piece.piece.color);
    let ms = pseudo_moves_spec(cal);
    !safe_spec(cal, piece) && forall|i: int| 0 <= i < ms.len() && (#[trigger] ms[i]).from == piece.square
        ==> no_escape(cal, piece, ms[i], check_danger)
}

/// Returns `true` if `piece` is trapped: unsafe on its square, with every
/// square it can move to unsafe as well (or, optionally, every move giving
/// the opponent a greater counterthreat).
pub fn is_piece_trapped(board: &Board, piece: &BoardPiece, check_danger_levels: bool) -> (r: bool)
    requires
        room(*board, 3),
        piece.square < 64,
    ensures
        r == trapped_spec(*board, *piece, check_danger_levels),
{
    let calibrated = with_side_to_move(board, piece.piece.color);
    let standing_safe = is_piece_safe(&calibrated, piece);
    let pseudo = generate_pseudo_legal_moves(&calibrated);
    let ghost ms = pseudo@;
    let mut all_unsafe = true;
    let mut i: usize = 0;
    while i < pseudo.len()
        invariant
            i <= ms.len(),
            ms == pseudo@,
            ms == pseudo_moves_spec(calibrated),
            calibrated == with_side(*board, piece.piece.color),
            all_ok(piece.piece.color, ms),
            room(calibrated, 3),
            all_unsafe == forall|j: int| 0 <= j < i && (#[trigger] ms[j]).from == piece.square
                ==> no_escape(calibrated, *piece, ms[j], check_danger_levels),
        decreases ms.len() - i,
    {
        let mv = pseudo[i];
        assert(move_ok(piece.piece.color, ms[i as int]));
        if mv.from == piece.square {
            let escape_fails = match calibrated.piece_at(mv.to) {
                Some(t) if t.piece_type == PieceType::King => false,
                _ => {
                    if check_danger_levels && move_creates_greater_threat(&calibrated, piece, &mv) {
                        true
                    } else {
                        proof {
                            lemma_room_after(calibrated, mv, 3);
                        }
                        let escape_board = apply_move(&calibrated, &mv);
                        let escaped_piece = BoardPiece::new(piece.piece, mv.to);
                        !is_piece_safe(&escape_board, &escaped_piece)
                    }
                },
            };
            assert(escape_fails == no_escape(calibrated, *piece, ms[i as int], check_danger_levels));
            if !escape_fails {
                all_unsafe = false;
            }
        }
        i = i + 1;
    }
    !standing_safe && all_unsafe
}

/// What the classification of a move reads besides the boards and the
/// expected point loss: the moves, the evaluations and the circumstances.
#[derive(Debug, Clone, Copy, PartialEq, Structural)]
pub struct MoveContext {
    pub played_move: Move,
    pub best_move: Move,
    pub eval_before: Evaluation,
    pub eval_after: Evaluation,
    pub second_best_eval: Option<Evaluation>,
    pub is_book: bool,
    pub is_forced: bool,
    pub in_check_before: bool,
    pub color: Color,
}

/// An evaluation seen from `color`'s side: negated for Black.
pub open spec fn subj(e: Evaluation, color: Color) -> Evaluation {
    if color == Color::Black {
        match e {
            Evaluation::Centipawn(v) => Evaluation::Centipawn(-v as i32),
            Evaluation::Mate(v) => Evaluation::Mate(-v as i32),
        }
    } else {
        e
    }
}

/// The evaluation shows a win of seven pawns or more for `color`.
pub open spec fn clearly_winning(e: Evaluation, color: Color) -> bool {
    subj(e, color) matches Evaluation::Centipawn(v) && v >= 700
}

/// A move can be critical unless the position was already won without it
/// (judged by the second-best move, else by the result), the player stands
/// worse after it, it promotes to a queen, or it answers a check.
pub open spec fn critical_spec(ctx: MoveContext) -> bool {
    let won = match ctx.second_best_eval {
        Some(e) => clearly_winning(e, ctx.color),
        None => clearly_winning(ctx.eval_after, ctx.color),
    };
    &&& !won
    &&& subj(ctx.eval_after, ctx.color).spec_value() >= 0
    &&& !(ctx.played_move.flag == MoveFlag::Promotion(PieceType::Queen))
    &&& !ctx.in_check_before
}

/// No evaluation of the context is the lowest 32-bit value.
pub open spec fn evals_ok(ctx: MoveContext) -> bool {
    &&& ctx.eval_after.spec_value() != i32::MIN
    &&& ctx.eval_before.spec_value() != i32::MIN
    &&& (ctx.second_best_eval matches Some(e) ==> e.spec_value() != i32::MIN)
}

/// Preliminary check shared by Brilliant and Great classifications.
///
/// A move cannot be critical if the position is already completely winning
/// even without this move, the player is in a losing position, it is a
/// queen promotion, or the player was in check.
pub fn is_critical_candidate(ctx: &MoveContext) -> (r: bool)
    requires
        evals_ok(*ctx),
    ensures
        r == critical_spec(*ctx),
{
    match ctx.second_best_eval {
        Some(second_eval) => {
            let second_subj = second_eval.subjective(ctx.color);
            if let Evaluation::Centipawn(v) = second_subj {
                if v >= 700 {
                    return false;
                }
            }
        },
        None => {
            let curr_subj = ctx.eval_after.subjective(ctx.color);
            if let Evaluation::Centipawn(v) = curr_subj {
                if v >= 700 {
                    return false;
                }
            }
        },
    }
    let subj_after = ctx.eval_after.subjective(ctx.color);
    if subj_after.value() < 0 {
        return false;
    }
    if ctx.played_move.promotion_piece() == Some(PieceType::Queen) {
        return false;
    }
    if ctx.in_check_before {
        return false;
    }
    true
}

/// The number of pieces of `s` that are trapped on `b`.
pub open spec fn trapped_count(b: Board, s: Seq<BoardPiece>) -> nat
    decreases s.len(),
{
    if s.len() == 0 {
        0
    } else {
        trapped_count(b, s.drop_last()) + if trapped_spec(b, s.last(), false) { 1nat } else { 0nat }
    }
}

/// Some piece of `s` on square `sq` is trapped on `b`.
pub open spec fn trapped_on(b: Board, s: Seq<BoardPiece>, sq: int) -> bool {
    exists|i: int| 0 <= i < s.len() && #[trigger] s[i].square == sq && trapped_spec(b, s[i], false)
}

/// The captures of `target` by each of `attackers`.
pub open spec fn captures_of(attackers: Seq<BoardPiece>, target: BoardPiece) -> Seq<Move> {
    attackers.map_values(|bp: BoardPiece| Move { from: bp.square, to: target.square, flag: MoveFlag::Normal })
}

/// Every unsafe piece of `us` has a counterthreat against each capture of it.
pub open spec fn all_protected(after: Board, us: Seq<BoardPiece>, opp: Color) -> bool {
    forall|i: int| 0 <= i < us.len() ==> danger_spec(after, #[trigger] us[i],
        captures_of(direct_attackers(after, us[i].square as int, opp), us[i]), DangerEqualityStrategy::Leaves)
}

/// A brilliant move: a critical, non-promoting move that does not merely
/// bring a piece to safety, leaves some unsafe piece of the mover without
/// a counterthreat, does not move an already trapped piece, does not leave
/// every unsafe piece trapped or fewer trapped than before, and leaves some
/// piece of the mover unsafe.
pub open spec fn brilliant_spec(before: Board, after: Board, ctx: MoveContext) -> bool {
    let mc = ctx.color;
    let prev_unsafe = unsafe_below(before, mc, 0, 64);
    let curr_unsafe = unsafe_below(after, mc, captured_or_zero(value_at(before, ctx.played_move.to as int)), 64);
    let prev_trapped = trapped_count(before, prev_unsafe);
    let curr_trapped = trapped_count(after, curr_unsafe);
    if !critical_spec(ctx) {
        false
    } else if ctx.played_move.flag is Promotion {
        false
    } else if !in_check_spec(after, mc) && curr_unsafe.len() < prev_unsafe.len() {
        false
    } else if all_protected(after, curr_unsafe, mc.spec_opposite()) {
        false
    } else if curr_trapped == curr_unsafe.len() || trapped_on(before, prev_unsafe, ctx.played_move.from as int)
        || curr_trapped < prev_trapped {
        false
    } else {
        curr_unsafe.len() > 0
    }
}

/// The plain captures of `target` by each of `attackers`.
fn capture_moves(attackers: &Vec<BoardPiece>, target: &BoardPiece) -> (r: Vec<Move>)
    ensures
        r@ == captures_of(attackers@, *target),
{
    let mut r: Vec<Move> = Vec::new();
    let mut i: usize = 0;
    while i < attackers.len()
        invariant
            i <= attackers@.len(),
            r@ == captures_of(attackers@.subrange(0, i as int), *target),
        decreases attackers@.len() - i,
    {
        r.push(Move::new(attackers[i].square, target.square));
        assert(r@ =~= captures_of(attackers@.subrange(0, i + 1), *target));
        i = i + 1;
    }
    assert(attackers@.subrange(0, attackers@.len() as int) =~= attackers@);
    r
}

/// How many pieces of `s` are trapped, and whether one on `sq` is.
fn count_trapped(board: &Board, s: &Vec<BoardPiece>, sq: Square) -> (r: (usize, bool))
    requires
        room(*board, 3),
        forall|i: int| 0 <= i < s@.len() ==> #[trigger] s@[i].square < 64,
    ensures
        r.0 == trapped_count(*board, s@),
        r.1 == trapped_on(*board, s@, sq as int),
{
    let mut n: usize = 0;
    let mut on = false;
    let mut i: usize = 0;
    assert(s@.subrange(0, 0) =~= Seq::<BoardPiece>::empty());
    while i < s.len()
        invariant
            i <= s@.len(),
            room(*board, 3),
            forall|k: int| 0 <= k < s@.len() ==> #[trigger] s@[k].square < 64,
            n == trapped_count(*board, s@.subrange(0, i as int)),
            n <= i,
            on == exists|k: int| 0 <= k < i && #[trigger] s@[k].square == sq && trapped_spec(*board, s@[k], false),
        decreases s@.len() - i,
    {
        let t = is_piece_trapped(board, &s[i], false);
        assert(s@.subrange(0, i + 1).drop_last() =~= s@.subrange(0, i as int));
        if t {
            n = n + 1;
            if s[i].square == sq {
                on = true;
            }
        }
        i = i + 1;
    }
    assert(s@.subrange(0, s@.len() as int) =~= s@);
    (n, on)
}

/// The unsafe pieces found by `unsafe_below` are on squares of the board.
proof fn lemma_unsafe_squares(b: Board, color: Color, cv: i32, n: int)
    requires
        n <= 64,
    ensures
        forall|i: int| 0 <= i < unsafe_below(b, color, cv, n).len() ==> #[trigger] unsafe_below(b, color, cv, n)[i].square < 64,
    decreases n,
{
    if n > 0 {
        lemma_unsafe_squares(b, color, cv, n - 1);
    }
}

/// Returns `true` if the move deserves a Brilliant classification.
pub fn is_brilliant(board_before: &Board, board_after: &Board, ctx: &MoveContext) -> (r: bool)
    requires
        room(*board_before, 3),
        room(*board_after, 3),
        evals_ok(*ctx),
        ctx.played_move.to < 64,
    ensures
        r == brilliant_spec(*board_before, *board_after, *ctx),
{
    if !is_critical_candidate(ctx) {
        return false;
    }
    if ctx.played_move.promotion_piece().is_some() {
        return false;
    }
    let mover_color = ctx.color;
    let opponent_color = mover_color.opposite();
    let prev_unsafe = get_unsafe_pieces(board_before, mover_color, None);
    let captured = match board_before.piece_at(ctx.played_move.to) {
        Some(p) => Some(p.piece_type.value()),
        None => None,
    };
    let curr_unsafe = get_unsafe_pieces(board_after, mover_color, captured);
    let in_check = match board_after.king_square(mover_color) {
        Some(_) => is_in_check(board_after, mover_color),
        None => false,
    };
    if !in_check && curr_unsafe.len() < prev_unsafe.len() {
        return false;
    }
    proof {
        lemma_unsafe_squares(*board_before, mover_color, 0, 64);
        lemma_unsafe_squares(*board_after, mover_color, captured_or_zero(captured), 64);
    }
    let mut protected = true;
    let mut i: usize = 0;
    while i < curr_unsafe.len()
        invariant
            i <= curr_unsafe@.len(),
            room(*board_after, 3),
            protected == forall|k: int| 0 <= k < i ==> danger_spec(*board_after, #[trigger] curr_unsafe@[k],
                captures_of(direct_attackers(*board_after, curr_unsafe@[k].square as int, opponent_color), curr_unsafe@[k]),
                DangerEqualityStrategy::Leaves),
        decreases curr_unsafe@.len() - i,
    {
        let up = curr_unsafe[i];
        let attackers = get_direct_attackers(board_after, up.square, opponent_color);
        let moves = capture_moves(&attackers, &up);
        if !has_danger_levels(board_after, &up, moves.as_slice(), DangerEqualityStrategy::Leaves) {
            protected = false;
        }
        i = i + 1;
    }
    if protected {
        return false;
    }
    let (prev_trapped, moved_was_trapped) = count_trapped(board_before, &prev_unsafe, ctx.played_move.from);
    let (curr_trapped, _) = count_trapped(board_after, &curr_unsafe, ctx.played_move.from);
    if curr_trapped == curr_unsafe.len() || moved_was_trapped || curr_trapped < prev_trapped {
        return false;
    }
    curr_unsafe.len() > 0
}

/// A sound move (Best, Excellent, Good or Okay) is risky when it leaves a
/// piece of the mover unsafe.
pub open spec fn risky_spec(kind: ClassificationKind, after: Board, color: Color) -> bool {
    (kind == ClassificationKind::Best || kind == ClassificationKind::Excellent || kind == ClassificationKind::Good
        || kind == ClassificationKind::Okay) && unsafe_below(after, color, 0, 64).len() > 0
}

/// Returns `true` if the move should be flagged as Risky: objectively fine
/// but leaving the mover's own pieces unsafe on the resulting board.
pub fn is_risky(kind: &ClassificationKind, board_after: &Board, color: Color) -> (r: bool)
    requires
        room(*board_after, 1),
    ensures
        r == risky_spec(*kind, *board_after, color),
{
    let is_sound = match kind {
        ClassificationKind::Best | ClassificationKind::Excellent | ClassificationKind::Good | ClassificationKind::Okay => true,
        _ => false,
    };
    if !is_sound {
        return false;
    }
    let unsafe_pieces = get_unsafe_pieces(board_after, color, None);
    unsafe_pieces.len() > 0
}


/// The mate-distance change of a move for its mover: how much the raw mate
/// count after the move exceeds the one before, from the mover's side.
pub open spec fn mate_loss(ctx: MoveContext) -> int {
    if ctx.color == Color::White {
        ctx.eval_after.spec_value() - ctx.eval_before.spec_value()
    } else {
        ctx.eval_before.spec_value() - ctx.eval_after.spec_value()
    }
}

/// What the point-loss classification decides from mate scores: with
/// mates before and after, a winning mate turned losing is a mistake (mate
/// far away) or a blunder, else the change of the mate distance grades the
/// move; a mate lost for centipawns is graded by the centipawns kept; a mate
/// found is best, a mate allowed is graded by its distance. With centipawns
/// before and after the expected point loss decides: `None`.
pub open spec fn mate_classify_spec(ctx: MoveContext) -> Option<ClassificationKind> {
    match (subj(ctx.eval_before, ctx.color), subj(ctx.eval_after, ctx.color)) {
        (Evaluation::Mate(p), Evaluation::Mate(c)) => Some(
            if p > 0 && c < 0 {
                if c < -3 { ClassificationKind::Mistake } else { ClassificationKind::Blunder }
            } else if mate_loss(ctx) < 0 || (mate_loss(ctx) == 0 && c < 0) {
                ClassificationKind::Best
            } else if mate_loss(ctx) < 2 {
                ClassificationKind::Excellent
            } else if mate_loss(ctx) < 7 {
                ClassificationKind::Okay
            } else {
                ClassificationKind::Inaccuracy
            },
        ),
        (Evaluation::Mate(_), Evaluation::Centipawn(v)) => Some(
            if v >= 800 {
                ClassificationKind::Excellent
            } else if v >= 400 {
                ClassificationKind::Okay
            } else if v >= 200 {
                ClassificationKind::Inaccuracy
            } else if v >= 0 {
                ClassificationKind::Mistake
            } else {
                ClassificationKind::Blunder
            },
        ),
        (Evaluation::Centipawn(_), Evaluation::Mate(v)) => Some(
            if v > 0 {
                ClassificationKind::Best
            } else if v >= -2 {
                ClassificationKind::Blunder
            } else if v >= -5 {
                ClassificationKind::Mistake
            } else {
                ClassificationKind::Inaccuracy
            },
        ),
        (Evaluation::Centipawn(_), Evaluation::Centipawn(_)) => None,
    }
}

/// The mate-distance change of the context fits in 32 bits wherever it is
/// computed.
pub open spec fn mate_loss_fits(ctx: MoveContext) -> bool {
    (ctx.eval_before is Mate && ctx.eval_after is Mate) ==> i32::MIN <= mate_loss(ctx) <= i32::MAX
}

/// Classifies a move by its mate scores; `None` when both evaluations are
/// in centipawns and the expected point loss must decide.
pub fn mate_classify(ctx: &MoveContext) -> (r: Option<ClassificationKind>)
    requires
        ctx.eval_before.spec_value() != i32::MIN,
        ctx.eval_after.spec_value() != i32::MIN,
        mate_loss_fits(*ctx),
    ensures
        r == mate_classify_spec(*ctx),
{
    let prev = ctx.eval_before.subjective(ctx.color);
    let curr = ctx.eval_after.subjective(ctx.color);
    match (prev, curr) {
        (Evaluation::Mate(p), Evaluation::Mate(c)) => {
            if p > 0 && c < 0 {
                return Some(if c < -3 { ClassificationKind::Mistake } else { ClassificationKind::Blunder });
            }
            let raw_before = ctx.eval_before.value();
            let raw_after = ctx.eval_after.value();
            let loss: i32 = match ctx.color {
                Color::White => raw_after - raw_before,
                Color::Black => raw_before - raw_after,
            };
            Some(
                if loss < 0 || (loss == 0 && c < 0) {
                    ClassificationKind::Best
                } else if loss < 2 {
                    ClassificationKind::Excellent
                } else if loss < 7 {
                    ClassificationKind::Okay
                } else {
                    ClassificationKind::Inaccuracy
                },
            )
        },
        (Evaluation::Mate(_), Evaluation::Centipawn(v)) => Some(
            if v >= 800 {
                ClassificationKind::Excellent
            } else if v >= 400 {
                ClassificationKind::Okay
            } else if v >= 200 {
                ClassificationKind::Inaccuracy
            } else if v >= 0 {
                ClassificationKind::Mistake
            } else {
                ClassificationKind::Blunder
            },
        ),
        (Evaluation::Centipawn(_), Evaluation::Mate(v)) => Some(
            if v > 0 {
                ClassificationKind::Best
            } else if v >= -2 {
                ClassificationKind::Blunder
            } else if v >= -5 {
                ClassificationKind::Mistake
            } else {
                ClassificationKind::Inaccuracy
            },
        ),
        (Evaluation::Centipawn(_), Evaluation::Centipawn(_)) => None,
    }
}

/// A move that captures is not great when the captured piece, counted as
/// one of the mover's, would not be safe there: such material is free.
pub open spec fn capture_ok_spec(board_before: Board, ctx: MoveContext) -> bool {
    match board_before.spec_piece_at(ctx.played_move.to as int) {
        Some(p) => safe_spec(
            board_before,
            BoardPiece { piece: Piece { piece_type: p.piece_type, color: ctx.color }, square: ctx.played_move.to },
        ),
        None => true,
    }
}

/// The evaluation of the second-best line that decides whether a move is
/// great, when the move can be great at all: it is a critical candidate, it
/// captures no free material, and the engine gave a second line. The move is
/// then great when that line loses enough expected points.
pub fn great_second_eval(board_before: &Board, ctx: &MoveContext) -> (r: Option<Evaluation>)
    requires
        evals_ok(*ctx),
        room(*board_before, 1),
        ctx.played_move.to < 64,
    ensures
        r == (if critical_spec(*ctx) && capture_ok_spec(*board_before, *ctx) { ctx.second_best_eval } else { None }),
{
    if !is_critical_candidate(ctx) {
        return None;
    }
    match board_before.piece_at(ctx.played_move.to) {
        Some(p) => {
            let captured = BoardPiece::new(Piece::new(p.piece_type, ctx.color), ctx.played_move.to);
            if !is_piece_safe(board_before, &captured) {
                return None;
            }
        },
        None => {},
    }
    ctx.second_best_eval
}

/// The classification of a move, checks taken in priority order: a book
/// move, a forced move, a brilliant move, a great move, and otherwise the
/// grade from the expected point loss, flagged risky when that grade is
/// sound but leaves a piece of the mover unsafe. Whether the move is great
/// and its grade come from the expected point loss, which the caller
/// computes; they are not read for a book or forced move.
pub fn classify_in_order(
    board_before: &Board,
    board_after: &Board,
    ctx: &MoveContext,
    great: bool,
    graded: ClassificationKind,
) -> (r: ClassificationKind)
    requires
        !ctx.is_book && !ctx.is_forced ==> {
            &&& room(*board_before, 3)
            &&& room(*board_after, 3)
            &&& evals_ok(*ctx)
            &&& ctx.played_move.to < 64
        },
    ensures
        r == (if ctx.is_book {
            ClassificationKind::Book
        } else if ctx.is_forced {
            ClassificationKind::Forced
        } else if brilliant_spec(*board_before, *board_after, *ctx) {
            ClassificationKind::Brilliant
        } else if great {
            ClassificationKind::Great
        } else if risky_spec(graded, *board_after, ctx.color) {
            ClassificationKind::Risky
        } else {
            graded
        }),
{
    if ctx.is_book {
        return ClassificationKind::Book;
    }
    if ctx.is_forced {
        return ClassificationKind::Forced;
    }
    if is_brilliant(board_before, board_after, ctx) {
        return ClassificationKind::Brilliant;
    }
    if great {
        return ClassificationKind::Great;
    }
    if is_risky(&graded, board_after, ctx.color) {
        return ClassificationKind::Risky;
    }
    graded
}

/// A piece that is safe where it stands, with its own side to move, is not
/// trapped, whether danger levels are checked or not.
pub proof fn lemma_safe_piece_not_trapped(b: Board, piece: BoardPiece, check_danger: bool)
    ensures
        safe_spec(with_side(b, piece.piece.color), piece) ==> !trapped_spec(b, piece, check_danger),
{
}

/// A move that creates a greater counterthreat also leaves one; and a move
/// that its side cannot make does neither.
pub proof fn lemma_creates_implies_leaves(b: Board, threatened: BoardPiece, mv: Move)
    ensures
        creates_spec(b, threatened, mv) ==> leaves_spec(b, threatened, mv),
        !pseudo_moves_spec(with_side(b, threatened.piece.color)).contains(mv) ==> !creates_spec(b, threatened, mv)
            && !leaves_spec(b, threatened, mv),
{
}

/// An evaluation seen from the other side: the same kind with the value
/// negated.
pub open spec fn negated(e: Evaluation) -> Evaluation {
    match e {
        Evaluation::Centipawn(v) => Evaluation::Centipawn(-v as i32),
        Evaluation::Mate(v) => Evaluation::Mate(-v as i32),
    }
}

/// Mate grading does not depend on the colour of the mover: grading a
/// Black move equals grading, for White, the same move with both
/// evaluations negated (the board seen from the other side). In
/// particular a Black mover whose mate count grows by seven moves or more,
/// such as from mate in 3 to mate in 12, is graded no better than an
/// inaccuracy, as a White mover is.
pub proof fn lemma_mate_grading_colour_symmetric(ctx: MoveContext)
    requires
        ctx.color == Color::Black,
        ctx.eval_before.spec_value() != i32::MIN,
        ctx.eval_after.spec_value() != i32::MIN,
    ensures
        mate_classify_spec(ctx) == mate_classify_spec(MoveContext {
            color: Color::White,
            eval_before: negated(ctx.eval_before),
            eval_after: negated(ctx.eval_after),
            ..ctx
        }),
{
}

/// A mover keeping a winning mate whose mate count grows by seven moves or
/// more has played an inaccuracy, whatever its colour.
pub proof fn lemma_mate_delay_is_inaccuracy(ctx: MoveContext, p: int, c: int)
    requires
        ctx.eval_before.spec_value() != i32::MIN,
        ctx.eval_after.spec_value() != i32::MIN,
        subj(ctx.eval_before, ctx.color) == Evaluation::Mate(p as i32),
        subj(ctx.eval_after, ctx.color) == Evaluation::Mate(c as i32),
        0 < p,
        p + 7 <= c,
        c <= i32::MAX,
    ensures
        mate_classify_spec(ctx) == Some(ClassificationKind::Inaccuracy),
{
    if ctx.color == Color::Black {
        assert(ctx.eval_before == Evaluation::Mate(-p as i32));
        assert(ctx.eval_after == Evaluation::Mate(-c as i32));
    } else {
        assert(ctx.eval_before == Evaluation::Mate(p as i32));
        assert(ctx.eval_after == Evaluation::Mate(c as i32));
    }
    assert(mate_loss(ctx) == c - p);
}

/// A mover who keeps a winning mate is graded no better for a longer mate:
/// the more the mate count grows, the more severe the grade.
pub proof fn lemma_mate_delay_monotone(ctx1: MoveContext, ctx2: MoveContext, p: int, c1: int, c2: int)
    requires
        ctx1.eval_before.spec_value() != i32::MIN,
        ctx1.eval_after.spec_value() != i32::MIN,
        ctx2.eval_before.spec_value() != i32::MIN,
        ctx2.eval_after.spec_value() != i32::MIN,
        subj(ctx1.eval_before, ctx1.color) == Evaluation::Mate(p as i32),
        subj(ctx2.eval_before, ctx2.color) == Evaluation::Mate(p as i32),
        subj(ctx1.eval_after, ctx1.color) == Evaluation::Mate(c1 as i32),
        subj(ctx2.eval_after, ctx2.color) == Evaluation::Mate(c2 as i32),
        0 < p <= i32::MAX,
        0 < c1 <= c2 <= i32::MAX,
    ensures
        mate_classify_spec(ctx1) is Some,
        mate_classify_spec(ctx2) is Some,
        crate::analyzer::severity(mate_classify_spec(ctx1)->0) <= crate::analyzer::severity(mate_classify_spec(ctx2)->0),
{
    lemma_mate_loss_subjective(ctx1, p, c1);
    lemma_mate_loss_subjective(ctx2, p, c2);
}

/// With mate scores on both sides, the mate loss is the growth of the mate
/// count seen from the mover.
proof fn lemma_mate_loss_subjective(ctx: MoveContext, p: int, c: int)
    requires
        ctx.eval_before.spec_value() != i32::MIN,
        ctx.eval_after.spec_value() != i32::MIN,
        subj(ctx.eval_before, ctx.color) == Evaluation::Mate(p as i32),
        subj(ctx.eval_after, ctx.color) == Evaluation::Mate(c as i32),
        i32::MIN < p <= i32::MAX,
        i32::MIN < c <= i32::MAX,
    ensures
        mate_loss(ctx) == c - p,
{
    if ctx.color == Color::Black {
        assert(ctx.eval_before == Evaluation::Mate(-p as i32));
        assert(ctx.eval_after == Evaluation::Mate(-c as i32));
    } else {
        assert(ctx.eval_before == Evaluation::Mate(p as i32));
        assert(ctx.eval_after == Evaluation::Mate(c as i32));
    }
}

} // verus!
