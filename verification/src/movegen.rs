//! Move generation: pseudo-legal moves in a fixed order, move application,
//! and the legal moves (those that do not leave the mover in check).
use vstd::prelude::*;
use crate::attacks::{
    bishop_attacks, bishop_sees, fl, in_check_spec, is_in_check, is_square_attacked, king_attacks_sq,
    king_move, knight_attacks_sq, knight_move, lemma_masks, lemma_shl_bit, lemma_shr_bit, rk, rook_attacks,
    rook_sees, attacked_spec, FILE_A, FILE_H, RANK_1, RANK_3, RANK_6, RANK_8,
};
use crate::bits::{has_bit, lemma_bits_all, single};
use crate::board::{lemma_first_set_from, lowest_square, Board};
use crate::types::{CastlingRights, Color, Move, MoveFlag, PieceType, Square};

verus! {

/// The moves of `f(s)` for every square `s` from `from` to 63, in square order.
pub open spec fn concat_squares(f: spec_fn(int) -> Seq<Move>, from: int) -> Seq<Move>
    decreases 64 - from,
{
    if from >= 64 || from < 0 {
        Seq::empty()
    } else {
        f(from) + concat_squares(f, from + 1)
    }
}

pub proof fn lemma_concat_ext(f: spec_fn(int) -> Seq<Move>, g: spec_fn(int) -> Seq<Move>, from: int)
    requires
        0 <= from <= 64,
        forall|t: int| from <= t < 64 ==> #[trigger] f(t) == g(t),
    ensures
        concat_squares(f, from) == concat_squares(g, from),
    decreases 64 - from,
{
    if from < 64 {
        lemma_concat_ext(f, g, from + 1);
    }
}

/// The plain move from `from` to `to`.
pub open spec fn quiet(from: int, to: int) -> Move {
    Move { from: from as u8, to: to as u8, flag: MoveFlag::Normal }
}

pub open spec fn quiet_fn(from: int, pred: spec_fn(int) -> bool) -> spec_fn(int) -> Seq<Move> {
    |to: int| if pred(to) { seq![quiet(from, to)] } else { Seq::<Move>::empty() }
}

/// Plain moves from `from` to every square satisfying `pred`, in square order.
pub open spec fn moves_to(from: int, pred: spec_fn(int) -> bool) -> Seq<Move> {
    concat_squares(quiet_fn(from, pred), 0)
}

pub proof fn lemma_moves_to_ext(from: int, p: spec_fn(int) -> bool, q: spec_fn(int) -> bool)
    requires
        forall|t: int| 0 <= t < 64 ==> #[trigger] p(t) == q(t),
    ensures
        moves_to(from, p) == moves_to(from, q),
{
    assert forall|t: int| 0 <= t < 64 implies #[trigger] quiet_fn(from, p)(t) == quiet_fn(from, q)(t) by {
        assert(p(t) == q(t));
    }
    lemma_concat_ext(quiet_fn(from, p), quiet_fn(from, q), 0);
}

/// The move fits the board and the en-passant bookkeeping of a side to move.
pub open spec fn move_ok(side: Color, m: Move) -> bool {
    &&& m.from < 64
    &&& m.to < 64
    &&& (m.flag == MoveFlag::DoublePawnPush || m.flag == MoveFlag::EnPassant) ==> match side {
        Color::White => m.to >= 8,
        Color::Black => m.to < 56,
    }
    &&& (m.flag == MoveFlag::CastleKingside || m.flag == MoveFlag::CastleQueenside) ==> (m.from == 4 || m.from == 60)
}

pub open spec fn all_ok(side: Color, s: Seq<Move>) -> bool {
    forall|i: int| 0 <= i < s.len() ==> #[trigger] move_ok(side, s[i])
}

pub open spec fn has_fn(targets: u64) -> spec_fn(int) -> bool {
    |to: int| has_bit(targets, to)
}

/// Expands a target bitboard into plain moves from `from`, in square order.
pub fn add_quiet_moves(from: Square, targets: u64, moves: &mut Vec<Move>, Ghost(side): Ghost<Color>)
    requires
        from < 64,
        all_ok(side, old(moves)@),
    ensures
        final(moves)@ == old(moves)@ + moves_to(from as int, has_fn(targets)),
        all_ok(side, final(moves)@),
{
    let ghost f = quiet_fn(from as int, has_fn(targets));
    let mut to: u8 = 0;
    assert(old(moves)@ + concat_squares(f, 0) =~= moves@ + concat_squares(f, 0));
    while to < 64
        invariant
            to <= 64,
            from < 64,
            f == quiet_fn(from as int, has_fn(targets)),
            old(moves)@ + concat_squares(f, 0) == moves@ + concat_squares(f, to as int),
            all_ok(side, moves@),
        decreases 64 - to,
    {
        let ghost before = moves@;
        if (targets >> (to as u64)) & 1 == 1 {
            moves.push(Move::new(from, to));
        }
        assert(f(to as int) == if has_bit(targets, to as int) { seq![quiet(from as int, to as int)] } else { Seq::<Move>::empty() });
        assert(moves@ =~= before + f(to as int));
        assert(before + concat_squares(f, to as int) =~= moves@ + concat_squares(f, to + 1));
        to = to + 1;
    }
}

/// What a piece of type `pt` on `from` attacks on `to`, given occupancy `occ`.
pub open spec fn piece_targets(pt: PieceType, occ: u64, from: int, to: int) -> bool {
    match pt {
        PieceType::Knight => knight_move(from, to),
        PieceType::Bishop => bishop_sees(from, to, occ),
        PieceType::Rook => rook_sees(from, to, occ),
        PieceType::Queen => bishop_sees(from, to, occ) || rook_sees(from, to, occ),
        PieceType::King => king_move(from, to),
        PieceType::Pawn => false,
    }
}

/// Targets of a piece of type `pt` on `from` of side `us`: attacked squares
/// not holding a piece of `us`.
pub open spec fn target_fn(b: Board, us: Color, pt: PieceType, from: int) -> spec_fn(int) -> bool {
    |to: int| piece_targets(pt, b.occ_bits(), from, to) && !b.occupied_by(us, to)
}

pub open spec fn piece_fn(b: Board, us: Color, pt: PieceType) -> spec_fn(int) -> Seq<Move> {
    |from: int| if b.has(us, pt.spec_index() as int, from) {
        moves_to(from, target_fn(b, us, pt, from))
    } else {
        Seq::<Move>::empty()
    }
}

/// All plain moves of the pieces of type `pt` of side `us`, by source square
/// then target square.
pub open spec fn piece_section(b: Board, us: Color, pt: PieceType) -> Seq<Move> {
    concat_squares(piece_fn(b, us, pt), 0)
}

/// Attack bitboard of a knight, bishop, rook or queen on `from`.
fn attacks_of(pt: PieceType, from: Square, occ: u64) -> (r: u64)
    requires
        from < 64,
        pt == PieceType::Knight || pt == PieceType::Bishop || pt == PieceType::Rook || pt == PieceType::Queen,
    ensures
        forall|t: int| 0 <= t < 64 ==> (has_bit(r, t) <==> #[trigger] piece_targets(pt, occ, from as int, t)),
{
    match pt {
        PieceType::Knight => knight_attacks_sq(from),
        PieceType::Bishop => bishop_attacks(from, occ),
        PieceType::Rook => rook_attacks(from, occ),
        _ => {
            let b = bishop_attacks(from, occ);
            let r = rook_attacks(from, occ);
            proof {
                lemma_bits_all();
            }
            b | r
        },
    }
}

/// Appends the plain moves of every piece of type `pt` of side `us`.
fn add_piece_moves(board: &Board, pt: PieceType, us: Color, occ: u64, our: u64, moves: &mut Vec<Move>)
    requires
        pt == PieceType::Knight || pt == PieceType::Bishop || pt == PieceType::Rook || pt == PieceType::Queen,
        occ == board.occ_bits(),
        our == board.color_bits(us.spec_index() as int),
        all_ok(board.side_to_move, old(moves)@),
    ensures
        final(moves)@ == old(moves)@ + piece_section(*board, us, pt),
        all_ok(board.side_to_move, final(moves)@),
{
    let ghost b = *board;
    let ghost f = piece_fn(b, us, pt);
    let not_our = !our;
    let bb = board.piece_bb(us, pt);
    let mut from: u8 = 0;
    assert(old(moves)@ + concat_squares(f, 0) =~= moves@ + concat_squares(f, 0));
    while from < 64
        invariant
            from <= 64,
            b == *board,
            f == piece_fn(b, us, pt),
            pt == PieceType::Knight || pt == PieceType::Bishop || pt == PieceType::Rook || pt == PieceType::Queen,
            occ == b.occ_bits(),
            our == b.color_bits(us.spec_index() as int),
            not_our == !our,
            bb == b.bbv(us.spec_index() as int, pt.spec_index() as int),
            old(moves)@ + concat_squares(f, 0) == moves@ + concat_squares(f, from as int),
            all_ok(b.side_to_move, moves@),
        decreases 64 - from,
    {
        let ghost before = moves@;
        if (bb >> (from as u64)) & 1 == 1 {
            let atk = attacks_of(pt, from, occ);
            let targets = atk & not_our;
            add_quiet_moves(from, targets, moves, Ghost(b.side_to_move));
            proof {
                lemma_bits_all();
                assert forall|t: int| 0 <= t < 64 implies #[trigger] has_fn(targets)(t) == target_fn(b, us, pt, from as int)(t) by {
                    assert(has_bit(atk, t) == piece_targets(pt, occ, from as int, t));
                    assert(has_bit(our, t) == b.occupied_by(us, t));
                }
                lemma_moves_to_ext(from as int, has_fn(targets), target_fn(b, us, pt, from as int));
            }
        }
        assert(moves@ =~= before + f(from as int));
        assert(before + concat_squares(f, from as int) =~= moves@ + concat_squares(f, from + 1));
        from = from + 1;
    }
}

/// How a pawn target turns into moves.
#[derive(Clone, Copy, PartialEq, Eq, Structural)]
pub enum PawnKind {
    Push,
    Double,
    Capture,
    Promo,
}

/// The four promotions from `from` to `to`, queen first, then rook, bishop, knight.
pub open spec fn promotions(from: int, to: int) -> Seq<Move> {
    seq![
        Move { from: from as u8, to: to as u8, flag: MoveFlag::Promotion(PieceType::Queen) },
        Move { from: from as u8, to: to as u8, flag: MoveFlag::Promotion(PieceType::Rook) },
        Move { from: from as u8, to: to as u8, flag: MoveFlag::Promotion(PieceType::Bishop) },
        Move { from: from as u8, to: to as u8, flag: MoveFlag::Promotion(PieceType::Knight) },
    ]
}

pub open spec fn pawn_moves_at(from: int, to: int, kind: PawnKind, is_ep: bool) -> Seq<Move> {
    match kind {
        PawnKind::Push => seq![quiet(from, to)],
        PawnKind::Double => seq![Move { from: from as u8, to: to as u8, flag: MoveFlag::DoublePawnPush }],
        PawnKind::Capture => if is_ep {
            seq![Move { from: from as u8, to: to as u8, flag: MoveFlag::EnPassant }]
        } else {
            seq![quiet(from, to)]
        },
        PawnKind::Promo => promotions(from, to),
    }
}

pub open spec fn pawn_fn(pred: spec_fn(int) -> bool, delta: int, kind: PawnKind, ep: Option<u8>) -> spec_fn(int) -> Seq<Move> {
    |to: int| if pred(to) {
        pawn_moves_at(to - delta, to, kind, ep == Some(to as u8))
    } else {
        Seq::<Move>::empty()
    }
}

/// The moves of a pawn section: for each target square satisfying `pred`,
/// the moves of a pawn coming from `delta` squares behind.
pub open spec fn pawn_list(pred: spec_fn(int) -> bool, delta: int, kind: PawnKind, ep: Option<u8>) -> Seq<Move> {
    concat_squares(pawn_fn(pred, delta, kind, ep), 0)
}

pub open spec fn pawn_shape_ok(side: Color, to: int, delta: int, kind: PawnKind, ep: Option<u8>) -> bool {
    &&& 0 <= to < 64
    &&& 0 <= to - delta < 64
    &&& (kind == PawnKind::Double || (kind == PawnKind::Capture && ep == Some(to as u8))) ==> match side {
        Color::White => to >= 8,
        Color::Black => to < 56,
    }
}

/// Appends all four promotion variants (Q, R, B, N) for a pawn moving
/// from `from` to `to`.
fn push_promotions(from: Square, to: Square, moves: &mut Vec<Move>)
    ensures
        final(moves)@ == old(moves)@ + promotions(from as int, to as int),
{
    moves.push(Move::with_flag(from, to, MoveFlag::Promotion(PieceType::Queen)));
    moves.push(Move::with_flag(from, to, MoveFlag::Promotion(PieceType::Rook)));
    moves.push(Move::with_flag(from, to, MoveFlag::Promotion(PieceType::Bishop)));
    moves.push(Move::with_flag(from, to, MoveFlag::Promotion(PieceType::Knight)));
    assert(final(moves)@ =~= old(moves)@ + promotions(from as int, to as int));
}

/// Appends the moves of every target square in `bb`, in square order.
fn push_pawn_section(
    moves: &mut Vec<Move>,
    bb: u64,
    delta: i32,
    kind: PawnKind,
    ep_bit: u64,
    Ghost(ep): Ghost<Option<u8>>,
    Ghost(side): Ghost<Color>,
)
    requires
        -16 <= delta <= 16,
        forall|t: int| 0 <= t < 64 ==> (#[trigger] has_bit(ep_bit, t) <==> (ep == Some(t as u8))),
        forall|t: int| #[trigger] has_bit(bb, t) ==> pawn_shape_ok(side, t, delta as int, kind, ep),
        all_ok(side, old(moves)@),
    ensures
        final(moves)@ == old(moves)@ + pawn_list(has_fn(bb), delta as int, kind, ep),
        all_ok(side, final(moves)@),
{
    let ghost f = pawn_fn(has_fn(bb), delta as int, kind, ep);
    let mut to: u8 = 0;
    assert(old(moves)@ + concat_squares(f, 0) =~= moves@ + concat_squares(f, 0));
    while to < 64
        invariant
            to <= 64,
            -16 <= delta <= 16,
            f == pawn_fn(has_fn(bb), delta as int, kind, ep),
            forall|t: int| 0 <= t < 64 ==> (#[trigger] has_bit(ep_bit, t) <==> (ep == Some(t as u8))),
            forall|t: int| #[trigger] has_bit(bb, t) ==> pawn_shape_ok(side, t, delta as int, kind, ep),
            old(moves)@ + concat_squares(f, 0) == moves@ + concat_squares(f, to as int),
            all_ok(side, moves@),
        decreases 64 - to,
    {
        let ghost before = moves@;
        if (bb >> (to as u64)) & 1 == 1 {
            assert(has_bit(bb, to as int));
            let from = (to as i32 - delta) as u8;
            assert(from as int == to - delta);
            assert(((to - delta) as u8) == from);
            match kind {
                PawnKind::Push => moves.push(Move::new(from, to)),
                PawnKind::Double => moves.push(Move::with_flag(from, to, MoveFlag::DoublePawnPush)),
                PawnKind::Capture => {
                    if (ep_bit >> (to as u64)) & 1 != 0 {
                        assert(has_bit(ep_bit, to as int)) by {
                            assert(((ep_bit >> (to as u64)) & 1 != 0) ==> (ep_bit >> (to as u64)) & 1 == 1) by (bit_vector);
                        }
                        moves.push(Move::with_flag(from, to, MoveFlag::EnPassant));
                    } else {
                        assert(!has_bit(ep_bit, to as int));
                        moves.push(Move::new(from, to));
                    }
                },
                PawnKind::Promo => push_promotions(from, to, moves),
            }
        }
        assert(f(to as int) == if has_bit(bb, to as int) {
            pawn_moves_at(to - delta, to as int, kind, ep == Some(to as u8))
        } else {
            Seq::<Move>::empty()
        });
        assert(moves@ =~= before + f(to as int));
        assert(before + concat_squares(f, to as int) =~= moves@ + concat_squares(f, to + 1));
        to = to + 1;
    }
}

/// An opposing piece, or the en-passant target, stands on `t`.
pub open spec fn capturable(b: Board, us: Color, t: int) -> bool {
    b.occupied_by(us.spec_opposite(), t) || b.en_passant == Some(t as u8)
}

/// `t` is empty and a pawn of `us` stands right behind it.
pub open spec fn pawn_push(b: Board, us: Color, t: int) -> bool {
    &&& 0 <= t < 64
    &&& !b.occupied(t)
    &&& match us {
        Color::White => t >= 8 && b.has(us, 0, t - 8),
        Color::Black => t + 8 < 64 && b.has(us, 0, t + 8),
    }
}

/// `t` is on the fourth rank of `us`, it and the square behind it are
/// empty, and a pawn of `us` stands on its start square two ranks behind.
pub open spec fn pawn_double(b: Board, us: Color, t: int) -> bool {
    &&& 0 <= t < 64
    &&& !b.occupied(t)
    &&& match us {
        Color::White => rk(t) == 3 && b.has(us, 0, t - 16) && !b.occupied(t - 8),
        Color::Black => rk(t) == 4 && b.has(us, 0, t + 16) && !b.occupied(t + 8),
    }
}

/// A pawn of `us` captures onto `t` towards the h-file (White) or the
/// a-file... as seen from its own side: from `t - 9` for White, `t + 7` for Black.
pub open spec fn pawn_cap_a(b: Board, us: Color, t: int) -> bool {
    &&& 0 <= t < 64
    &&& fl(t) != 0
    &&& capturable(b, us, t)
    &&& match us {
        Color::White => t >= 9 && b.has(us, 0, t - 9),
        Color::Black => t + 7 < 64 && b.has(us, 0, t + 7),
    }
}

/// A pawn of `us` captures onto `t` from `t - 7` (White) or `t + 9` (Black).
pub open spec fn pawn_cap_b(b: Board, us: Color, t: int) -> bool {
    &&& 0 <= t < 64
    &&& fl(t) != 7
    &&& capturable(b, us, t)
    &&& match us {
        Color::White => t >= 7 && b.has(us, 0, t - 7),
        Color::Black => t + 9 < 64 && b.has(us, 0, t + 9),
    }
}

/// The last rank of `us` (where pawns promote).
pub open spec fn promo_rank(us: Color) -> int {
    match us {
        Color::White => 7,
        Color::Black => 0,
    }
}

/// Target condition of pawn section `sec` (1..7): pushes, double pushes,
/// push promotions, the two kinds of captures, and the two kinds of capture
/// promotions.
pub open spec fn pawn_pred_at(b: Board, us: Color, sec: int, t: int) -> bool {
    if sec == 1 {
        pawn_push(b, us, t) && rk(t) != promo_rank(us)
    } else if sec == 2 {
        pawn_double(b, us, t)
    } else if sec == 3 {
        pawn_push(b, us, t) && rk(t) == promo_rank(us)
    } else if sec == 4 {
        pawn_cap_a(b, us, t) && rk(t) != promo_rank(us)
    } else if sec == 5 {
        pawn_cap_b(b, us, t) && rk(t) != promo_rank(us)
    } else if sec == 6 {
        pawn_cap_a(b, us, t) && rk(t) == promo_rank(us)
    } else {
        pawn_cap_b(b, us, t) && rk(t) == promo_rank(us)
    }
}

pub open spec fn pawn_pred(b: Board, us: Color, sec: int) -> spec_fn(int) -> bool {
    |t: int| pawn_pred_at(b, us, sec, t)
}

/// How far behind its target a pawn of section `sec` starts.
pub open spec fn pawn_delta(us: Color, sec: int) -> int {
    let d = if sec == 1 || sec == 3 { 8int } else if sec == 2 { 16int } else if sec == 4 || sec == 6 {
        match us {
            Color::White => 9int,
            Color::Black => 7int,
        }
    } else {
        match us {
            Color::White => 7int,
            Color::Black => 9int,
        }
    };
    match us {
        Color::White => d,
        Color::Black => -d,
    }
}

pub open spec fn pawn_kind(sec: int) -> PawnKind {
    if sec == 1 {
        PawnKind::Push
    } else if sec == 2 {
        PawnKind::Double
    } else if sec == 4 || sec == 5 {
        PawnKind::Capture
    } else {
        PawnKind::Promo
    }
}

pub open spec fn pawn_sec(b: Board, us: Color, sec: int) -> Seq<Move> {
    pawn_list(pawn_pred(b, us, sec), pawn_delta(us, sec), pawn_kind(sec), b.en_passant)
}

/// All pawn moves of `us`, in the order: pushes, double pushes, push
/// promotions, captures of each side, then capture promotions of each side;
/// within a section by target square.
pub open spec fn pawn_section(b: Board, us: Color) -> Seq<Move> {
    pawn_sec(b, us, 1) + pawn_sec(b, us, 2) + pawn_sec(b, us, 3) + pawn_sec(b, us, 4)
        + pawn_sec(b, us, 5) + pawn_sec(b, us, 6) + pawn_sec(b, us, 7)
}

pub proof fn lemma_pawn_list_ext(p: spec_fn(int) -> bool, q: spec_fn(int) -> bool, delta: int, kind: PawnKind, ep: Option<u8>)
    requires
        forall|t: int| 0 <= t < 64 ==> #[trigger] p(t) == q(t),
    ensures
        pawn_list(p, delta, kind, ep) == pawn_list(q, delta, kind, ep),
{
    assert forall|t: int| 0 <= t < 64 implies #[trigger] pawn_fn(p, delta, kind, ep)(t) == pawn_fn(q, delta, kind, ep)(t) by {
        assert(p(t) == q(t));
    }
    lemma_concat_ext(pawn_fn(p, delta, kind, ep), pawn_fn(q, delta, kind, ep), 0);
}

/// Appends pawn section `sec` given its target bitboard.
fn pawn_section_push(
    moves: &mut Vec<Move>,
    bb: u64,
    delta: i32,
    kind: PawnKind,
    ep_bit: u64,
    Ghost(b): Ghost<Board>,
    Ghost(sec): Ghost<int>,
)
    requires
        -16 <= delta <= 16,
        delta == pawn_delta(b.side_to_move, sec),
        kind == pawn_kind(sec),
        forall|t: int| 0 <= t < 64 ==> (#[trigger] has_bit(ep_bit, t) <==> (b.en_passant == Some(t as u8))),
        forall|t: int| 0 <= t < 64 ==> (#[trigger] has_bit(bb, t) <==> pawn_pred_at(b, b.side_to_move, sec, t)),
        forall|t: int| #[trigger] has_bit(bb, t) ==> pawn_shape_ok(b.side_to_move, t, delta as int, kind, b.en_passant),
        all_ok(b.side_to_move, old(moves)@),
    ensures
        final(moves)@ == old(moves)@ + pawn_sec(b, b.side_to_move, sec),
        all_ok(b.side_to_move, final(moves)@),
{
    push_pawn_section(moves, bb, delta, kind, ep_bit, Ghost(b.en_passant), Ghost(b.side_to_move));
    proof {
        assert forall|t: int| 0 <= t < 64 implies #[trigger] has_fn(bb)(t) == pawn_pred(b, b.side_to_move, sec)(t) by {
            assert(has_bit(bb, t) == pawn_pred_at(b, b.side_to_move, sec, t));
        }
        lemma_pawn_list_ext(has_fn(bb), pawn_pred(b, b.side_to_move, sec), delta as int, kind, b.en_passant);
    }
}

/// What the shifted pawn bitboards of White hold.
proof fn lemma_white_pawn_bits(b: Board, pawns: u64, empty: u64, their: u64, ep_bit: u64, single: u64, double: u64, cap_r: u64, cap_l: u64)
    requires
        b.side_to_move == Color::White,
        pawns == b.bbv(0, 0),
        empty == !b.occ_bits(),
        their == b.color_bits(1),
        forall|t: int| 0 <= t < 64 ==> (#[trigger] has_bit(ep_bit, t) <==> (b.en_passant == Some(t as u8))),
        single == (pawns << 8u64) & empty,
        double == ((single & RANK_3) << 8u64) & empty,
        cap_r == (pawns << 9u64) & !FILE_A & (their | ep_bit),
        cap_l == (pawns << 7u64) & !FILE_H & (their | ep_bit),
    ensures
        forall|t: int| 0 <= t < 64 ==> (#[trigger] has_bit(single, t) <==> pawn_push(b, Color::White, t)),
        forall|t: int| 0 <= t < 64 ==> (#[trigger] has_bit(double, t) <==> pawn_double(b, Color::White, t)),
        forall|t: int| 0 <= t < 64 ==> (#[trigger] has_bit(cap_r, t) <==> pawn_cap_a(b, Color::White, t)),
        forall|t: int| 0 <= t < 64 ==> (#[trigger] has_bit(cap_l, t) <==> pawn_cap_b(b, Color::White, t)),
{
    lemma_bits_all();
    lemma_masks();
    assert forall|t: int| 0 <= t < 64 implies (#[trigger] has_bit(single, t) <==> pawn_push(b, Color::White, t)) by {
        lemma_shl_bit(pawns, 8, t as u64);
        assert(has_bit(b.occ_bits(), t) <==> b.occupied(t));
    }
    assert forall|t: int| 0 <= t < 64 implies (#[trigger] has_bit(double, t) <==> pawn_double(b, Color::White, t)) by {
        lemma_shl_bit(single & RANK_3, 8, t as u64);
        assert(has_bit(b.occ_bits(), t) <==> b.occupied(t));
        if t >= 8 {
            assert(has_bit(single, t - 8) <==> pawn_push(b, Color::White, t - 8));
            assert(has_bit(b.occ_bits(), t - 8) <==> b.occupied(t - 8));
        }
    }
    assert forall|t: int| 0 <= t < 64 implies (#[trigger] has_bit(cap_r, t) <==> pawn_cap_a(b, Color::White, t)) by {
        lemma_shl_bit(pawns, 9, t as u64);
        assert(has_bit(their, t) <==> b.occupied_by(Color::Black, t));
    }
    assert forall|t: int| 0 <= t < 64 implies (#[trigger] has_bit(cap_l, t) <==> pawn_cap_b(b, Color::White, t)) by {
        lemma_shl_bit(pawns, 7, t as u64);
        assert(has_bit(their, t) <==> b.occupied_by(Color::Black, t));
    }
}

/// What the shifted pawn bitboards of Black hold.
proof fn lemma_black_pawn_bits(b: Board, pawns: u64, empty: u64, their: u64, ep_bit: u64, single: u64, double: u64, cap_r: u64, cap_l: u64)
    requires
        b.side_to_move == Color::Black,
        pawns == b.bbv(1, 0),
        empty == !b.occ_bits(),
        their == b.color_bits(0),
        forall|t: int| 0 <= t < 64 ==> (#[trigger] has_bit(ep_bit, t) <==> (b.en_passant == Some(t as u8))),
        single == (pawns >> 8u64) & empty,
        double == ((single & RANK_6) >> 8u64) & empty,
        cap_r == (pawns >> 7u64) & !FILE_A & (their | ep_bit),
        cap_l == (pawns >> 9u64) & !FILE_H & (their | ep_bit),
    ensures
        forall|t: int| 0 <= t < 64 ==> (#[trigger] has_bit(single, t) <==> pawn_push(b, Color::Black, t)),
        forall|t: int| 0 <= t < 64 ==> (#[trigger] has_bit(double, t) <==> pawn_double(b, Color::Black, t)),
        forall|t: int| 0 <= t < 64 ==> (#[trigger] has_bit(cap_r, t) <==> pawn_cap_a(b, Color::Black, t)),
        forall|t: int| 0 <= t < 64 ==> (#[trigger] has_bit(cap_l, t) <==> pawn_cap_b(b, Color::Black, t)),
{
    lemma_bits_all();
    lemma_masks();
    assert forall|t: int| 0 <= t < 64 implies (#[trigger] has_bit(single, t) <==> pawn_push(b, Color::Black, t)) by {
        lemma_shr_bit(pawns, 8, t as u64);
        assert(has_bit(b.occ_bits(), t) <==> b.occupied(t));
    }
    assert forall|t: int| 0 <= t < 64 implies (#[trigger] has_bit(double, t) <==> pawn_double(b, Color::Black, t)) by {
        lemma_shr_bit(single & RANK_6, 8, t as u64);
        assert(has_bit(b.occ_bits(), t) <==> b.occupied(t));
        if t + 8 < 64 {
            assert(has_bit(single, t + 8) <==> pawn_push(b, Color::Black, t + 8));
            assert(has_bit(b.occ_bits(), t + 8) <==> b.occupied(t + 8));
        }
    }
    assert forall|t: int| 0 <= t < 64 implies (#[trigger] has_bit(cap_r, t) <==> pawn_cap_a(b, Color::Black, t)) by {
        lemma_shr_bit(pawns, 7, t as u64);
        assert(has_bit(their, t) <==> b.occupied_by(Color::White, t));
    }
    assert forall|t: int| 0 <= t < 64 implies (#[trigger] has_bit(cap_l, t) <==> pawn_cap_b(b, Color::Black, t)) by {
        lemma_shr_bit(pawns, 9, t as u64);
        assert(has_bit(their, t) <==> b.occupied_by(Color::White, t));
    }
}

/// Generates all pseudo-legal pawn moves for `us` and appends them to `moves`.
///
/// Covers single and double pushes, diagonal captures, en-passant captures,
/// and all promotion variants for both colours.
fn gen_pawn_moves(board: &Board, us: Color, their: u64, empty: u64, moves: &mut Vec<Move>)
    requires
        us == board.side_to_move,
        board.wf(),
        their == board.color_bits(us.spec_opposite().spec_index() as int),
        empty == !board.occ_bits(),
        all_ok(us, old(moves)@),
    ensures
        final(moves)@ == old(moves)@ + pawn_section(*board, us),
        all_ok(us, final(moves)@),
{
    let ghost b = *board;
    let pawns = board.piece_bb(us, PieceType::Pawn);
    let ep_bit = match board.en_passant {
        Some(sq) => 1u64 << (sq as u64),
        None => 0u64,
    };
    proof {
        lemma_bits_all();
        lemma_masks();
        assert forall|t: int| 0 <= t < 64 implies (#[trigger] has_bit(ep_bit, t) <==> (b.en_passant == Some(t as u8))) by {
            if let Some(e) = b.en_passant {
                assert(single(e as int) == 1u64 << (e as u64));
            }
        }
    }
    let captures_to = their | ep_bit;
    let ghost m0 = moves@;
    match us {
        Color::White => {
            let single = (pawns << 8u64) & empty;
            let double = ((single & RANK_3) << 8u64) & empty;
            let cap_r = (pawns << 9u64) & !FILE_A & captures_to;
            let cap_l = (pawns << 7u64) & !FILE_H & captures_to;
            proof {
                lemma_white_pawn_bits(b, pawns, empty, their, ep_bit, single, double, cap_r, cap_l);
            }
            pawn_section_push(moves, single & !RANK_8, 8, PawnKind::Push, ep_bit, Ghost(b), Ghost(1));
            pawn_section_push(moves, double, 16, PawnKind::Double, ep_bit, Ghost(b), Ghost(2));
            pawn_section_push(moves, single & RANK_8, 8, PawnKind::Promo, ep_bit, Ghost(b), Ghost(3));
            pawn_section_push(moves, cap_r & !RANK_8, 9, PawnKind::Capture, ep_bit, Ghost(b), Ghost(4));
            pawn_section_push(moves, cap_l & !RANK_8, 7, PawnKind::Capture, ep_bit, Ghost(b), Ghost(5));
            pawn_section_push(moves, cap_r & RANK_8, 9, PawnKind::Promo, ep_bit, Ghost(b), Ghost(6));
            pawn_section_push(moves, cap_l & RANK_8, 7, PawnKind::Promo, ep_bit, Ghost(b), Ghost(7));
        },
        Color::Black => {
            let single = (pawns >> 8u64) & empty;
            let double = ((single & RANK_6) >> 8u64) & empty;
            let cap_r = (pawns >> 7u64) & !FILE_A & captures_to;
            let cap_l = (pawns >> 9u64) & !FILE_H & captures_to;
            proof {
                lemma_black_pawn_bits(b, pawns, empty, their, ep_bit, single, double, cap_r, cap_l);
            }
            pawn_section_push(moves, single & !RANK_1, -8, PawnKind::Push, ep_bit, Ghost(b), Ghost(1));
            pawn_section_push(moves, double, -16, PawnKind::Double, ep_bit, Ghost(b), Ghost(2));
            pawn_section_push(moves, single & RANK_1, -8, PawnKind::Promo, ep_bit, Ghost(b), Ghost(3));
            pawn_section_push(moves, cap_r & !RANK_1, -7, PawnKind::Capture, ep_bit, Ghost(b), Ghost(4));
            pawn_section_push(moves, cap_l & !RANK_1, -9, PawnKind::Capture, ep_bit, Ghost(b), Ghost(5));
            pawn_section_push(moves, cap_r & RANK_1, -7, PawnKind::Promo, ep_bit, Ghost(b), Ghost(6));
            pawn_section_push(moves, cap_l & RANK_1, -9, PawnKind::Promo, ep_bit, Ghost(b), Ghost(7));
        },
    }
    assert(moves@ =~= m0 + pawn_section(b, us));
}

/// Castling moves of `color` whose right is held and whose squares between
/// king and rook are empty, when the king stands on its home square.
/// Whether the king passes through check is decided with the legal moves.
pub open spec fn castling_section(b: Board, king_sq: int, color: Color) -> Seq<Move> {
    let cr = b.castling_rights;
    match color {
        Color::White => if king_sq != 4 {
            Seq::empty()
        } else {
            (if cr.white_kingside && !b.occupied(5) && !b.occupied(6) {
                seq![Move { from: 4, to: 6, flag: MoveFlag::CastleKingside }]
            } else {
                Seq::empty()
            }) + (if cr.white_queenside && !b.occupied(1) && !b.occupied(2) && !b.occupied(3) {
                seq![Move { from: 4, to: 2, flag: MoveFlag::CastleQueenside }]
            } else {
                Seq::empty()
            })
        },
        Color::Black => if king_sq != 60 {
            Seq::empty()
        } else {
            (if cr.black_kingside && !b.occupied(61) && !b.occupied(62) {
                seq![Move { from: 60, to: 62, flag: MoveFlag::CastleKingside }]
            } else {
                Seq::empty()
            }) + (if cr.black_queenside && !b.occupied(57) && !b.occupied(58) && !b.occupied(59) {
                seq![Move { from: 60, to: 58, flag: MoveFlag::CastleQueenside }]
            } else {
                Seq::empty()
            })
        },
    }
}

proof fn lemma_occ_mask(occ: u64)
    ensures
        (occ & 0x0000000000000060u64 == 0) <==> (!has_bit(occ, 5) && !has_bit(occ, 6)),
        (occ & 0x000000000000000Eu64 == 0) <==> (!has_bit(occ, 1) && !has_bit(occ, 2) && !has_bit(occ, 3)),
        (occ & 0x6000000000000000u64 == 0) <==> (!has_bit(occ, 61) && !has_bit(occ, 62)),
        (occ & 0x0E00000000000000u64 == 0) <==> (!has_bit(occ, 57) && !has_bit(occ, 58) && !has_bit(occ, 59)),
{
    assert((occ & 0x0000000000000060u64 == 0) <==> ((occ >> 5u64) & 1u64 != 1u64 && (occ >> 6u64) & 1u64 != 1u64)) by (bit_vector);
    assert((occ & 0x000000000000000Eu64 == 0) <==> ((occ >> 1u64) & 1u64 != 1u64 && (occ >> 2u64) & 1u64 != 1u64
        && (occ >> 3u64) & 1u64 != 1u64)) by (bit_vector);
    assert((occ & 0x6000000000000000u64 == 0) <==> ((occ >> 61u64) & 1u64 != 1u64 && (occ >> 62u64) & 1u64 != 1u64)) by (bit_vector);
    assert((occ & 0x0E00000000000000u64 == 0) <==> ((occ >> 57u64) & 1u64 != 1u64 && (occ >> 58u64) & 1u64 != 1u64
        && (occ >> 59u64) & 1u64 != 1u64)) by (bit_vector);
}

/// Appends castling moves for `color` if the rights and vacancy conditions are
/// met.
///
/// Does **not** check whether the king passes through check; that is deferred
/// to [`generate_legal_moves`].
fn gen_castling(board: &Board, king_sq: Square, color: Color, moves: &mut Vec<Move>)
    requires
        all_ok(board.side_to_move, old(moves)@),
    ensures
        final(moves)@ == old(moves)@ + castling_section(*board, king_sq as int, color),
        all_ok(board.side_to_move, final(moves)@),
{
    let occ = board.all_occupancy();
    proof {
        lemma_occ_mask(occ);
        lemma_bits_all();
    }
    let ghost m0 = moves@;
    match color {
        Color::White => {
            if king_sq != 4 {
                assert(moves@ =~= m0 + castling_section(*board, king_sq as int, color));
                return;
            }
            if board.castling_rights.white_kingside && occ & 0x0000000000000060 == 0 {
                moves.push(Move::with_flag(4, 6, MoveFlag::CastleKingside));
            }
            if board.castling_rights.white_queenside && occ & 0x000000000000000E == 0 {
                moves.push(Move::with_flag(4, 2, MoveFlag::CastleQueenside));
            }
        },
        Color::Black => {
            if king_sq != 60 {
                assert(moves@ =~= m0 + castling_section(*board, king_sq as int, color));
                return;
            }
            if board.castling_rights.black_kingside && occ & 0x6000000000000000 == 0 {
                moves.push(Move::with_flag(60, 62, MoveFlag::CastleKingside));
            }
            if board.castling_rights.black_queenside && occ & 0x0E00000000000000 == 0 {
                moves.push(Move::with_flag(60, 58, MoveFlag::CastleQueenside));
            }
        },
    }
    assert(moves@ =~= m0 + castling_section(*board, king_sq as int, color));
}

/// The king's plain moves and castling moves, for the king on the lowest
/// square of its bitboard (none when there is no king).
pub open spec fn king_section(b: Board, us: Color) -> Seq<Move> {
    match lowest_square(b.bbv(us.spec_index() as int, 5)) {
        Some(k) => moves_to(k as int, target_fn(b, us, PieceType::King, k as int)) + castling_section(b, k as int, us),
        None => Seq::empty(),
    }
}

/// All pseudo-legal moves of the side to move, in generation order: pawns,
/// knights, bishops, rooks, queens, then the king and castling.
pub open spec fn pseudo_moves_spec(b: Board) -> Seq<Move> {
    let us = b.side_to_move;
    pawn_section(b, us) + piece_section(b, us, PieceType::Knight) + piece_section(b, us, PieceType::Bishop)
        + piece_section(b, us, PieceType::Rook) + piece_section(b, us, PieceType::Queen) + king_section(b, us)
}

/// Generates all pseudo-legal moves for the side to move.
///
/// *Pseudo-legal* means moves that respect each piece's movement rules but may
/// leave the king in check. Filtering for full legality is done in
/// [`generate_legal_moves`].
pub fn generate_pseudo_legal_moves(board: &Board) -> (moves: Vec<Move>)
    requires
        board.wf(),
    ensures
        moves@ == pseudo_moves_spec(*board),
        all_ok(board.side_to_move, moves@),
{
    let mut moves: Vec<Move> = Vec::new();
    let us = board.side_to_move;
    let occ = board.all_occupancy();
    let our = board.occupancy(us);
    let their = board.occupancy(us.opposite());
    let empty = !occ;

    gen_pawn_moves(board, us, their, empty, &mut moves);
    add_piece_moves(board, PieceType::Knight, us, occ, our, &mut moves);
    add_piece_moves(board, PieceType::Bishop, us, occ, our, &mut moves);
    add_piece_moves(board, PieceType::Rook, us, occ, our, &mut moves);
    add_piece_moves(board, PieceType::Queen, us, occ, our, &mut moves);
    let ghost before_king = moves@;

    match board.king_square(us) {
        Some(king_sq) => {
            proof {
                lemma_first_set_from(board.bbv(us.spec_index() as int, 5), 0);
            }
            let katk = king_attacks_sq(king_sq);
            let targets = katk & !our;
            add_quiet_moves(king_sq, targets, &mut moves, Ghost(us));
            proof {
                lemma_bits_all();
                let b = *board;
                assert forall|t: int| 0 <= t < 64 implies #[trigger] has_fn(targets)(t) == target_fn(b, us, PieceType::King, king_sq as int)(t) by {
                    assert(has_bit(katk, t) == king_move(king_sq as int, t));
                    assert(has_bit(our, t) == b.occupied_by(us, t));
                }
                lemma_moves_to_ext(king_sq as int, has_fn(targets), target_fn(b, us, PieceType::King, king_sq as int));
            }
            gen_castling(board, king_sq, us, &mut moves);
        },
        None => {},
    }
    assert(moves@ =~= pseudo_moves_spec(*board));
    moves
}

/// Index of the type of the piece of `us` on `from`: the first bitboard of
/// `us` holding `from`, or 0 when none does.
pub open spec fn moving_index(b: Board, us: Color, from: int) -> int {
    let c = us.spec_index() as int;
    if has_bit(b.bbv(c, 0), from) {
        0
    } else if has_bit(b.bbv(c, 1), from) {
        1
    } else if has_bit(b.bbv(c, 2), from) {
        2
    } else if has_bit(b.bbv(c, 3), from) {
        3
    } else if has_bit(b.bbv(c, 4), from) {
        4
    } else if has_bit(b.bbv(c, 5), from) {
        5
    } else {
        0
    }
}

/// The rook's source and target squares for castling of `us` on the king
/// side (`kingside`) or the queen side.
pub open spec fn rook_squares(us: Color, kingside: bool) -> (int, int) {
    match (us, kingside) {
        (Color::White, true) => (7, 5),
        (Color::Black, true) => (63, 61),
        (Color::White, false) => (0, 3),
        (Color::Black, false) => (56, 59),
    }
}

/// The square of the pawn taken en passant by a pawn of `us` landing on `to`.
pub open spec fn ep_victim(us: Color, to: int) -> int {
    match us {
        Color::White => to - 8,
        Color::Black => to + 8,
    }
}

/// Bitboard (c, p) after `mv`: the moving piece leaves `from` and lands on
/// `to` (as the promotion piece when promoting); an enemy piece on `to` is
/// removed, or the pawn passed by an en-passant capture; castling also moves
/// the rook.
pub open spec fn apply_bb(b: Board, mv: Move, c: int, p: int) -> u64 {
    let us = b.side_to_move;
    let ui = us.spec_index() as int;
    let ti = us.spec_opposite().spec_index() as int;
    let pi = moving_index(b, us, mv.from as int);
    let bf = single(mv.from as int);
    let bt = single(mv.to as int);
    let base = if c == ui && p == pi { b.bbv(c, p) & !bf } else { b.bbv(c, p) };
    match mv.flag {
        MoveFlag::EnPassant => {
            let v1 = if c == ti && p == 0 { base & !single(ep_victim(us, mv.to as int)) } else { base };
            if c == ui && p == pi { v1 | bt } else { v1 }
        },
        MoveFlag::CastleKingside => {
            let (rf, rt) = rook_squares(us, true);
            let v1 = if c == ui && p == 3 { base ^ (single(rf) | single(rt)) } else { base };
            if c == ui && p == pi { v1 | bt } else { v1 }
        },
        MoveFlag::CastleQueenside => {
            let (rf, rt) = rook_squares(us, false);
            let v1 = if c == ui && p == 3 { base ^ (single(rf) | single(rt)) } else { base };
            if c == ui && p == pi { v1 | bt } else { v1 }
        },
        MoveFlag::Promotion(pr) => {
            let v1 = if c == ti { base & !bt } else { base };
            if c == ui && p == pr.spec_index() { v1 | bt } else { v1 }
        },
        _ => {
            let v1 = if c == ti { base & !bt } else { base };
            if c == ui && p == pi { v1 | bt } else { v1 }
        },
    }
}

/// Castling rights after a capture on `to`: a rook corner being taken loses
/// that right.
pub open spec fn strip_on_capture(cr: CastlingRights, to: int) -> CastlingRights {
    if to == 0 {
        CastlingRights { white_queenside: false, ..cr }
    } else if to == 7 {
        CastlingRights { white_kingside: false, ..cr }
    } else if to == 56 {
        CastlingRights { black_queenside: false, ..cr }
    } else if to == 63 {
        CastlingRights { black_kingside: false, ..cr }
    } else {
        cr
    }
}

/// Castling rights after a piece of type `pt` of `side` leaves `from`: a king
/// move loses both rights of its side, a rook leaving its corner loses that one.
pub open spec fn strip_on_move(cr: CastlingRights, side: Color, from: int, pt: PieceType) -> CastlingRights {
    match (side, pt) {
        (Color::White, PieceType::King) => CastlingRights { white_kingside: false, white_queenside: false, ..cr },
        (Color::Black, PieceType::King) => CastlingRights { black_kingside: false, black_queenside: false, ..cr },
        (Color::White, PieceType::Rook) => if from == 0 {
            CastlingRights { white_queenside: false, ..cr }
        } else if from == 7 {
            CastlingRights { white_kingside: false, ..cr }
        } else {
            cr
        },
        (Color::Black, PieceType::Rook) => if from == 56 {
            CastlingRights { black_queenside: false, ..cr }
        } else if from == 63 {
            CastlingRights { black_kingside: false, ..cr }
        } else {
            cr
        },
        _ => cr,
    }
}

/// The move captures: an enemy piece stands on `to`, or it is en passant.
pub open spec fn is_capture_spec(b: Board, mv: Move) -> bool {
    b.occupied_by(b.side_to_move.spec_opposite(), mv.to as int) || mv.flag == MoveFlag::EnPassant
}

/// The board after `mv` is played on `b`.
pub open spec fn apply_spec(b: Board, mv: Move) -> Board {
    let us = b.side_to_move;
    let pt = PieceType::spec_from_index(moving_index(b, us, mv.from as int) as usize);
    let cr = match mv.flag {
        MoveFlag::EnPassant | MoveFlag::CastleKingside | MoveFlag::CastleQueenside => b.castling_rights,
        _ => strip_on_capture(b.castling_rights, mv.to as int),
    };
    Board {
        bb: [
            [
                apply_bb(b, mv, 0, 0),
                apply_bb(b, mv, 0, 1),
                apply_bb(b, mv, 0, 2),
                apply_bb(b, mv, 0, 3),
                apply_bb(b, mv, 0, 4),
                apply_bb(b, mv, 0, 5),
            ],
            [
                apply_bb(b, mv, 1, 0),
                apply_bb(b, mv, 1, 1),
                apply_bb(b, mv, 1, 2),
                apply_bb(b, mv, 1, 3),
                apply_bb(b, mv, 1, 4),
                apply_bb(b, mv, 1, 5),
            ],
        ],
        side_to_move: us.spec_opposite(),
        castling_rights: strip_on_move(cr, us, mv.from as int, pt),
        en_passant: if mv.flag == MoveFlag::DoublePawnPush {
            Some(ep_victim(us, mv.to as int) as u8)
        } else {
            None
        },
        halfmove_clock: if is_capture_spec(b, mv) || pt == PieceType::Pawn {
            0
        } else {
            (b.halfmove_clock + 1) as u32
        },
        fullmove_number: if us == Color::Black {
            (b.fullmove_number + 1) as u32
        } else {
            b.fullmove_number
        },
    }
}

/// `mv` can be applied to `b` without leaving the ranges of squares and clocks.
pub open spec fn apply_ok(b: Board, mv: Move) -> bool {
    &&& move_ok(b.side_to_move, mv)
    &&& b.halfmove_clock < u32::MAX
    &&& (b.side_to_move == Color::Black ==> b.fullmove_number < u32::MAX)
}

/// Value of bitboard (c, p) after `mv`.
fn new_bitboard(board: &Board, mv: &Move, c: usize, p: usize, pt_idx: usize) -> (v: u64)
    requires
        c < 2,
        p < 6,
        move_ok(board.side_to_move, *mv),
        pt_idx == moving_index(*board, board.side_to_move, mv.from as int),
    ensures
        v == apply_bb(*board, *mv, c as int, p as int),
{
    let us = board.side_to_move;
    let ui = us.index();
    let ti = us.opposite().index();
    let bit_from = 1u64 << (mv.from as u64);
    let bit_to = 1u64 << (mv.to as u64);
    let base = if c == ui && p == pt_idx { board.bb[c][p] & !bit_from } else { board.bb[c][p] };
    match mv.flag {
        MoveFlag::EnPassant => {
            let cap_sq = if us == Color::White { mv.to - 8 } else { mv.to + 8 };
            let v1 = if c == ti && p == 0 { base & !(1u64 << (cap_sq as u64)) } else { base };
            if c == ui && p == pt_idx { v1 | bit_to } else { v1 }
        },
        MoveFlag::CastleKingside => {
            let (rook_from, rook_to) = match us {
                Color::White => (7u8, 5u8),
                Color::Black => (63u8, 61u8),
            };
            let v1 = if c == ui && p == 3 { base ^ ((1u64 << (rook_from as u64)) | (1u64 << (rook_to as u64))) } else { base };
            if c == ui && p == pt_idx { v1 | bit_to } else { v1 }
        },
        MoveFlag::CastleQueenside => {
            let (rook_from, rook_to) = match us {
                Color::White => (0u8, 3u8),
                Color::Black => (56u8, 59u8),
            };
            let v1 = if c == ui && p == 3 { base ^ ((1u64 << (rook_from as u64)) | (1u64 << (rook_to as u64))) } else { base };
            if c == ui && p == pt_idx { v1 | bit_to } else { v1 }
        },
        MoveFlag::Promotion(promo_type) => {
            let v1 = if c == ti { base & !bit_to } else { base };
            if c == ui && p == promo_type.index() { v1 | bit_to } else { v1 }
        },
        _ => {
            let v1 = if c == ti { base & !bit_to } else { base };
            if c == ui && p == pt_idx { v1 | bit_to } else { v1 }
        },
    }
}

/// Revokes castling rights when a rook's starting square is captured.
fn strip_castling_on_capture(board: &mut Board, to: Square)
    ensures
        *final(board) == (Board { castling_rights: strip_on_capture(old(board).castling_rights, to as int), ..*old(board) }),
{
    match to {
        0 => board.castling_rights.white_queenside = false,
        7 => board.castling_rights.white_kingside = false,
        56 => board.castling_rights.black_queenside = false,
        63 => board.castling_rights.black_kingside = false,
        _ => {},
    }
}

/// Revokes castling rights when a king or rook moves away from its home square.
fn strip_castling_on_move(board: &mut Board, from: Square, pt: PieceType)
    ensures
        *final(board) == (Board {
            castling_rights: strip_on_move(old(board).castling_rights, old(board).side_to_move, from as int, pt),
            ..*old(board)
        }),
{
    match (board.side_to_move, pt) {
        (Color::White, PieceType::King) => {
            board.castling_rights.white_kingside = false;
            board.castling_rights.white_queenside = false;
        },
        (Color::Black, PieceType::King) => {
            board.castling_rights.black_kingside = false;
            board.castling_rights.black_queenside = false;
        },
        (Color::White, PieceType::Rook) => {
            if from == 0 {
                board.castling_rights.white_queenside = false;
            } else if from == 7 {
                board.castling_rights.white_kingside = false;
            }
        },
        (Color::Black, PieceType::Rook) => {
            if from == 56 {
                board.castling_rights.black_queenside = false;
            } else if from == 63 {
                board.castling_rights.black_kingside = false;
            }
        },
        _ => {},
    }
}

/// Applies `mv` to `board` and returns the resulting board state.
///
/// All bitboard updates (captures, castling rook moves, en-passant removal,
/// promotions, castling-rights stripping) and the clocks are handled here.
#[verifier::spinoff_prover]
#[verifier::rlimit(30)]
pub fn apply_move(board: &Board, mv: &Move) -> (nb: Board)
    requires
        apply_ok(*board, *mv),
    ensures
        nb == apply_spec(*board, *mv),
{
    let us = board.side_to_move;
    let them = us.opposite();
    let ui = us.index();
    let ti = them.index();
    let bit_from = 1u64 << (mv.from as u64);
    let bit_to = 1u64 << (mv.to as u64);
    proof {
        crate::board::lemma_and_single_nonzero(board.bbv(ui as int, 0), mv.from as u64);
        crate::board::lemma_and_single_nonzero(board.bbv(ui as int, 1), mv.from as u64);
        crate::board::lemma_and_single_nonzero(board.bbv(ui as int, 2), mv.from as u64);
        crate::board::lemma_and_single_nonzero(board.bbv(ui as int, 3), mv.from as u64);
        crate::board::lemma_and_single_nonzero(board.bbv(ui as int, 4), mv.from as u64);
        crate::board::lemma_and_single_nonzero(board.bbv(ui as int, 5), mv.from as u64);
        crate::board::lemma_and_single_nonzero(board.bbv(ti as int, 0), mv.to as u64);
        crate::board::lemma_and_single_nonzero(board.bbv(ti as int, 1), mv.to as u64);
        crate::board::lemma_and_single_nonzero(board.bbv(ti as int, 2), mv.to as u64);
        crate::board::lemma_and_single_nonzero(board.bbv(ti as int, 3), mv.to as u64);
        crate::board::lemma_and_single_nonzero(board.bbv(ti as int, 4), mv.to as u64);
        crate::board::lemma_and_single_nonzero(board.bbv(ti as int, 5), mv.to as u64);
    }

    // Identify the moving piece type (first bitboard of ours holding `from`).
    let pt_idx: usize = if board.bb[ui][0] & bit_from != 0 {
        0
    } else if board.bb[ui][1] & bit_from != 0 {
        1
    } else if board.bb[ui][2] & bit_from != 0 {
        2
    } else if board.bb[ui][3] & bit_from != 0 {
        3
    } else if board.bb[ui][4] & bit_from != 0 {
        4
    } else if board.bb[ui][5] & bit_from != 0 {
        5
    } else {
        0
    };
    let pt = PieceType::from_index(pt_idx);

    // Half-move clock: reset on pawn moves or captures.
    let is_capture = board.bb[ti][0] & bit_to != 0 || board.bb[ti][1] & bit_to != 0 || board.bb[ti][2] & bit_to != 0
        || board.bb[ti][3] & bit_to != 0 || board.bb[ti][4] & bit_to != 0 || board.bb[ti][5] & bit_to != 0
        || mv.flag == MoveFlag::EnPassant;
    let halfmove_clock = if is_capture || pt == PieceType::Pawn { 0 } else { board.halfmove_clock + 1 };

    // En passant target (only valid for double pawn pushes).
    let en_passant = if mv.flag == MoveFlag::DoublePawnPush {
        Some(if us == Color::White { mv.to - 8 } else { mv.to + 8 })
    } else {
        None
    };

    let bb = [
        [
            new_bitboard(board, mv, 0, 0, pt_idx),
            new_bitboard(board, mv, 0, 1, pt_idx),
            new_bitboard(board, mv, 0, 2, pt_idx),
            new_bitboard(board, mv, 0, 3, pt_idx),
            new_bitboard(board, mv, 0, 4, pt_idx),
            new_bitboard(board, mv, 0, 5, pt_idx),
        ],
        [
            new_bitboard(board, mv, 1, 0, pt_idx),
            new_bitboard(board, mv, 1, 1, pt_idx),
            new_bitboard(board, mv, 1, 2, pt_idx),
            new_bitboard(board, mv, 1, 3, pt_idx),
            new_bitboard(board, mv, 1, 4, pt_idx),
            new_bitboard(board, mv, 1, 5, pt_idx),
        ],
    ];
    let mut nb = Board {
        bb,
        side_to_move: us,
        castling_rights: board.castling_rights,
        en_passant,
        halfmove_clock,
        fullmove_number: board.fullmove_number,
    };
    match mv.flag {
        MoveFlag::EnPassant | MoveFlag::CastleKingside | MoveFlag::CastleQueenside => {},
        _ => strip_castling_on_capture(&mut nb, mv.to),
    }
    strip_castling_on_move(&mut nb, mv.from, pt);
    nb.side_to_move = them;
    if us == Color::Black {
        nb.fullmove_number = nb.fullmove_number + 1;
    }
    proof {
        let sp = apply_spec(*board, *mv);
        assert(nb.bb[0] =~= sp.bb[0]);
        assert(nb.bb[1] =~= sp.bb[1]);
        assert(nb.bb =~= sp.bb);
    }
    nb
}

/// A pseudo-legal move is legal when it does not leave the mover's king in
/// check; castling also needs the king not in check and the square it
/// passes over not attacked.
pub open spec fn legal_pred(b: Board, m: Move) -> bool {
    let color = b.side_to_move;
    let castle_ok = match m.flag {
        MoveFlag::CastleKingside => !in_check_spec(b, color) && !attacked_spec(b, m.from + 1, color.spec_opposite()),
        MoveFlag::CastleQueenside => !in_check_spec(b, color) && !attacked_spec(b, m.from - 1, color.spec_opposite()),
        _ => true,
    };
    castle_ok && !in_check_spec(apply_spec(b, m), color)
}

pub open spec fn legal_fn(b: Board) -> spec_fn(Move) -> bool {
    |m: Move| legal_pred(b, m)
}

/// The legal moves: the pseudo-legal moves, in their order, that pass `legal_pred`.
pub open spec fn legal_moves_spec(b: Board) -> Seq<Move> {
    pseudo_moves_spec(b).filter(legal_fn(b))
}

/// The board is one on which moves can be generated and applied: the
/// en-passant target is a square and the clocks can still advance.
pub open spec fn playable(b: Board) -> bool {
    &&& b.wf()
    &&& b.halfmove_clock < u32::MAX
    &&& (b.side_to_move == Color::Black ==> b.fullmove_number < u32::MAX)
}

/// Generates all *legal* moves for the side to move.
///
/// Filters the pseudo-legal move list by:
/// - Rejecting moves that leave the king in check.
/// - For castling, additionally verifying the king does not start in check and
///   does not pass through an attacked square.
pub fn generate_legal_moves(board: &Board) -> (legal: Vec<Move>)
    requires
        playable(*board),
    ensures
        legal@ == legal_moves_spec(*board),
        all_ok(board.side_to_move, legal@),
{
    let color = board.side_to_move;
    let pseudo = generate_pseudo_legal_moves(board);
    let ghost b = *board;
    let mut legal: Vec<Move> = Vec::new();
    let mut i: usize = 0;
    while i < pseudo.len()
        invariant
            i <= pseudo@.len(),
            b == *board,
            playable(b),
            color == b.side_to_move,
            pseudo@ == pseudo_moves_spec(b),
            all_ok(color, pseudo@),
            legal@ == pseudo@.subrange(0, i as int).filter(legal_fn(b)),
            all_ok(color, legal@),
        decreases pseudo@.len() - i,
    {
        let mv = pseudo[i];
        assert(move_ok(color, pseudo@[i as int]));
        let mut ok = true;
        match mv.flag {
            MoveFlag::CastleKingside => {
                if is_in_check(board, color) {
                    ok = false;
                } else if is_square_attacked(board, mv.from + 1, color.opposite()) {
                    ok = false;
                }
            },
            MoveFlag::CastleQueenside => {
                if is_in_check(board, color) {
                    ok = false;
                } else if is_square_attacked(board, mv.from - 1, color.opposite()) {
                    ok = false;
                }
            },
            _ => {},
        }
        if ok {
            let new_board = apply_move(board, &mv);
            ok = !is_in_check(&new_board, color);
        }
        assert(ok == legal_pred(b, mv));
        proof {
            reveal_with_fuel(Seq::filter, 1);
            assert(pseudo@.subrange(0, i + 1).drop_last() =~= pseudo@.subrange(0, i as int));
        }
        if ok {
            legal.push(mv);
        }
        i = i + 1;
    }
    assert(pseudo@.subrange(0, pseudo@.len() as int) =~= pseudo@);
    legal
}

proof fn lemma_filter_sub(s: Seq<Move>, pred: spec_fn(Move) -> bool, x: Move)
    requires
        s.filter(pred).contains(x),
    ensures
        s.contains(x),
    decreases s.len(),
{
    reveal_with_fuel(Seq::filter, 1);
    if s.len() > 0 {
        let s0 = s.drop_last();
        let f0 = s0.filter(pred);
        let f = s.filter(pred);
        let k = choose|k: int| 0 <= k < f.len() && f[k] == x;
        if k < f0.len() {
            assert(f[k] == f0[k]);
            lemma_filter_sub(s0, pred, x);
            let j = choose|j: int| 0 <= j < s0.len() && s0[j] == x;
            assert(s[j] == x);
        } else {
            assert(s[s.len() - 1] == x);
        }
    } else {
        assert(s.filter(pred).len() == 0);
    }
}

/// No legal move leaves the mover's king in check, and every legal move is
/// one of the pseudo-legal moves.
pub proof fn lemma_legal_moves_safe(b: Board, m: Move)
    requires
        legal_moves_spec(b).contains(m),
    ensures
        !in_check_spec(apply_spec(b, m), b.side_to_move),
        pseudo_moves_spec(b).contains(m),
{
    let l = legal_moves_spec(b);
    let k = choose|k: int| 0 <= k < l.len() && l[k] == m;
    assert(l[k] == m);
    pseudo_moves_spec(b).lemma_filter_pred(legal_fn(b), k);
    assert(legal_fn(b)(m));
    lemma_filter_sub(pseudo_moves_spec(b), legal_fn(b), m);
}

/// Castling is legal only when the king is not in check and the square it
/// passes over is not attacked.
pub proof fn lemma_castling_safe(b: Board, m: Move)
    requires
        legal_moves_spec(b).contains(m),
        m.flag == MoveFlag::CastleKingside || m.flag == MoveFlag::CastleQueenside,
    ensures
        !in_check_spec(b, b.side_to_move),
        m.flag == MoveFlag::CastleKingside ==> !attacked_spec(b, m.from + 1, b.side_to_move.spec_opposite()),
        m.flag == MoveFlag::CastleQueenside ==> !attacked_spec(b, m.from - 1, b.side_to_move.spec_opposite()),
{
    let l = legal_moves_spec(b);
    let k = choose|k: int| 0 <= k < l.len() && l[k] == m;
    assert(l[k] == m);
    pseudo_moves_spec(b).lemma_filter_pred(legal_fn(b), k);
    assert(legal_fn(b)(m));
}

/// No move of `s` is a castling move.
pub open spec fn castle_free(s: Seq<Move>) -> bool {
    forall|i: int| 0 <= i < s.len() ==> (#[trigger] s[i]).flag != MoveFlag::CastleKingside
        && s[i].flag != MoveFlag::CastleQueenside
}

proof fn lemma_castle_free_concat(a: Seq<Move>, b: Seq<Move>)
    requires
        castle_free(a),
        castle_free(b),
    ensures
        castle_free(a + b),
{
    assert forall|i: int| 0 <= i < (a + b).len() implies (#[trigger] (a + b)[i]).flag != MoveFlag::CastleKingside
        && (a + b)[i].flag != MoveFlag::CastleQueenside by {
        if i < a.len() {
            assert((a + b)[i] == a[i]);
        } else {
            assert((a + b)[i] == b[i - a.len()]);
        }
    }
}

proof fn lemma_concat_squares_castle_free(f: spec_fn(int) -> Seq<Move>, from: int)
    requires
        forall|t: int| 0 <= t < 64 ==> castle_free(#[trigger] f(t)),
    ensures
        castle_free(concat_squares(f, from)),
    decreases 64 - from,
{
    if from >= 64 || from < 0 {
    } else {
        lemma_concat_squares_castle_free(f, from + 1);
        assert(castle_free(f(from)));
        lemma_castle_free_concat(f(from), concat_squares(f, from + 1));
    }
}

proof fn lemma_moves_to_castle_free(from: int, pred: spec_fn(int) -> bool)
    ensures
        castle_free(moves_to(from, pred)),
{
    assert forall|t: int| 0 <= t < 64 implies castle_free(#[trigger] quiet_fn(from, pred)(t)) by {}
    lemma_concat_squares_castle_free(quiet_fn(from, pred), 0);
}

proof fn lemma_pawn_sec_castle_free(b: Board, us: Color, sec: int)
    ensures
        castle_free(pawn_sec(b, us, sec)),
{
    let f = pawn_fn(pawn_pred(b, us, sec), pawn_delta(us, sec), pawn_kind(sec), b.en_passant);
    assert forall|t: int| 0 <= t < 64 implies castle_free(#[trigger] f(t)) by {}
    lemma_concat_squares_castle_free(f, 0);
}

proof fn lemma_piece_section_castle_free(b: Board, us: Color, pt: PieceType)
    ensures
        castle_free(piece_section(b, us, pt)),
{
    let f = piece_fn(b, us, pt);
    assert forall|t: int| 0 <= t < 64 implies castle_free(#[trigger] f(t)) by {
        lemma_moves_to_castle_free(t, target_fn(b, us, pt, t));
    }
    lemma_concat_squares_castle_free(f, 0);
}

/// Castling is only ever generated through an empty path and with the
/// right to castle: a castling move among the legal moves of a board is the
/// side to move's king going from its home square two squares towards the
/// rook, that side still holds the right to castle that way, and every
/// square strictly between the king and the castling rook is empty (b1, c1
/// and d1 for White's queenside castling, f1 and g1 for its kingside one,
/// and the same squares on the eighth rank for Black).
pub proof fn lemma_castling_path_empty(b: Board, m: Move)
    requires
        legal_moves_spec(b).contains(m),
    ensures
        m.flag == MoveFlag::CastleKingside ==> (m.from == 4 && !b.occupied(5) && !b.occupied(6))
            || (m.from == 60 && !b.occupied(61) && !b.occupied(62)),
        m.flag == MoveFlag::CastleQueenside ==> (m.from == 4 && !b.occupied(1) && !b.occupied(2) && !b.occupied(3))
            || (m.from == 60 && !b.occupied(57) && !b.occupied(58) && !b.occupied(59)),
        m.flag == MoveFlag::CastleKingside ==> m == castle_move(b.side_to_move, true) && match b.side_to_move {
            Color::White => b.castling_rights.white_kingside,
            Color::Black => b.castling_rights.black_kingside,
        },
        m.flag == MoveFlag::CastleQueenside ==> m == castle_move(b.side_to_move, false) && match b.side_to_move {
            Color::White => b.castling_rights.white_queenside,
            Color::Black => b.castling_rights.black_queenside,
        },
{
    lemma_legal_moves_safe(b, m);
    let us = b.side_to_move;
    let ps = pseudo_moves_spec(b);
    let i = choose|i: int| 0 <= i < ps.len() && ps[i] == m;
    lemma_pawn_sec_castle_free(b, us, 1);
    lemma_pawn_sec_castle_free(b, us, 2);
    lemma_pawn_sec_castle_free(b, us, 3);
    lemma_pawn_sec_castle_free(b, us, 4);
    lemma_pawn_sec_castle_free(b, us, 5);
    lemma_pawn_sec_castle_free(b, us, 6);
    lemma_pawn_sec_castle_free(b, us, 7);
    lemma_castle_free_concat(pawn_sec(b, us, 1), pawn_sec(b, us, 2));
    lemma_castle_free_concat(pawn_sec(b, us, 1) + pawn_sec(b, us, 2), pawn_sec(b, us, 3));
    lemma_castle_free_concat(pawn_sec(b, us, 1) + pawn_sec(b, us, 2) + pawn_sec(b, us, 3), pawn_sec(b, us, 4));
    lemma_castle_free_concat(pawn_sec(b, us, 1) + pawn_sec(b, us, 2) + pawn_sec(b, us, 3) + pawn_sec(b, us, 4), pawn_sec(b, us, 5));
    lemma_castle_free_concat(pawn_sec(b, us, 1) + pawn_sec(b, us, 2) + pawn_sec(b, us, 3) + pawn_sec(b, us, 4)
        + pawn_sec(b, us, 5), pawn_sec(b, us, 6));
    lemma_castle_free_concat(pawn_sec(b, us, 1) + pawn_sec(b, us, 2) + pawn_sec(b, us, 3) + pawn_sec(b, us, 4)
        + pawn_sec(b, us, 5) + pawn_sec(b, us, 6), pawn_sec(b, us, 7));
    let p = pawn_section(b, us);
    lemma_piece_section_castle_free(b, us, PieceType::Knight);
    lemma_piece_section_castle_free(b, us, PieceType::Bishop);
    lemma_piece_section_castle_free(b, us, PieceType::Rook);
    lemma_piece_section_castle_free(b, us, PieceType::Queen);
    let x1 = p + piece_section(b, us, PieceType::Knight);
    lemma_castle_free_concat(p, piece_section(b, us, PieceType::Knight));
    let x2 = x1 + piece_section(b, us, PieceType::Bishop);
    lemma_castle_free_concat(x1, piece_section(b, us, PieceType::Bishop));
    let x3 = x2 + piece_section(b, us, PieceType::Rook);
    lemma_castle_free_concat(x2, piece_section(b, us, PieceType::Rook));
    let x4 = x3 + piece_section(b, us, PieceType::Queen);
    lemma_castle_free_concat(x3, piece_section(b, us, PieceType::Queen));
    assert(ps == x4 + king_section(b, us));
    if m.flag == MoveFlag::CastleKingside || m.flag == MoveFlag::CastleQueenside {
        if i < x4.len() {
            assert(ps[i] == x4[i]);
        } else {
            let ks = king_section(b, us);
            assert(ps[i] == ks[i - x4.len()]);
            match lowest_square(b.bbv(us.spec_index() as int, 5)) {
                Some(k) => {
                    let mt = moves_to(k as int, target_fn(b, us, PieceType::King, k as int));
                    lemma_moves_to_castle_free(k as int, target_fn(b, us, PieceType::King, k as int));
                    let cs = castling_section(b, k as int, us);
                    assert(ks == mt + cs);
                    let j = i - x4.len();
                    if j < mt.len() {
                        assert(ks[j] == mt[j]);
                    } else {
                        assert(ks[j] == cs[j - mt.len()]);
                    }
                },
                None => {},
            }
        }
    }
}

/// The castling move of `us` on the king side (`kingside`) or the queen side.
pub open spec fn castle_move(us: Color, kingside: bool) -> Move {
    match (us, kingside) {
        (Color::White, true) => Move { from: 4, to: 6, flag: MoveFlag::CastleKingside },
        (Color::White, false) => Move { from: 4, to: 2, flag: MoveFlag::CastleQueenside },
        (Color::Black, true) => Move { from: 60, to: 62, flag: MoveFlag::CastleKingside },
        (Color::Black, false) => Move { from: 60, to: 58, flag: MoveFlag::CastleQueenside },
    }
}

/// `m` is a move of pawn section `sec` of `us`: its target passes the
/// section's test and it starts the section's distance behind.
pub open spec fn pawn_made(b: Board, us: Color, sec: int, m: Move) -> bool {
    &&& pawn_pred_at(b, us, sec, m.to as int)
    &&& m.from as int == m.to as int - pawn_delta(us, sec)
    &&& pawn_moves_at(m.from as int, m.to as int, pawn_kind(sec), b.en_passant == Some(m.to)).contains(m)
}

/// How a generated move looks: a castling move of the side to move, a move
/// of one of its pawn sections, or a plain move from a square holding one of
/// its other pieces.
pub open spec fn gen_shape(b: Board, m: Move) -> bool {
    let us = b.side_to_move;
    ||| m == castle_move(us, true)
    ||| m == castle_move(us, false)
    ||| exists|sec: int| 1 <= sec <= 7 && #[trigger] pawn_made(b, us, sec, m)
    ||| m.flag == MoveFlag::Normal && m.from < 64 && m.to < 64
        && exists|p: int| 1 <= p < 6 && #[trigger] b.has(us, p, m.from as int)
}

proof fn lemma_add_contains(a: Seq<Move>, c: Seq<Move>, x: Move)
    requires
        (a + c).contains(x),
    ensures
        a.contains(x) || c.contains(x),
{
    let i = choose|i: int| 0 <= i < (a + c).len() && (a + c)[i] == x;
    if i < a.len() {
        assert(a[i] == x);
    } else {
        assert(c[i - a.len()] == x);
    }
}

proof fn lemma_concat_member(f: spec_fn(int) -> Seq<Move>, from: int, x: Move) -> (t: int)
    requires
        concat_squares(f, from).contains(x),
    ensures
        0 <= from <= t < 64,
        f(t).contains(x),
    decreases 64 - from,
{
    if from >= 64 || from < 0 {
        assert(concat_squares(f, from).len() == 0);
        from
    } else {
        lemma_add_contains(f(from), concat_squares(f, from + 1), x);
        if f(from).contains(x) {
            from
        } else {
            lemma_concat_member(f, from + 1, x)
        }
    }
}

proof fn lemma_moves_to_member(from: int, pred: spec_fn(int) -> bool, x: Move)
    requires
        moves_to(from, pred).contains(x),
    ensures
        x.flag == MoveFlag::Normal,
        x.from == from as u8,
        x.to < 64,
{
    let t = lemma_concat_member(quiet_fn(from, pred), 0, x);
    assert(quiet_fn(from, pred)(t).len() > 0);
    assert(quiet_fn(from, pred)(t)[0] == x);
}

proof fn lemma_pawn_sec_member(b: Board, us: Color, sec: int, x: Move)
    requires
        1 <= sec <= 7,
        pawn_sec(b, us, sec).contains(x),
    ensures
        pawn_made(b, us, sec, x),
{
    let d = pawn_delta(us, sec);
    let f = pawn_fn(pawn_pred(b, us, sec), d, pawn_kind(sec), b.en_passant);
    let t = lemma_concat_member(f, 0, x);
    assert(pawn_pred_at(b, us, sec, t));
    assert(0 <= t - d < 64);
    let ms = pawn_moves_at(t - d, t, pawn_kind(sec), b.en_passant == Some(t as u8));
    assert(f(t) == ms);
    let i = choose|i: int| 0 <= i < ms.len() && ms[i] == x;
    assert(ms[i].to == t as u8 && ms[i].from == (t - d) as u8);
    assert(x.to as int == t);
    assert(x.from as int == t - d);
}

proof fn lemma_piece_section_member(b: Board, us: Color, pt: PieceType, x: Move)
    requires
        piece_section(b, us, pt).contains(x),
    ensures
        x.flag == MoveFlag::Normal,
        x.from < 64,
        x.to < 64,
        b.has(us, pt.spec_index() as int, x.from as int),
{
    let t = lemma_concat_member(piece_fn(b, us, pt), 0, x);
    if !b.has(us, pt.spec_index() as int, t) {
        assert(piece_fn(b, us, pt)(t).len() == 0);
    }
    lemma_moves_to_member(t, target_fn(b, us, pt, t), x);
}

/// Every pseudo-legal move has the shape its generator gives it.
pub proof fn lemma_pseudo_shape(b: Board, m: Move)
    requires
        pseudo_moves_spec(b).contains(m),
    ensures
        gen_shape(b, m),
{
    let us = b.side_to_move;
    let s1 = pawn_sec(b, us, 1);
    let s2 = pawn_sec(b, us, 2);
    let s3 = pawn_sec(b, us, 3);
    let s4 = pawn_sec(b, us, 4);
    let s5 = pawn_sec(b, us, 5);
    let s6 = pawn_sec(b, us, 6);
    let s7 = pawn_sec(b, us, 7);
    let p = pawn_section(b, us);
    let kn = piece_section(b, us, PieceType::Knight);
    let bi = piece_section(b, us, PieceType::Bishop);
    let ro = piece_section(b, us, PieceType::Rook);
    let qu = piece_section(b, us, PieceType::Queen);
    let ks = king_section(b, us);
    lemma_add_contains(p + kn + bi + ro + qu, ks, m);
    if ks.contains(m) {
        match lowest_square(b.bbv(us.spec_index() as int, 5)) {
            Some(k) => {
                lemma_first_set_from(b.bbv(us.spec_index() as int, 5), 0);
                let mt = moves_to(k as int, target_fn(b, us, PieceType::King, k as int));
                let cs = castling_section(b, k as int, us);
                lemma_add_contains(mt, cs, m);
                if mt.contains(m) {
                    lemma_moves_to_member(k as int, target_fn(b, us, PieceType::King, k as int), m);
                    assert(b.has(us, 5, m.from as int));
                } else {
                    let i = choose|i: int| 0 <= i < cs.len() && cs[i] == m;
                    assert(cs[i] == m);
                }
            },
            None => {
                assert(ks.len() == 0);
            },
        }
        return;
    }
    lemma_add_contains(p + kn + bi + ro, qu, m);
    if qu.contains(m) {
        lemma_piece_section_member(b, us, PieceType::Queen, m);
        assert(b.has(us, 4, m.from as int));
        return;
    }
    lemma_add_contains(p + kn + bi, ro, m);
    if ro.contains(m) {
        lemma_piece_section_member(b, us, PieceType::Rook, m);
        assert(b.has(us, 3, m.from as int));
        return;
    }
    lemma_add_contains(p + kn, bi, m);
    if bi.contains(m) {
        lemma_piece_section_member(b, us, PieceType::Bishop, m);
        assert(b.has(us, 2, m.from as int));
        return;
    }
    lemma_add_contains(p, kn, m);
    if kn.contains(m) {
        lemma_piece_section_member(b, us, PieceType::Knight, m);
        assert(b.has(us, 1, m.from as int));
        return;
    }
    lemma_add_contains(s1 + s2 + s3 + s4 + s5 + s6, s7, m);
    let mut sec: int = 7;
    if !s7.contains(m) {
        lemma_add_contains(s1 + s2 + s3 + s4 + s5, s6, m);
        sec = 6;
        if !s6.contains(m) {
            lemma_add_contains(s1 + s2 + s3 + s4, s5, m);
            sec = 5;
            if !s5.contains(m) {
                lemma_add_contains(s1 + s2 + s3, s4, m);
                sec = 4;
                if !s4.contains(m) {
                    lemma_add_contains(s1 + s2, s3, m);
                    sec = 3;
                    if !s3.contains(m) {
                        lemma_add_contains(s1, s2, m);
                        sec = if s2.contains(m) { 2 } else { 1 };
                    }
                }
            }
        }
    }
    lemma_pawn_sec_member(b, us, sec, m);
}

} // verus!
