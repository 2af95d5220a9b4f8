//! Which squares each piece attacks, and whether a square is attacked.
use vstd::prelude::*;
use crate::bits::{has_bit, lemma_bits_all, lemma_nonzero_iff_bit, single};
use crate::board::{lowest_square, Board};
use crate::types::{Color, PieceType, Square};

verus! {

/// Rank of square `s`.
pub open spec fn rk(s: int) -> int {
    s / 8
}

/// File of square `s`.
pub open spec fn fl(s: int) -> int {
    s % 8
}

pub open spec fn abs(x: int) -> int {
    if x < 0 { -x } else { x }
}

pub open spec fn on_board(r: int, f: int) -> bool {
    0 <= r < 8 && 0 <= f < 8
}

pub open spec fn is_square(s: int) -> bool {
    0 <= s < 64
}

/// `t` is a knight's jump away from `s`.
pub open spec fn knight_move(s: int, t: int) -> bool {
    is_square(s) && is_square(t) && {
        let dr = abs(rk(t) - rk(s));
        let df = abs(fl(t) - fl(s));
        (dr == 1 && df == 2) || (dr == 2 && df == 1)
    }
}

/// `t` is one king step away from `s`.
pub open spec fn king_move(s: int, t: int) -> bool {
    is_square(s) && is_square(t) && s != t && abs(rk(t) - rk(s)) <= 1 && abs(fl(t) - fl(s)) <= 1
}

/// A pawn of `color` on `s` attacks `t`: one rank forward, one file aside.
pub open spec fn pawn_attack(color: Color, s: int, t: int) -> bool {
    is_square(s) && is_square(t) && abs(fl(t) - fl(s)) == 1 && rk(t) == rk(s) + match color {
        Color::White => 1int,
        Color::Black => -1int,
    }
}

/// Termination measure of a walk from (r, f) in direction (dr, df).
pub open spec fn ray_measure(r: int, f: int, dr: int, df: int) -> int {
    (if dr == 1 { 8 - r } else if dr == -1 { r + 1 } else { 0 })
        + (if df == 1 { 8 - f } else if df == -1 { f + 1 } else { 0 })
}

/// Walking from (r, f) in direction (dr, df), square `t` is reached before
/// leaving the board and without passing an occupied square of `occ`
/// (the first occupied square itself is reached).
pub open spec fn ray_reaches(r: int, f: int, dr: int, df: int, occ: u64, t: int) -> bool
    decreases ray_measure(r, f, dr, df),
{
    let nr = r + dr;
    let nf = f + df;
    if !on_board(nr, nf) || (dr == 0 && df == 0) || dr < -1 || dr > 1 || df < -1 || df > 1 {
        false
    } else if nr * 8 + nf == t {
        true
    } else if has_bit(occ, nr * 8 + nf) {
        false
    } else {
        ray_reaches(nr, nf, dr, df, occ, t)
    }
}

/// A rook on `s` sees `t` along a rank or file, given the occupancy `occ`.
pub open spec fn rook_sees(s: int, t: int, occ: u64) -> bool {
    ray_reaches(rk(s), fl(s), 1, 0, occ, t) || ray_reaches(rk(s), fl(s), -1, 0, occ, t)
        || ray_reaches(rk(s), fl(s), 0, 1, occ, t) || ray_reaches(rk(s), fl(s), 0, -1, occ, t)
}

/// A bishop on `s` sees `t` along a diagonal, given the occupancy `occ`.
pub open spec fn bishop_sees(s: int, t: int, occ: u64) -> bool {
    ray_reaches(rk(s), fl(s), 1, 1, occ, t) || ray_reaches(rk(s), fl(s), 1, -1, occ, t)
        || ray_reaches(rk(s), fl(s), -1, 1, occ, t) || ray_reaches(rk(s), fl(s), -1, -1, occ, t)
}

/// `bb` with the bit of square (r, f) set.
pub fn add_square(bb: u64, r: i32, f: i32) -> (res: u64)
    requires
        on_board(r as int, f as int),
    ensures
        forall|t: int| #![trigger has_bit(res, t)] has_bit(res, t) <==> (has_bit(bb, t) || t == r * 8 + f),
{
    let j: u64 = (r * 8 + f) as u64;
    proof {
        lemma_bits_all();
        assert(single(j as int) == 1u64 << j);
    }
    bb | (1u64 << j)
}

/// `bb` with the bit of square (r, f) set when `cond` holds.
pub fn add_square_if(bb: u64, cond: bool, r: i32, f: i32) -> (res: u64)
    requires
        cond ==> on_board(r as int, f as int),
        -8 <= r <= 16,
        -8 <= f <= 16,
    ensures
        forall|t: int| #![trigger has_bit(res, t)] has_bit(res, t) <==> (has_bit(bb, t) || (cond && t == r * 8 + f)),
{
    if cond {
        add_square(bb, r, f)
    } else {
        bb
    }
}

/// Knight attack squares of `sq`.
pub fn knight_attacks_sq(sq: u8) -> (bb: u64)
    requires
        sq < 64,
    ensures
        forall|t: int| 0 <= t < 64 ==> (has_bit(bb, t) <==> #[trigger] knight_move(sq as int, t)),
{
    let r = (sq / 8) as i32;
    let f = (sq % 8) as i32;
    let mut bb: u64 = 0;
    bb = add_square_if(bb, r + 2 < 8 && f + 1 < 8, r + 2, f + 1);
    bb = add_square_if(bb, r + 2 < 8 && f > 0, r + 2, f - 1);
    bb = add_square_if(bb, r - 2 >= 0 && f + 1 < 8, r - 2, f + 1);
    bb = add_square_if(bb, r - 2 >= 0 && f > 0, r - 2, f - 1);
    bb = add_square_if(bb, r + 1 < 8 && f + 2 < 8, r + 1, f + 2);
    bb = add_square_if(bb, r + 1 < 8 && f - 2 >= 0, r + 1, f - 2);
    bb = add_square_if(bb, r > 0 && f + 2 < 8, r - 1, f + 2);
    bb = add_square_if(bb, r > 0 && f - 2 >= 0, r - 1, f - 2);
    proof {
        lemma_bits_all();
        assert forall|t: int| 0 <= t < 64 implies (has_bit(bb, t) <==> #[trigger] knight_move(sq as int, t)) by {
            assert(t == rk(t) * 8 + fl(t));
            assert(r == rk(sq as int) && f == fl(sq as int));
            let cands = (r + 2 < 8 && f + 1 < 8 && t == (r + 2) * 8 + f + 1)
                || (r + 2 < 8 && f > 0 && t == (r + 2) * 8 + f - 1)
                || (r - 2 >= 0 && f + 1 < 8 && t == (r - 2) * 8 + f + 1)
                || (r - 2 >= 0 && f > 0 && t == (r - 2) * 8 + f - 1)
                || (r + 1 < 8 && f + 2 < 8 && t == (r + 1) * 8 + f + 2)
                || (r + 1 < 8 && f - 2 >= 0 && t == (r + 1) * 8 + f - 2)
                || (r > 0 && f + 2 < 8 && t == (r - 1) * 8 + f + 2)
                || (r > 0 && f - 2 >= 0 && t == (r - 1) * 8 + f - 2);
            assert(has_bit(bb, t) <==> cands);
            if knight_move(sq as int, t) {
                assert(cands);
            }
            if cands {
                assert(knight_move(sq as int, t));
            }
        }
    }
    bb
}

/// King attack squares of `sq`.
pub fn king_attacks_sq(sq: u8) -> (bb: u64)
    requires
        sq < 64,
    ensures
        forall|t: int| 0 <= t < 64 ==> (has_bit(bb, t) <==> #[trigger] king_move(sq as int, t)),
{
    let r = (sq / 8) as i32;
    let f = (sq % 8) as i32;
    let mut bb: u64 = 0;
    bb = add_square_if(bb, r + 1 < 8 && f > 0, r + 1, f - 1);
    bb = add_square_if(bb, r + 1 < 8, r + 1, f);
    bb = add_square_if(bb, r + 1 < 8 && f + 1 < 8, r + 1, f + 1);
    bb = add_square_if(bb, f > 0, r, f - 1);
    bb = add_square_if(bb, f + 1 < 8, r, f + 1);
    bb = add_square_if(bb, r > 0 && f > 0, r - 1, f - 1);
    bb = add_square_if(bb, r > 0, r - 1, f);
    bb = add_square_if(bb, r > 0 && f + 1 < 8, r - 1, f + 1);
    proof {
        lemma_bits_all();
        assert forall|t: int| 0 <= t < 64 implies (has_bit(bb, t) <==> #[trigger] king_move(sq as int, t)) by {
            assert(t == rk(t) * 8 + fl(t));
        }
    }
    bb
}


pub proof fn lemma_shl_bit(x: u64, k: u64, t: u64)
    requires
        k < 64,
        t < 64,
    ensures
        has_bit(x << k, t as int) <==> (t >= k && has_bit(x, t - k)),
{
    assert(((x << k) >> t) & 1u64 == 1u64 <==> (t >= k && (x >> (t - k) as u64) & 1u64 == 1u64)) by (bit_vector)
        requires
            k < 64,
            t < 64,
    ;
}

pub proof fn lemma_shr_bit(x: u64, k: u64, t: u64)
    requires
        k < 64,
        t < 64,
    ensures
        has_bit(x >> k, t as int) <==> (t + k < 64 && has_bit(x, t + k)),
{
    assert(((x >> k) >> t) & 1u64 == 1u64 <==> (t + k < 64 && (x >> (t + k) as u64) & 1u64 == 1u64)) by (bit_vector)
        requires
            k < 64,
            t < 64,
    ;
}

pub const FILE_A: u64 = 0x0101010101010101;
pub const FILE_H: u64 = 0x8080808080808080;
pub const RANK_1: u64 = 0x00000000000000FF;
pub const RANK_3: u64 = 0x0000000000FF0000;
pub const RANK_6: u64 = 0x0000FF0000000000;
pub const RANK_8: u64 = 0xFF00000000000000;

/// The squares of the file and rank masks.
pub proof fn lemma_masks()
    ensures
        forall|t: int| 0 <= t < 64 ==> (#[trigger] has_bit(FILE_A, t) <==> t % 8 == 0),
        forall|t: int| 0 <= t < 64 ==> (#[trigger] has_bit(FILE_H, t) <==> t % 8 == 7),
        forall|t: int| 0 <= t < 64 ==> (#[trigger] has_bit(RANK_1, t) <==> t / 8 == 0),
        forall|t: int| 0 <= t < 64 ==> (#[trigger] has_bit(RANK_3, t) <==> t / 8 == 2),
        forall|t: int| 0 <= t < 64 ==> (#[trigger] has_bit(RANK_6, t) <==> t / 8 == 5),
        forall|t: int| 0 <= t < 64 ==> (#[trigger] has_bit(RANK_8, t) <==> t / 8 == 7),
{
    assert forall|t: int| 0 <= t < 64 implies (#[trigger] has_bit(FILE_A, t) <==> t % 8 == 0) by {
        let u = t as u64;
        assert(((0x0101010101010101u64 >> u) & 1u64 == 1u64) <==> u % 8 == 0) by (bit_vector)
            requires u < 64;
    }
    assert forall|t: int| 0 <= t < 64 implies (#[trigger] has_bit(FILE_H, t) <==> t % 8 == 7) by {
        let u = t as u64;
        assert(((0x8080808080808080u64 >> u) & 1u64 == 1u64) <==> u % 8 == 7) by (bit_vector)
            requires u < 64;
    }
    assert forall|t: int| 0 <= t < 64 implies (#[trigger] has_bit(RANK_1, t) <==> t / 8 == 0) by {
        let u = t as u64;
        assert(((0x00000000000000FFu64 >> u) & 1u64 == 1u64) <==> u < 8) by (bit_vector)
            requires u < 64;
    }
    assert forall|t: int| 0 <= t < 64 implies (#[trigger] has_bit(RANK_3, t) <==> t / 8 == 2) by {
        let u = t as u64;
        assert(((0x0000000000FF0000u64 >> u) & 1u64 == 1u64) <==> (16 <= u && u < 24)) by (bit_vector)
            requires u < 64;
    }
    assert forall|t: int| 0 <= t < 64 implies (#[trigger] has_bit(RANK_6, t) <==> t / 8 == 5) by {
        let u = t as u64;
        assert(((0x0000FF0000000000u64 >> u) & 1u64 == 1u64) <==> (40 <= u && u < 48)) by (bit_vector)
            requires u < 64;
    }
    assert forall|t: int| 0 <= t < 64 implies (#[trigger] has_bit(RANK_8, t) <==> t / 8 == 7) by {
        let u = t as u64;
        assert(((0xFF00000000000000u64 >> u) & 1u64 == 1u64) <==> 56 <= u) by (bit_vector)
            requires u < 64;
    }
}

/// Some pawn of `color` in `pawns` attacks `t`.
pub open spec fn pawns_attack(color: Color, pawns: u64, t: int) -> bool {
    exists|s: int| has_bit(pawns, s) && #[trigger] pawn_attack(color, s, t)
}

/// All squares attacked by white pawns on `pawns`.
pub fn white_pawn_attacks(pawns: u64) -> (r: u64)
    ensures
        forall|t: int| 0 <= t < 64 ==> (has_bit(r, t) <==> #[trigger] pawns_attack(Color::White, pawns, t)),
{
    let r = ((pawns << 9u64) & !FILE_A) | ((pawns << 7u64) & !FILE_H);
    proof {
        lemma_bits_all();
        lemma_masks();
        assert forall|t: int| 0 <= t < 64 implies (has_bit(r, t) <==> #[trigger] pawns_attack(Color::White, pawns, t)) by {
            lemma_shl_bit(pawns, 9, t as u64);
            lemma_shl_bit(pawns, 7, t as u64);
            if has_bit(r, t) {
                if t >= 9 && has_bit(pawns, t - 9) && t % 8 != 0 {
                    assert(pawn_attack(Color::White, t - 9, t));
                } else {
                    assert(pawn_attack(Color::White, t - 7, t));
                }
            }
            if pawns_attack(Color::White, pawns, t) {
                let s = choose|s: int| has_bit(pawns, s) && #[trigger] pawn_attack(Color::White, s, t);
                assert(s == t - 9 || s == t - 7);
            }
        }
    }
    r
}

/// All squares attacked by black pawns on `pawns`.
pub fn black_pawn_attacks(pawns: u64) -> (r: u64)
    ensures
        forall|t: int| 0 <= t < 64 ==> (has_bit(r, t) <==> #[trigger] pawns_attack(Color::Black, pawns, t)),
{
    let r = ((pawns >> 7u64) & !FILE_A) | ((pawns >> 9u64) & !FILE_H);
    proof {
        lemma_bits_all();
        lemma_masks();
        assert forall|t: int| 0 <= t < 64 implies (has_bit(r, t) <==> #[trigger] pawns_attack(Color::Black, pawns, t)) by {
            lemma_shr_bit(pawns, 9, t as u64);
            lemma_shr_bit(pawns, 7, t as u64);
            if has_bit(r, t) {
                if t + 7 < 64 && has_bit(pawns, t + 7) && t % 8 != 0 {
                    assert(pawn_attack(Color::Black, t + 7, t));
                } else {
                    assert(pawn_attack(Color::Black, t + 9, t));
                }
            }
            if pawns_attack(Color::Black, pawns, t) {
                let s = choose|s: int| has_bit(pawns, s) && #[trigger] pawn_attack(Color::Black, s, t);
                assert(s == t + 9 || s == t + 7);
            }
        }
    }
    r
}

/// The squares reached from `sq` walking in direction (dr, df), up to and
/// including the first occupied square of `occupied`.
pub fn ray_attacks(sq: Square, occupied: u64, dr: i32, df: i32) -> (res: u64)
    requires
        sq < 64,
        -1 <= dr <= 1,
        -1 <= df <= 1,
        !(dr == 0 && df == 0),
    ensures
        forall|t: int| 0 <= t < 64 ==> (has_bit(res, t) <==> #[trigger] ray_reaches(
            rk(sq as int),
            fl(sq as int),
            dr as int,
            df as int,
            occupied,
            t,
        )),
{
    let rank = (sq / 8) as i32;
    let file = (sq % 8) as i32;
    let ghost (r0, f0) = (rank as int, file as int);
    let mut attacks: u64 = 0;
    let mut r = rank + dr;
    let mut f = file + df;
    let mut blocked = false;
    proof {
        lemma_bits_all();
    }
    while !blocked && 0 <= r && r < 8 && 0 <= f && f < 8
        invariant
            -1 <= dr <= 1,
            -1 <= df <= 1,
            !(dr == 0 && df == 0),
            -1 <= r <= 8,
            -1 <= f <= 8,
            on_board(r - dr, f - df),
            r0 == rk(sq as int),
            f0 == fl(sq as int),
            !blocked ==> forall|t: int| #![trigger ray_reaches(r0, f0, dr as int, df as int, occupied, t)] 0 <= t < 64 ==> (ray_reaches(r0, f0, dr as int, df as int, occupied, t) <==> (
                has_bit(attacks, t) || ray_reaches(r - dr, f - df, dr as int, df as int, occupied, t))),
            blocked ==> forall|t: int| #![trigger ray_reaches(r0, f0, dr as int, df as int, occupied, t)] 0 <= t < 64 ==> (ray_reaches(r0, f0, dr as int, df as int, occupied, t)
                <==> has_bit(attacks, t)),
        decreases ray_measure(r as int, f as int, dr as int, df as int) + (if blocked { 0int } else { 1int }),
    {
        let bit_sq = (r * 8 + f) as u64;
        let ghost prev = attacks;
        attacks = attacks | (1u64 << bit_sq);
        proof {
            lemma_bits_all();
            assert(single(bit_sq as int) == 1u64 << bit_sq);
        }
        if occupied & (1u64 << bit_sq) != 0 {
            proof {
                crate::board::lemma_and_single_nonzero(occupied, bit_sq);
                assert forall|t: int| 0 <= t < 64 implies (ray_reaches(r0, f0, dr as int, df as int, occupied, t)
                    <==> has_bit(attacks, t)) by {
                    assert(ray_reaches(r - dr, f - df, dr as int, df as int, occupied, t) <==> t == r * 8 + f);
                }
            }
            blocked = true;
        } else {
            proof {
                crate::board::lemma_and_single_nonzero(occupied, bit_sq);
                assert(!has_bit(occupied, r * 8 + f));
                assert forall|t: int| 0 <= t < 64 implies (ray_reaches(r0, f0, dr as int, df as int, occupied, t)
                    <==> (has_bit(attacks, t) || ray_reaches(r as int, f as int, dr as int, df as int, occupied, t))) by {
                    let pr = r - dr;
                    let pf = f - df;
                    assert(pr + dr == r && pf + df == f);
                    assert(ray_reaches(pr, pf, dr as int, df as int, occupied, t) <==> (t == r * 8 + f
                        || ray_reaches(r as int, f as int, dr as int, df as int, occupied, t)));
                    assert(has_bit(attacks, t) <==> (has_bit(prev, t) || t == r * 8 + f));
                }
            }
            r = r + dr;
            f = f + df;
        }
    }
    proof {
        if !blocked {
            assert forall|t: int| 0 <= t < 64 implies !#[trigger] ray_reaches(r - dr, f - df, dr as int, df as int, occupied, t) by {
            }
        }
    }
    attacks
}

/// Rook attacks from `sq` against the given occupancy.
pub fn rook_attacks(sq: Square, occupied: u64) -> (res: u64)
    requires
        sq < 64,
    ensures
        forall|t: int| 0 <= t < 64 ==> (has_bit(res, t) <==> #[trigger] rook_sees(sq as int, t, occupied)),
{
    let a = ray_attacks(sq, occupied, 1, 0);
    let b = ray_attacks(sq, occupied, -1, 0);
    let c = ray_attacks(sq, occupied, 0, 1);
    let d = ray_attacks(sq, occupied, 0, -1);
    proof {
        lemma_bits_all();
    }
    a | b | c | d
}

/// Bishop attacks from `sq` against the given occupancy.
pub fn bishop_attacks(sq: Square, occupied: u64) -> (res: u64)
    requires
        sq < 64,
    ensures
        forall|t: int| 0 <= t < 64 ==> (has_bit(res, t) <==> #[trigger] bishop_sees(sq as int, t, occupied)),
{
    let a = ray_attacks(sq, occupied, 1, 1);
    let b = ray_attacks(sq, occupied, 1, -1);
    let c = ray_attacks(sq, occupied, -1, 1);
    let d = ray_attacks(sq, occupied, -1, -1);
    proof {
        lemma_bits_all();
    }
    a | b | c | d
}

/// A piece of `by` on `s` attacks `sq` (with the board's occupancy `occ`).
pub open spec fn attacker_on(b: Board, sq: int, by: Color, s: int, occ: u64) -> bool {
    ||| b.has(by, 1, s) && knight_move(sq, s)
    ||| b.has(by, 5, s) && king_move(sq, s)
    ||| (b.has(by, 2, s) || b.has(by, 4, s)) && bishop_sees(sq, s, occ)
    ||| (b.has(by, 3, s) || b.has(by, 4, s)) && rook_sees(sq, s, occ)
    ||| b.has(by, 0, s) && pawn_attack(by, s, sq)
}

/// Square `sq` is attacked by some piece of `by`: a knight or king a step
/// away, a bishop, rook or queen with a clear line, or a pawn diagonally
/// behind it.
pub open spec fn attacked_spec(b: Board, sq: int, by: Color) -> bool {
    exists|s: int| 0 <= s < 64 && #[trigger] attacker_on(b, sq, by, s, b.occ_bits())
}

/// The king of `color` (the lowest square of its king bitboard) is attacked.
pub open spec fn in_check_spec(b: Board, color: Color) -> bool {
    match lowest_square(b.bbv(color.spec_index() as int, 5)) {
        Some(k) => attacked_spec(b, k as int, color.spec_opposite()),
        None => false,
    }
}

proof fn lemma_and_witness(x: u64, y: u64)
    ensures
        (x & y) != 0u64 <==> exists|s: int| 0 <= s < 64 && #[trigger] has_bit(x, s) && has_bit(y, s),
{
    lemma_bits_all();
    lemma_nonzero_iff_bit(x & y);
    if (x & y) != 0u64 {
        let s = choose|s: int| 0 <= s < 64 && #[trigger] has_bit(x & y, s);
        assert(has_bit(x, s) && has_bit(y, s));
    }
    if exists|s: int| 0 <= s < 64 && #[trigger] has_bit(x, s) && has_bit(y, s) {
        let s = choose|s: int| 0 <= s < 64 && #[trigger] has_bit(x, s) && has_bit(y, s);
        assert(has_bit(x & y, s));
    }
}

/// Returns `true` if `sq` is attacked by any piece belonging to `by_color`.
pub fn is_square_attacked(board: &Board, sq: Square, by_color: Color) -> (res: bool)
    requires
        sq < 64,
    ensures
        res == attacked_spec(*board, sq as int, by_color),
{
    let occ = board.all_occupancy();
    let bi = by_color.index();
    let ghost b = *board;
    let ghost s0 = sq as int;
    proof {
        lemma_bits_all();
    }
    // Knights
    let katk = knight_attacks_sq(sq);
    proof {
        lemma_and_witness(katk, board.bb[bi as int][1]);
    }
    if katk & board.bb[bi][1] != 0 {
        proof {
            let s = choose|s: int| 0 <= s < 64 && #[trigger] has_bit(katk, s) && has_bit(board.bb[bi as int][1], s);
            assert(attacker_on(b, s0, by_color, s, b.occ_bits()));
        }
        return true;
    }
    // King
    let gatk = king_attacks_sq(sq);
    proof {
        lemma_and_witness(gatk, board.bb[bi as int][5]);
    }
    if gatk & board.bb[bi][5] != 0 {
        proof {
            let s = choose|s: int| 0 <= s < 64 && #[trigger] has_bit(gatk, s) && has_bit(board.bb[bi as int][5], s);
            assert(attacker_on(b, s0, by_color, s, b.occ_bits()));
        }
        return true;
    }
    // Diagonal sliders (bishop + queen)
    let diag = board.bb[bi][2] | board.bb[bi][4];
    let batk = bishop_attacks(sq, occ);
    proof {
        lemma_and_witness(batk, diag);
    }
    if batk & diag != 0 {
        proof {
            let s = choose|s: int| 0 <= s < 64 && #[trigger] has_bit(batk, s) && has_bit(diag, s);
            assert(attacker_on(b, s0, by_color, s, b.occ_bits()));
        }
        return true;
    }
    // Straight sliders (rook + queen)
    let straight = board.bb[bi][3] | board.bb[bi][4];
    let ratk = rook_attacks(sq, occ);
    proof {
        lemma_and_witness(ratk, straight);
    }
    if ratk & straight != 0 {
        proof {
            let s = choose|s: int| 0 <= s < 64 && #[trigger] has_bit(ratk, s) && has_bit(straight, s);
            assert(attacker_on(b, s0, by_color, s, b.occ_bits()));
        }
        return true;
    }
    // Pawns
    let their_pawns = board.bb[bi][0];
    let pawn_atk = match by_color {
        Color::White => white_pawn_attacks(their_pawns),
        Color::Black => black_pawn_attacks(their_pawns),
    };
    proof {
        crate::board::lemma_and_single_nonzero(pawn_atk, sq as u64);
    }
    if pawn_atk & (1u64 << (sq as u64)) != 0 {
        proof {
            assert(pawns_attack(by_color, their_pawns, s0));
            let s = choose|s: int| has_bit(their_pawns, s) && #[trigger] pawn_attack(by_color, s, s0);
            assert(attacker_on(b, s0, by_color, s, b.occ_bits()));
        }
        return true;
    }
    proof {
        assert forall|s: int| 0 <= s < 64 implies !#[trigger] attacker_on(b, s0, by_color, s, b.occ_bits()) by {
            assert(!(has_bit(katk, s) && has_bit(board.bb[bi as int][1], s)));
            assert(!(has_bit(gatk, s) && has_bit(board.bb[bi as int][5], s)));
            assert(!(has_bit(batk, s) && has_bit(diag, s)));
            assert(!(has_bit(ratk, s) && has_bit(straight, s)));
            if b.has(by_color, 0, s) && pawn_attack(by_color, s, s0) {
                assert(pawns_attack(by_color, their_pawns, s0));
            }
        }
    }
    false
}

/// Returns `true` if the king of `color` is currently in check.
pub fn is_in_check(board: &Board, color: Color) -> (res: bool)
    ensures
        res == in_check_spec(*board, color),
{
    match board.king_square(color) {
        Some(sq) => {
            proof {
                crate::board::lemma_first_set_from(board.bbv(color.spec_index() as int, 5), 0);
            }
            is_square_attacked(board, sq, color.opposite())
        },
        None => false,
    }
}

} // verus!
