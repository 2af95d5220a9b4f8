//! The board: twelve bitboards plus side to move, castling rights, en-passant
//! target and the two move clocks.
use vstd::prelude::*;
use crate::bits::{has_bit, lemma_bits_all, single};
use crate::text::{digit_char, digit_to_char, push_char};
use crate::types::{color_of_index, lemma_piece_type_index, push_castling, push_square_name, square_name_spec, CastlingRights, Color, Piece, PieceType, Square};

verus! {

/// The complete state of the chess board at a single point in time.
///
/// Piece positions are stored as twelve `u64` bitboards, one per
/// (colour, piece-type) pair: `bb[color_index][piece_type_index]`. Bit *n* is
/// set when a piece of that kind occupies square *n* (a1 = 0 .. h8 = 63).
#[derive(Debug, Clone, Copy, PartialEq, Eq, Hash)]
pub struct Board {
    pub bb: [[u64; 6]; 2],
    pub side_to_move: Color,
    pub castling_rights: CastlingRights,
    /// Target square for a possible en-passant capture; `None` if not applicable.
    pub en_passant: Option<Square>,
    /// Half-move clock for the fifty-move rule.
    pub halfmove_clock: u32,
    /// Full-move number, starting at 1 and incrementing after Black's move.
    pub fullmove_number: u32,
}

/// The piece that bitboard number `k` (0..12, colour-major) holds.
pub open spec fn piece_of_slot(k: int) -> Piece {
    Piece { piece_type: PieceType::spec_from_index((k % 6) as usize), color: color_of_index(k / 6) }
}

impl Board {
    /// Bitboard of colour index `c` and piece index `p`.
    pub open spec fn bbv(self, c: int, p: int) -> u64 {
        self.bb[c][p]
    }

    /// Bitboard number `k` in colour-major order (White pawns first, Black king last).
    pub open spec fn slot(self, k: int) -> u64 {
        self.bb[k / 6][k % 6]
    }

    /// A piece of `color` and type index `p` stands on `sq`.
    pub open spec fn has(self, color: Color, p: int, sq: int) -> bool {
        has_bit(self.bbv(color.spec_index() as int, p), sq)
    }

    /// Some piece of `color` stands on `sq`.
    pub open spec fn occupied_by(self, color: Color, sq: int) -> bool {
        let c = color.spec_index() as int;
        has_bit(self.bbv(c, 0), sq) || has_bit(self.bbv(c, 1), sq) || has_bit(self.bbv(c, 2), sq)
            || has_bit(self.bbv(c, 3), sq) || has_bit(self.bbv(c, 4), sq) || has_bit(self.bbv(c, 5), sq)
    }

    /// All squares of colour index `c`, as a bitboard.
    pub open spec fn color_bits(self, c: int) -> u64 {
        self.bbv(c, 0) | self.bbv(c, 1) | self.bbv(c, 2) | self.bbv(c, 3) | self.bbv(c, 4) | self.bbv(c, 5)
    }

    /// All occupied squares, as a bitboard.
    pub open spec fn occ_bits(self) -> u64 {
        self.color_bits(0) | self.color_bits(1)
    }

    pub open spec fn occupied(self, sq: int) -> bool {
        self.occupied_by(Color::White, sq) || self.occupied_by(Color::Black, sq)
    }

    /// The first bitboard, from number `k` on, that holds `sq`.
    pub open spec fn piece_at_from(self, sq: int, k: int) -> Option<Piece>
        decreases 12 - k,
    {
        if k >= 12 || k < 0 {
            None
        } else if has_bit(self.slot(k), sq) {
            Some(piece_of_slot(k))
        } else {
            self.piece_at_from(sq, k + 1)
        }
    }

    /// The piece on `sq`: that of the first bitboard, in colour-major order,
    /// whose bit `sq` is set.
    pub open spec fn spec_piece_at(self, sq: int) -> Option<Piece> {
        self.piece_at_from(sq, 0)
    }

    /// The en-passant target, if any, is a square of the board.
    pub open spec fn wf(self) -> bool {
        self.en_passant matches Some(e) ==> e < 64
    }

    /// Bitboard of every square occupied by `color`.
    pub fn occupancy(&self, color: Color) -> (r: u64)
        ensures
            r == self.color_bits(color.spec_index() as int),
            forall|sq: int| 0 <= sq < 64 ==> (has_bit(r, sq) <==> #[trigger] self.occupied_by(color, sq)),
    {
        let c = color.index();
        let r = self.bb[c][0] | self.bb[c][1] | self.bb[c][2] | self.bb[c][3] | self.bb[c][4] | self.bb[c][5];
        proof {
            lemma_bits_all();
        }
        r
    }

    /// Bitboard of every occupied square (both colours).
    pub fn all_occupancy(&self) -> (r: u64)
        ensures
            r == self.occ_bits(),
            forall|sq: int| 0 <= sq < 64 ==> (has_bit(r, sq) <==> #[trigger] self.occupied(sq)),
    {
        let w = self.occupancy(Color::White);
        let b = self.occupancy(Color::Black);
        proof {
            lemma_bits_all();
        }
        w | b
    }

    /// Bitboard for a specific (colour, piece-type) combination.
    pub fn piece_bb(&self, color: Color, pt: PieceType) -> (r: u64)
        ensures
            r == self.bbv(color.spec_index() as int, pt.spec_index() as int),
    {
        self.bb[color.index()][pt.index()]
    }

    /// Returns the piece on `sq`, or `None` if the square is empty.
    pub fn piece_at(&self, sq: Square) -> (res: Option<Piece>)
        requires
            sq < 64,
        ensures
            res == self.spec_piece_at(sq as int),
    {
        let bit = 1u64 << (sq as u64);
        let mut k: usize = 0;
        while k < 12
            invariant
                k <= 12,
                bit == single(sq as int),
                sq < 64,
                self.spec_piece_at(sq as int) == self.piece_at_from(sq as int, k as int),
            decreases 12 - k,
        {
            let ci = k / 6;
            let pi = k % 6;
            if self.bb[ci][pi] & bit != 0 {
                proof {
                    lemma_and_single_nonzero(self.bb[ci as int][pi as int], sq as u64);
                }
                let color = if ci == 0 { Color::White } else { Color::Black };
                return Some(Piece::new(PieceType::from_index(pi), color));
            }
            proof {
                lemma_and_single_nonzero(self.bb[ci as int][pi as int], sq as u64);
            }
            k = k + 1;
        }
        None
    }

    /// Clears all bitboards at `sq`.
    pub fn clear_square(&mut self, sq: Square)
        requires
            sq < 64,
        ensures
            forall|c: int, p: int| 0 <= c < 2 && 0 <= p < 6 ==>
                #[trigger] final(self).bbv(c, p) == old(self).bbv(c, p) & !single(sq as int),
            final(self).side_to_move == old(self).side_to_move,
            final(self).castling_rights == old(self).castling_rights,
            final(self).en_passant == old(self).en_passant,
            final(self).halfmove_clock == old(self).halfmove_clock,
            final(self).fullmove_number == old(self).fullmove_number,
    {
        let mask = !(1u64 << (sq as u64));
        let mut k: usize = 0;
        while k < 12
            invariant
                k <= 12,
                mask == !single(sq as int),
                forall|c: int, p: int| 0 <= c < 2 && 0 <= p < 6 ==>
                    #[trigger] self.bbv(c, p) == if c * 6 + p < k { old(self).bbv(c, p) & mask } else { old(self).bbv(c, p) },
                self.side_to_move == old(self).side_to_move,
                self.castling_rights == old(self).castling_rights,
                self.en_passant == old(self).en_passant,
                self.halfmove_clock == old(self).halfmove_clock,
                self.fullmove_number == old(self).fullmove_number,
            decreases 12 - k,
        {
            let ci = k / 6;
            let pi = k % 6;
            let v = self.bb[ci][pi] & mask;
            let ghost before = *self;
            self.bb[ci][pi] = v;
            assert(ci * 6 + pi == k);
            assert forall|c: int, p: int| 0 <= c < 2 && 0 <= p < 6 implies
                #[trigger] self.bbv(c, p) == if c * 6 + p < k + 1 { old(self).bbv(c, p) & mask } else { old(self).bbv(c, p) } by {
                if c != ci || p != pi {
                    assert(self.bbv(c, p) == before.bbv(c, p));
                } else {
                    assert(before.bbv(c, p) == old(self).bbv(c, p));
                    assert(self.bbv(c, p) == v);
                }
            }
            k = k + 1;
        }
    }

    /// Places `piece` on `sq`, first clearing any piece already there.
    pub fn set_piece(&mut self, sq: Square, piece: Option<Piece>)
        requires
            sq < 64,
        ensures
            forall|c: int, p: int| 0 <= c < 2 && 0 <= p < 6 ==>
                #[trigger] final(self).bbv(c, p) == (if (piece matches Some(pc) && c == pc.color.spec_index()
                    && p == pc.piece_type.spec_index()) {
                    (old(self).bbv(c, p) & !single(sq as int)) | single(sq as int)
                } else {
                    old(self).bbv(c, p) & !single(sq as int)
                }),
            final(self).side_to_move == old(self).side_to_move,
            final(self).castling_rights == old(self).castling_rights,
            final(self).en_passant == old(self).en_passant,
            final(self).halfmove_clock == old(self).halfmove_clock,
            final(self).fullmove_number == old(self).fullmove_number,
            final(self).spec_piece_at(sq as int) == piece,
            forall|t: int| 0 <= t < 64 && t != sq ==> #[trigger] final(self).spec_piece_at(t) == old(self).spec_piece_at(t),
            *final(self) == set_piece_spec(*old(self), sq as int, piece),
    {
        self.clear_square(sq);
        if let Some(p) = piece {
            let ci = p.color.index();
            let pi = p.piece_type.index();
            let v = self.bb[ci][pi] | (1u64 << (sq as u64));
            let ghost before = *self;
            self.bb[ci][pi] = v;
            assert forall|c: int, p: int| 0 <= c < 2 && 0 <= p < 6 && (c != ci || p != pi) implies
                #[trigger] self.bbv(c, p) == before.bbv(c, p) by {
            }
            assert(self.bbv(ci as int, pi as int) == v);
            assert(before.bbv(ci as int, pi as int) == old(self).bbv(ci as int, pi as int) & !single(sq as int));
        }
        proof {
            lemma_set_piece_spec(*old(self), *self, sq as int, piece);
        }
        proof {
            lemma_bits_all();
            let s0 = *old(self);
            let s1 = *self;
            assert forall|t: int| 0 <= t < 64 && t != sq implies #[trigger] s1.spec_piece_at(t) == s0.spec_piece_at(t) by {
                assert forall|k: int| 0 <= k < 12 implies (has_bit(s1.slot(k), t) <==> has_bit(s0.slot(k), t)) by {
                    assert(s1.slot(k) == s1.bbv(k / 6, k % 6));
                    assert(s0.slot(k) == s0.bbv(k / 6, k % 6));
                }
                lemma_piece_at_from_same(s1, s0, t, 0);
            }
            match piece {
                None => {
                    assert forall|k: int| 0 <= k < 12 implies !has_bit(s1.slot(k), sq as int) by {
                        assert(s1.slot(k) == s1.bbv(k / 6, k % 6));
                    }
                    lemma_piece_at_from_none(s1, sq as int, 0);
                },
                Some(pc) => {
                    let j = pc.color.spec_index() * 6 + pc.piece_type.spec_index();
                    lemma_piece_type_index(pc.piece_type);
                    assert forall|k: int| 0 <= k < 12 && k != j implies !has_bit(s1.slot(k), sq as int) by {
                        assert(s1.slot(k) == s1.bbv(k / 6, k % 6));
                    }
                    assert(s1.slot(j) == s1.bbv(j / 6, j % 6));
                    assert(has_bit(s1.slot(j), sq as int));
                    lemma_piece_at_from_first(s1, sq as int, 0, j);
                    assert(piece_of_slot(j) == pc);
                },
            }
        }
    }

    /// Removes and returns whatever piece is on `sq`, or `None` if the square
    /// was already empty.
    pub fn take_piece(&mut self, sq: Square) -> (res: Option<Piece>)
        requires
            sq < 64,
        ensures
            res == old(self).spec_piece_at(sq as int),
            forall|c: int, p: int| 0 <= c < 2 && 0 <= p < 6 ==>
                #[trigger] final(self).bbv(c, p) == (if (res matches Some(pc) && c == pc.color.spec_index()
                    && p == pc.piece_type.spec_index()) {
                    old(self).bbv(c, p) & !single(sq as int)
                } else {
                    old(self).bbv(c, p)
                }),
            final(self).side_to_move == old(self).side_to_move,
            final(self).castling_rights == old(self).castling_rights,
            final(self).en_passant == old(self).en_passant,
            final(self).halfmove_clock == old(self).halfmove_clock,
            final(self).fullmove_number == old(self).fullmove_number,
    {
        let p = self.piece_at(sq);
        if let Some(pc) = p {
            let ci = pc.color.index();
            let pi = pc.piece_type.index();
            let v = self.bb[ci][pi] & !(1u64 << (sq as u64));
            let ghost before = *self;
            self.bb[ci][pi] = v;
            assert forall|c: int, p: int| 0 <= c < 2 && 0 <= p < 6 && (c != ci || p != pi) implies
                #[trigger] self.bbv(c, p) == before.bbv(c, p) by {
            }
        }
        p
    }

    /// Returns a flat snapshot of the board: entry `n` is the piece on square `n`.
    pub fn squares(&self) -> (arr: [Option<Piece>; 64])
        ensures
            forall|i: int| 0 <= i < 64 ==> #[trigger] arr@[i] == self.spec_piece_at(i),
    {
        let mut arr: [Option<Piece>; 64] = [None; 64];
        let mut sq: u8 = 0;
        while sq < 64
            invariant
                sq <= 64,
                forall|i: int| 0 <= i < sq ==> #[trigger] arr@[i] == self.spec_piece_at(i),
            decreases 64 - sq,
        {
            arr[sq as usize] = self.piece_at(sq);
            sq = sq + 1;
        }
        arr
    }

    /// Square of the king of `color`: the lowest set bit of its bitboard.
    /// `None` only when that bitboard is empty.
    pub fn king_square(&self, color: Color) -> (res: Option<Square>)
        ensures
            res == lowest_square(self.bbv(color.spec_index() as int, 5)),
    {
        first_square(self.bb[color.index()][5])
    }

    /// Returns a board set up in the standard chess starting position.
    pub fn starting_position() -> (b: Self)
        ensures
            b == starting_board(),
    {
        let b = Self {
            bb: [
                [
                    0x000000000000FF00,
                    0x0000000000000042,
                    0x0000000000000024,
                    0x0000000000000081,
                    0x0000000000000008,
                    0x0000000000000010,
                ],
                [
                    0x00FF000000000000,
                    0x4200000000000000,
                    0x2400000000000000,
                    0x8100000000000000,
                    0x0800000000000000,
                    0x1000000000000000,
                ],
            ],
            side_to_move: Color::White,
            castling_rights: CastlingRights::all(),
            en_passant: None,
            halfmove_clock: 0,
            fullmove_number: 1,
        };
        b
    }
}

impl Board {
    /// The FEN notation of the empty squares run of length `n` (nothing when 0).
    pub open spec fn empty_run(n: nat) -> Seq<char> {
        if n > 0 { seq![digit_char(n as int)] } else { Seq::empty() }
    }

    /// FEN notation of rank `r` from file `f` on, after `empty` empty squares.
    pub open spec fn rank_fen_from(self, r: int, f: int, empty: nat) -> Seq<char>
        decreases 8 - f,
    {
        if f >= 8 {
            Self::empty_run(empty)
        } else {
            match self.spec_piece_at(r * 8 + f) {
                None => self.rank_fen_from(r, f + 1, empty + 1),
                Some(p) => Self::empty_run(empty) + seq![p.spec_to_fen_char()] + self.rank_fen_from(r, f + 1, 0),
            }
        }
    }

    /// FEN notation of ranks `r` down to the first, separated by `/`.
    pub open spec fn placement_from(self, r: int) -> Seq<char>
        decreases r,
    {
        if r <= 0 {
            self.rank_fen_from(0, 0, 0)
        } else {
            self.rank_fen_from(r, 0, 0) + seq!['/'] + self.placement_from(r - 1)
        }
    }

    /// The piece-placement field of FEN: ranks 8 down to 1, each as files a..h
    /// with runs of empty squares written as digits.
    pub open spec fn placement_spec(self) -> Seq<char> {
        self.placement_from(7)
    }

    /// Appends the piece-placement field of FEN to `out`.
    pub fn push_placement(&self, out: &mut String)
        ensures
            final(out)@ == old(out)@ + self.placement_spec(),
    {
        let ghost start = out@;
        let mut rank: u8 = 8;
        while rank > 0
            invariant
                rank <= 8,
                out@ + (if rank >= 1 { self.placement_from(rank - 1) } else { Seq::empty() })
                    == start + self.placement_spec(),
            decreases rank,
        {
            rank = rank - 1;
            let ghost out0 = out@;
            let mut empty: u8 = 0;
            let mut file: u8 = 0;
            assert(empty == 0);
            while file < 8
                invariant
                    rank < 8,
                    file <= 8,
                    empty <= file,
                    out@ + self.rank_fen_from(rank as int, file as int, empty as nat)
                        == out0 + self.rank_fen_from(rank as int, 0, 0),
                decreases 8 - file,
            {
                match self.piece_at(rank * 8 + file) {
                    None => {
                        empty = empty + 1;
                    },
                    Some(p) => {
                        let ghost o = out@;
                        let ghost e0 = empty;
                        if empty > 0 {
                            push_char(out, digit_to_char(empty as u32));
                            empty = 0;
                        }
                        push_char(out, p.to_fen_char());
                        assert(out@ + self.rank_fen_from(rank as int, file + 1, 0)
                            =~= o + self.rank_fen_from(rank as int, file as int, e0 as nat)) by {
                            assert(o + Self::empty_run(e0 as nat) + seq![p.spec_to_fen_char()]
                                + self.rank_fen_from(rank as int, file + 1, 0)
                                =~= o + (Self::empty_run(e0 as nat) + seq![p.spec_to_fen_char()]
                                + self.rank_fen_from(rank as int, file + 1, 0)));
                        }
                    },
                }
                file = file + 1;
            }
            if empty > 0 {
                push_char(out, digit_to_char(empty as u32));
            }
            assert(out@ =~= out0 + self.rank_fen_from(rank as int, 0, 0));
            if rank > 0 {
                push_char(out, '/');
            }
            assert(out@ + (if rank >= 1 { self.placement_from(rank - 1) } else { Seq::empty() })
                =~= out0 + self.placement_from(rank as int));
        }
        assert(out@ =~= start + self.placement_spec());
    }

    /// Returns the piece-placement field of the FEN string (rank 8 .. rank 1).
    pub fn fen_piece_placement(&self) -> (s: String)
        ensures
            s@ == self.placement_spec(),
    {
        let mut out = String::new();
        self.push_placement(&mut out);
        assert(out@ =~= self.placement_spec());
        out
    }

    /// The en-passant field of FEN: the target square's name, or `-`.
    pub open spec fn ep_spec(self) -> Seq<char> {
        match self.en_passant {
            Some(e) => square_name_spec(e as int),
            None => seq!['-'],
        }
    }

    /// The position key: placement, side to move, castling rights and
    /// en-passant field, separated by single spaces.
    pub open spec fn position_key_spec(self) -> Seq<char> {
        self.placement_spec() + seq![' ', self.side_to_move.spec_to_char(), ' ']
            + self.castling_rights.fen_str_spec() + seq![' '] + self.ep_spec()
    }

    /// A compact position key for threefold-repetition detection.
    ///
    /// Includes piece placement, side to move, castling rights, and en passant
    /// target: the fields that define a unique chess position.
    pub fn position_key(&self) -> (s: String)
        ensures
            s@ == self.position_key_spec(),
    {
        let mut out = String::new();
        self.push_placement(&mut out);
        push_char(&mut out, ' ');
        push_char(&mut out, self.side_to_move.to_char());
        push_char(&mut out, ' ');
        push_castling(&mut out, self.castling_rights);
        push_char(&mut out, ' ');
        match self.en_passant {
            Some(e) => push_square_name(&mut out, e),
            None => push_char(&mut out, '-'),
        }
        assert(out@ =~= self.position_key_spec());
        out
    }
}

/// Bitboard (c, p) after placing `piece` on `sq` (clearing `sq` first).
pub open spec fn set_bb_val(b: Board, sq: int, piece: Option<Piece>, c: int, p: int) -> u64 {
    if (piece matches Some(pc) && c == pc.color.spec_index() && p == pc.piece_type.spec_index()) {
        (b.bbv(c, p) & !single(sq)) | single(sq)
    } else {
        b.bbv(c, p) & !single(sq)
    }
}

/// The board with `piece` placed on `sq`, whatever stood there removed.
pub open spec fn set_piece_spec(b: Board, sq: int, piece: Option<Piece>) -> Board {
    Board {
        bb: [
            [
                set_bb_val(b, sq, piece, 0, 0),
                set_bb_val(b, sq, piece, 0, 1),
                set_bb_val(b, sq, piece, 0, 2),
                set_bb_val(b, sq, piece, 0, 3),
                set_bb_val(b, sq, piece, 0, 4),
                set_bb_val(b, sq, piece, 0, 5),
            ],
            [
                set_bb_val(b, sq, piece, 1, 0),
                set_bb_val(b, sq, piece, 1, 1),
                set_bb_val(b, sq, piece, 1, 2),
                set_bb_val(b, sq, piece, 1, 3),
                set_bb_val(b, sq, piece, 1, 4),
                set_bb_val(b, sq, piece, 1, 5),
            ],
        ],
        ..b
    }
}

/// A board whose bitboards and fields are those that placing `piece` on
/// `sq` gives is that board.
pub proof fn lemma_set_piece_spec(b0: Board, b1: Board, sq: int, piece: Option<Piece>)
    requires
        forall|c: int, p: int| 0 <= c < 2 && 0 <= p < 6 ==> #[trigger] b1.bbv(c, p) == set_bb_val(b0, sq, piece, c, p),
        b1.side_to_move == b0.side_to_move,
        b1.castling_rights == b0.castling_rights,
        b1.en_passant == b0.en_passant,
        b1.halfmove_clock == b0.halfmove_clock,
        b1.fullmove_number == b0.fullmove_number,
    ensures
        b1 == set_piece_spec(b0, sq, piece),
{
    let sp = set_piece_spec(b0, sq, piece);
    assert(b1.bbv(0, 0) == sp.bb[0][0]);
    assert(b1.bbv(0, 1) == sp.bb[0][1]);
    assert(b1.bbv(0, 2) == sp.bb[0][2]);
    assert(b1.bbv(0, 3) == sp.bb[0][3]);
    assert(b1.bbv(0, 4) == sp.bb[0][4]);
    assert(b1.bbv(0, 5) == sp.bb[0][5]);
    assert(b1.bbv(1, 0) == sp.bb[1][0]);
    assert(b1.bbv(1, 1) == sp.bb[1][1]);
    assert(b1.bbv(1, 2) == sp.bb[1][2]);
    assert(b1.bbv(1, 3) == sp.bb[1][3]);
    assert(b1.bbv(1, 4) == sp.bb[1][4]);
    assert(b1.bbv(1, 5) == sp.bb[1][5]);
    assert(b1.bb[0] =~= sp.bb[0]);
    assert(b1.bb[1] =~= sp.bb[1]);
    assert(b1.bb =~= sp.bb);
}

/// The standard starting position: White on ranks 1 and 2, Black on ranks 7
/// and 8, White to move, all castling rights, move 1.
pub open spec fn starting_board() -> Board {
    Board {
        bb: [
            [
                0x000000000000FF00,
                0x0000000000000042,
                0x0000000000000024,
                0x0000000000000081,
                0x0000000000000008,
                0x0000000000000010,
            ],
            [
                0x00FF000000000000,
                0x4200000000000000,
                0x2400000000000000,
                0x8100000000000000,
                0x0800000000000000,
                0x1000000000000000,
            ],
        ],
        side_to_move: Color::White,
        castling_rights: CastlingRights {
            white_kingside: true,
            white_queenside: true,
            black_kingside: true,
            black_queenside: true,
        },
        en_passant: None,
        halfmove_clock: 0,
        fullmove_number: 1,
    }
}

/// Boards whose bitboards agree on square `t` agree on the piece there.
pub proof fn lemma_piece_at_from_same(b1: Board, b2: Board, t: int, k: int)
    requires
        0 <= k <= 12,
        forall|j: int| k <= j < 12 ==> (has_bit(b1.slot(j), t) <==> has_bit(b2.slot(j), t)),
    ensures
        b1.piece_at_from(t, k) == b2.piece_at_from(t, k),
    decreases 12 - k,
{
    if k < 12 {
        lemma_piece_at_from_same(b1, b2, t, k + 1);
    }
}

pub proof fn lemma_piece_at_from_none(b: Board, t: int, k: int)
    requires
        0 <= k <= 12,
        forall|j: int| k <= j < 12 ==> !has_bit(b.slot(j), t),
    ensures
        b.piece_at_from(t, k) == None::<Piece>,
    decreases 12 - k,
{
    if k < 12 {
        lemma_piece_at_from_none(b, t, k + 1);
    }
}

/// The piece found on `t` is that of the first bitboard holding `t`.
pub proof fn lemma_piece_at_from_first(b: Board, t: int, k: int, j: int)
    requires
        0 <= k <= j < 12,
        forall|i: int| k <= i < j ==> !has_bit(b.slot(i), t),
        has_bit(b.slot(j), t),
    ensures
        b.piece_at_from(t, k) == Some(piece_of_slot(j)),
    decreases j - k,
{
    if k < j {
        lemma_piece_at_from_first(b, t, k + 1, j);
    }
}

pub proof fn lemma_and_single_nonzero(x: u64, i: u64)
    requires
        i < 64,
    ensures
        (x & (1u64 << i) != 0u64) <==> has_bit(x, i as int),
{
    assert((x & (1u64 << i) != 0u64) <==> ((x >> i) & 1u64 == 1u64)) by (bit_vector)
        requires
            i < 64,
    ;
}

/// The lowest set bit of `bb` at index `i` or above, or 64 if there is none.
pub open spec fn first_set_from(bb: u64, i: int) -> int
    decreases 64 - i,
{
    if i >= 64 || i < 0 {
        64
    } else if has_bit(bb, i) {
        i
    } else {
        first_set_from(bb, i + 1)
    }
}

/// The lowest square whose bit is set in `bb`, if any.
pub open spec fn lowest_square(bb: u64) -> Option<Square> {
    let i = first_set_from(bb, 0);
    if i < 64 { Some(i as u8) } else { None }
}

pub proof fn lemma_first_set_from(bb: u64, i: int)
    requires
        0 <= i <= 64,
    ensures
        i <= first_set_from(bb, i) <= 64,
        first_set_from(bb, i) < 64 ==> has_bit(bb, first_set_from(bb, i)),
        forall|j: int| i <= j < first_set_from(bb, i) ==> !has_bit(bb, j),
    decreases 64 - i,
{
    if i < 64 && !has_bit(bb, i) {
        lemma_first_set_from(bb, i + 1);
    }
}

/// The lowest set square of `bb`.
pub fn first_square(bb: u64) -> (res: Option<Square>)
    ensures
        res == lowest_square(bb),
{
    let mut i: u8 = 0;
    while i < 64
        invariant
            i <= 64,
            first_set_from(bb, 0) == first_set_from(bb, i as int),
        decreases 64 - i,
    {
        if (bb >> (i as u64)) & 1 == 1 {
            return Some(i);
        }
        i = i + 1;
    }
    None
}

} // verus!
