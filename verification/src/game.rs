//! The game: the current board, the history of moves for undo and PGN
//! export, repetition counters and the opening book.
use vstd::prelude::*;
use crate::attacks::{in_check_spec, is_in_check};
use crate::board::{starting_board, Board};
use crate::fen::{board_to_fen, fen_board, fen_spec, fen_string_spec, parse_fen, quoted};
use crate::movegen::{all_ok, apply_move, apply_spec, generate_legal_moves, legal_moves_spec, move_ok};
use crate::opening::{BUILTIN_OPENINGS_JSON, json_string_object, OpeningBook};
use crate::pgn::{
    find_san_move, history_moves, history_ok, lemma_roomy_san_ready, move_to_san, moves_to_pgn, movetext,
    write_movetext,
    parse_pgn, parse_pgn_spec, pgn_moves_to_uci, pgn_text, replay_sans, result_token, roomy, san_lookup, san_ready,
    san_spec,
    string_views, tag_views, uci_shaped,
};
use crate::pgn_reading::{is_result, lemma_pgn_reads_back, plain_tag, san_tokens};
use crate::text::{chars_of, push_char, trim_annotation_marks, trim_annotations};
use crate::types::{
    file_of, rank_of, parse_square, DrawReason, GameStatus, Piece, Square, parse_square_chars, parse_square_spec, ChessError, Color, Move, MoveFlag, PieceType,
};

verus! {

/// Repetition counters: (position key, number of occurrences), keys distinct.
pub type Tally = Seq<(Seq<char>, nat)>;

/// Index of the entry for key `k`, if any.
pub open spec fn key_index(t: Tally, k: Seq<char>) -> Option<int>
    decreases t.len(),
{
    if t.len() == 0 {
        None
    } else if t[0].0 == k {
        Some(0)
    } else {
        match key_index(t.drop_first(), k) {
            Some(i) => Some(i + 1),
            None => None,
        }
    }
}

/// One more occurrence of `k`: its counter goes up, or a new entry is added
/// at the end.
pub open spec fn bump(t: Tally, k: Seq<char>) -> Tally {
    match key_index(t, k) {
        Some(i) => t.update(i, (k, t[i].1 + 1)),
        None => t.push((k, 1)),
    }
}

/// One occurrence of `k` fewer: its counter goes down, and the entry goes
/// when the counter reaches zero.
pub open spec fn unbump(t: Tally, k: Seq<char>) -> Tally {
    match key_index(t, k) {
        Some(i) => if t[i].1 <= 1 { t.remove(i) } else { t.update(i, (k, (t[i].1 - 1) as nat)) },
        None => t,
    }
}

/// The counters of a sequence of positions, in order of first occurrence.
pub open spec fn tally(keys: Seq<Seq<char>>) -> Tally
    decreases keys.len(),
{
    if keys.len() == 0 {
        Seq::empty()
    } else {
        bump(tally(keys.drop_last()), keys.last())
    }
}

pub proof fn lemma_tally_push(keys: Seq<Seq<char>>, k: Seq<char>)
    ensures
        tally(keys.push(k)) == bump(tally(keys), k),
{
    assert(keys.push(k).drop_last() =~= keys);
}

pub open spec fn distinct_keys(t: Tally) -> bool {
    forall|i: int, j: int| 0 <= i < j < t.len() ==> t[i].0 != t[j].0
}

pub proof fn lemma_key_index(t: Tally, k: Seq<char>)
    ensures
        key_index(t, k) matches Some(i) ==> 0 <= i < t.len() && t[i].0 == k
            && forall|j: int| 0 <= j < i ==> t[j].0 != k,
        key_index(t, k) is None ==> forall|j: int| 0 <= j < t.len() ==> t[j].0 != k,
    decreases t.len(),
{
    if t.len() > 0 && t[0].0 != k {
        lemma_key_index(t.drop_first(), k);
        assert forall|j: int| 1 <= j < t.len() implies t[j] == t.drop_first()[j - 1] by {}
    }
}

/// In a tally with distinct keys, an entry with key `k` is the one found.
pub proof fn lemma_key_index_unique(t: Tally, k: Seq<char>, i: int)
    requires
        distinct_keys(t),
        0 <= i < t.len(),
        t[i].0 == k,
    ensures
        key_index(t, k) == Some(i),
{
    lemma_key_index(t, k);
}

pub proof fn lemma_bump_distinct(t: Tally, k: Seq<char>)
    requires
        distinct_keys(t),
    ensures
        distinct_keys(bump(t, k)),
        bump(t, k).len() <= t.len() + 1,
{
    lemma_key_index(t, k);
}

/// A tally has distinct keys and every counter is at least one and at most
/// the number of positions counted.
pub proof fn lemma_tally(keys: Seq<Seq<char>>)
    ensures
        distinct_keys(tally(keys)),
        forall|i: int| 0 <= i < tally(keys).len() ==> 1 <= #[trigger] tally(keys)[i].1 <= keys.len(),
    decreases keys.len(),
{
    if keys.len() > 0 {
        lemma_tally(keys.drop_last());
        lemma_bump_distinct(tally(keys.drop_last()), keys.last());
        lemma_key_index(tally(keys.drop_last()), keys.last());
    }
}

/// Taking back an occurrence undoes adding it.
pub proof fn lemma_unbump_bump(t: Tally, k: Seq<char>)
    requires
        distinct_keys(t),
        forall|i: int| 0 <= i < t.len() ==> 1 <= #[trigger] t[i].1,
    ensures
        unbump(bump(t, k), k) == t,
{
    lemma_key_index(t, k);
    lemma_bump_distinct(t, k);
    let b = bump(t, k);
    match key_index(t, k) {
        Some(i) => {
            lemma_key_index_unique(b, k, i);
            assert(unbump(b, k) =~= t);
        },
        None => {
            lemma_key_index_unique(b, k, t.len() as int);
            assert(b.remove(t.len() as int) =~= t);
        },
    }
}

/// Colour to move after `n` plies from `side`.
pub open spec fn side_after(side: Color, n: int) -> Color {
    if n % 2 == 0 { side } else { side.spec_opposite() }
}

/// Every move of `mvs` fits the board for the side that plays it, sides
/// alternating from `side`.
pub open spec fn moves_fit(side: Color, mvs: Seq<Move>) -> bool {
    forall|i: int| 0 <= i < mvs.len() ==> move_ok(side_after(side, i), #[trigger] mvs[i])
}

/// The abstract state of a game.
pub struct GameModel {
    pub board: Board,
    pub start_fen: Seq<char>,
    pub history: Seq<(Board, Move, Seq<char>)>,
    pub counts: Tally,
    pub book: Seq<(Seq<char>, Seq<char>)>,
    pub opening_name: Option<Seq<char>>,
}

/// The `Game` struct is the primary entry point for LazyChess.
///
/// It owns the full game state: current board, history for undo / PGN export,
/// position-repetition counters, and an optional opening book.
pub struct Game {
    /// Current board state.
    board: Board,
    /// The FEN of the starting position (used as the PGN FEN tag when it is
    /// not the standard starting position).
    start_fen: String,
    /// Stack of `(board_before_move, move, san)` entries for undo and PGN export.
    history: Vec<(Board, Move, String)>,
    /// Position-repetition counters keyed on the canonical position key, in
    /// order of first occurrence.
    position_counts: Vec<(String, u32)>,
    /// Opening book.
    opening_book: OpeningBook,
    /// The name of the opening detected at game start (may be `None`).
    opening_name: Option<String>,
    /// The board the game started from.
    start: Ghost<Board>,
}

/// The entries of a history as text.
pub open spec fn history_view(h: Seq<(Board, Move, String)>) -> Seq<(Board, Move, Seq<char>)> {
    h.map_values(|e: (Board, Move, String)| (e.0, e.1, e.2@))
}

/// The counters as a tally.
pub open spec fn counts_view(c: Seq<(String, u32)>) -> Tally {
    c.map_values(|e: (String, u32)| (e.0@, e.1 as nat))
}

/// The moves of a history.
pub open spec fn moves_of(h: Seq<(Board, Move, Seq<char>)>) -> Seq<Move> {
    h.map_values(|e: (Board, Move, Seq<char>)| e.1)
}

/// The position keys of the boards met so far: those before each move, then
/// the current one.
pub open spec fn keys_of(h: Seq<(Board, Move, Seq<char>)>, board: Board) -> Seq<Seq<char>> {
    h.map_values(|e: (Board, Move, Seq<char>)| e.0.position_key_spec()).push(board.position_key_spec())
}

impl View for Game {
    type V = GameModel;

    closed spec fn view(&self) -> GameModel {
        GameModel {
            board: self.board,
            start_fen: self.start_fen@,
            history: history_view(self.history@),
            counts: counts_view(self.position_counts@),
            book: self.opening_book.entries_view(),
            opening_name: match self.opening_name {
                Some(s) => Some(s@),
                None => None,
            },
        }
    }
}

impl GameModel {
    /// The consistency of a game: the counters tally the positions met, the
    /// boards met keep the side to move and clocks in step with the moves
    /// played from the starting board, which the starting FEN describes.
    pub open spec fn wf(self, start: Board) -> bool {
        let n = self.history.len() as int;
        &&& start.wf()
        &&& self.start_fen == fen_string_spec(start)
        &&& self.counts == tally(keys_of(self.history, self.board))
        &&& moves_fit(start.side_to_move, moves_of(self.history))
        &&& self.board.wf()
        &&& self.board.side_to_move == side_after(start.side_to_move, n)
        &&& self.board.halfmove_clock <= start.halfmove_clock + n
        &&& self.board.fullmove_number <= start.fullmove_number + n
        &&& forall|i: int| 0 <= i < n ==> {
            let b = #[trigger] self.history[i].0;
            &&& b.wf()
            &&& b.side_to_move == side_after(start.side_to_move, i)
            &&& b.halfmove_clock <= start.halfmove_clock + i
            &&& b.fullmove_number <= start.fullmove_number + i
        }
    }

    /// Room for `extra` more plies without the clocks or counters overflowing.
    pub open spec fn room(self, start: Board, extra: int) -> bool {
        let n = self.history.len() as int;
        &&& start.halfmove_clock + n + extra + 2 < u32::MAX
        &&& start.fullmove_number + n + extra + 2 < u32::MAX
        &&& n + extra + 2 < u32::MAX
    }
}

impl Game {
    /// The board the game started from.
    pub closed spec fn start_board(&self) -> Board {
        self.start@
    }

    /// The game is consistent.
    pub closed spec fn inv(&self) -> bool {
        self@.wf(self.start@)
    }

    /// The game has room for `extra` more moves.
    pub open spec fn has_room(&self, extra: int) -> bool {
        self@.room(self.start_board(), extra)
    }
}

/// The UCI reading of `s`: source square, target square and promotion
/// piece, when its first four characters are ASCII and name two squares.
pub open spec fn uci_parts(s: Seq<char>) -> Option<(u8, u8, Option<PieceType>)> {
    if s.len() >= 4 && (s[0] as u32) < 128 && (s[1] as u32) < 128 && (s[2] as u32) < 128 && (s[3] as u32) < 128 {
        match (parse_square_spec(s.subrange(0, 2)), parse_square_spec(s.subrange(2, 4))) {
            (Some(f), Some(t)) => Some((f, t, if s.len() > 4 { PieceType::spec_from_char(s[4]) } else { None })),
            _ => None,
        }
    } else {
        None
    }
}

/// `m` is the move that a UCI string with these parts names.
pub open spec fn uci_names(m: Move, from: u8, to: u8, promo: Option<PieceType>) -> bool {
    &&& m.from == from
    &&& m.to == to
    &&& match (m.flag, promo) {
        (MoveFlag::Promotion(pt), Some(p)) => pt == p,
        (MoveFlag::Promotion(_), None) => false,
        _ => promo is None,
    }
}

/// `k` is the first index of a move of `l` that the parts name.
pub open spec fn is_first_uci_match(l: Seq<Move>, p: (u8, u8, Option<PieceType>), k: int) -> bool {
    &&& 0 <= k < l.len()
    &&& uci_names(l[k], p.0, p.1, p.2)
    &&& forall|j: int| 0 <= j < k ==> !#[trigger] uci_names(l[j], p.0, p.1, p.2)
}

/// The first move of `legal` that the UCI string `s` names, if any.
pub open spec fn uci_lookup(legal: Seq<Move>, s: Seq<char>) -> Option<Move> {
    match uci_parts(s) {
        None => None,
        Some(p) => if exists|k: int| is_first_uci_match(legal, p, k) {
            Some(legal[choose|k: int| is_first_uci_match(legal, p, k)])
        } else {
            None
        },
    }
}

/// Tries to match a UCI move string against the list of legal moves.
fn try_parse_uci(mv_str: &[char], legal: &Vec<Move>) -> (r: Option<Move>)
    ensures
        r == uci_lookup(legal@, mv_str@),
{
    if mv_str.len() < 4 {
        return None;
    }
    if !((mv_str[0] as u32) < 128 && (mv_str[1] as u32) < 128 && (mv_str[2] as u32) < 128 && (mv_str[3] as u32) < 128) {
        return None;
    }
    let from = match parse_square_chars(mv_str[0], mv_str[1]) {
        Some(f) => f,
        None => {
            assert(mv_str@.subrange(0, 2) =~= seq![mv_str@[0], mv_str@[1]]);
            return None;
        },
    };
    let to = match parse_square_chars(mv_str[2], mv_str[3]) {
        Some(t) => t,
        None => {
            assert(mv_str@.subrange(2, 4) =~= seq![mv_str@[2], mv_str@[3]]);
            return None;
        },
    };
    assert(mv_str@.subrange(0, 2) =~= seq![mv_str@[0], mv_str@[1]]);
    assert(mv_str@.subrange(2, 4) =~= seq![mv_str@[2], mv_str@[3]]);
    let promo = if mv_str.len() > 4 { PieceType::from_char(mv_str[4]) } else { None };
    let ghost p = (from, to, promo);
    assert(uci_parts(mv_str@) == Some(p));
    let mut i: usize = 0;
    while i < legal.len()
        invariant
            i <= legal@.len(),
            p == (from, to, promo),
            uci_parts(mv_str@) == Some(p),
            forall|j: int| 0 <= j < i ==> !#[trigger] uci_names(legal@[j], p.0, p.1, p.2),
        decreases legal@.len() - i,
    {
        let m = legal[i];
        let ok = m.from == from && m.to == to && match (m.flag, promo) {
            (MoveFlag::Promotion(pt), Some(q)) => pt == q,
            (MoveFlag::Promotion(_), None) => false,
            _ => promo.is_none(),
        };
        assert(ok == uci_names(legal@[i as int], p.0, p.1, p.2));
        if ok {
            proof {
                assert(is_first_uci_match(legal@, p, i as int));
                let k = choose|k: int| is_first_uci_match(legal@, p, k);
                if k < i {
                    assert(!uci_names(legal@[k], p.0, p.1, p.2));
                } else if k > i {
                    assert(!uci_names(legal@[i as int], p.0, p.1, p.2));
                }
                assert(k == i);
                assert(legal@[k] == m);
                let pp = uci_parts(mv_str@)->Some_0;
                assert(pp == p);
                assert(exists|k: int| is_first_uci_match(legal@, pp, k));
                assert(uci_lookup(legal@, mv_str@) == Some(legal@[k]));
            }
            return Some(m);
        }
        i = i + 1;
    }
    proof {
        if exists|k: int| is_first_uci_match(legal@, p, k) {
            let k = choose|k: int| is_first_uci_match(legal@, p, k);
            assert(!uci_names(legal@[k], p.0, p.1, p.2));
        }
    }
    None
}

/// The move that `s` names on `b`: a UCI string first, else a SAN token
/// (compared without annotation marks on either side); or the error message.
pub open spec fn parse_move_spec(b: Board, s: Seq<char>) -> Result<Move, Seq<char>> {
    match uci_lookup(legal_moves_spec(b), s) {
        Some(m) => Ok(m),
        None => match san_lookup(b, trim_annotations(s)) {
            Some(m) => Ok(m),
            None => Err("Illegal or unrecognised move: "@ + quoted(s)),
        },
    }
}

/// The game after the move `s` is played, with the outcome.
pub open spec fn do_move_spec(g: GameModel, s: Seq<char>) -> (GameModel, Result<(), Seq<char>>) {
    match parse_move_spec(g.board, s) {
        Err(e) => (g, Err(e)),
        Ok(m) => {
            let nb = apply_spec(g.board, m);
            (
                GameModel {
                    board: nb,
                    history: g.history.push((g.board, m, san_spec(g.board, m))),
                    counts: bump(g.counts, nb.position_key_spec()),
                    ..g
                },
                Ok(()),
            )
        },
    }
}

impl Game {
    /// Parses a move string (UCI or SAN) into a [`Move`] and validates it
    /// against the current legal move list.
    fn parse_move(&self, mv_str: &str) -> (r: Result<Move, ChessError>)
        requires
            self.inv(),
            self.has_room(1),
        ensures
            match parse_move_spec(self@.board, mv_str@) {
                Ok(m) => r == Ok::<Move, ChessError>(m),
                Err(msg) => r matches Err(e) && e.message@ == msg,
            },
            r matches Ok(m) ==> legal_moves_spec(self@.board).contains(m) && move_ok(self@.board.side_to_move, m),
    {
        proof {
            self.lemma_roomy();
        }
        let legal = generate_legal_moves(&self.board);
        let cs = chars_of(mv_str);
        match try_parse_uci(cs.as_slice(), &legal) {
            Some(m) => {
                proof {
                    let p = uci_parts(mv_str@)->Some_0;
                    let k = choose|k: int| is_first_uci_match(legal@, p, k);
                    assert(legal@[k] == m);
                    assert(move_ok(self.board.side_to_move, legal@[k]));
                }
                return Ok(m);
            },
            None => {},
        }
        let token = trim_annotation_marks(cs.as_slice());
        match find_san_move(&self.board, &legal, token.as_slice()) {
            Some(m) => {
                proof {
                    let l = legal_moves_spec(self.board);
                    let k = choose|k: int| crate::pgn::is_first_san_match(self.board, l, token@, k);
                    assert(l[k] == m);
                    assert(move_ok(self.board.side_to_move, l[k]));
                }
                Ok(m)
            },
            None => {
                let mut msg = String::from_str("Illegal or unrecognised move: ");
                push_char(&mut msg, '\'');
                msg.append(mv_str);
                push_char(&mut msg, '\'');
                assert(msg@ =~= "Illegal or unrecognised move: "@ + quoted(mv_str@));
                Err(ChessError::new(msg))
            },
        }
    }

    proof fn lemma_roomy(&self)
        requires
            self.inv(),
            self.has_room(0),
        ensures
            roomy(self@.board),
            crate::movegen::playable(self@.board),
    {
    }
}

/// The book that a JSON text gives: its pairs, or none if it cannot be read.
pub open spec fn book_of(json: Seq<char>) -> Seq<(Seq<char>, Seq<char>)> {
    match json_string_object(json) {
        Some(p) => p,
        None => Seq::empty(),
    }
}

/// The game that starts from `b`, with the built-in book.
pub open spec fn fresh_game(b: Board) -> GameModel {
    let book = book_of(BUILTIN_OPENINGS_JSON@);
    GameModel {
        board: b,
        start_fen: fen_string_spec(b),
        history: Seq::empty(),
        counts: seq![(b.position_key_spec(), 1nat)],
        book: book,
        opening_name: OpeningBook::lookup_spec(book, b.placement_spec()),
    }
}

/// The game after the last move is taken back.
pub open spec fn undo_spec(g: GameModel) -> GameModel {
    GameModel {
        board: g.history.last().0,
        history: g.history.drop_last(),
        counts: unbump(g.counts, g.board.position_key_spec()),
        ..g
    }
}

/// Index of the counter of `key`, if any.
fn find_key(counts: &Vec<(String, u32)>, key: &String) -> (r: Option<usize>)
    ensures
        match r {
            Some(i) => key_index(counts_view(counts@), key@) == Some(i as int) && i < counts@.len(),
            None => key_index(counts_view(counts@), key@) is None,
        },
{
    let ghost t = counts_view(counts@);
    let mut i: usize = 0;
    while i < counts.len()
        invariant
            i <= counts@.len(),
            t == counts_view(counts@),
            forall|j: int| 0 <= j < i ==> #[trigger] t[j].0 != key@,
        decreases counts@.len() - i,
    {
        if counts[i].0 == *key {
            proof {
                lemma_key_index(t, key@);
                assert(t[i as int].0 == key@);
                match key_index(t, key@) {
                    Some(k) => {
                        if k < i {
                            assert(t[k].0 != key@);
                        }
                    },
                    None => {},
                }
            }
            return Some(i);
        }
        i = i + 1;
    }
    proof {
        lemma_key_index(t, key@);
        match key_index(t, key@) {
            Some(k) => {
                assert(t[k].0 != key@);
            },
            None => {},
        }
    }
    None
}

proof fn lemma_keys_push(h: Seq<(Board, Move, Seq<char>)>, b: Board, m: Move, san: Seq<char>, nb: Board)
    ensures
        keys_of(h.push((b, m, san)), nb) == keys_of(h, b).push(nb.position_key_spec()),
        moves_of(h.push((b, m, san))) == moves_of(h).push(m),
{
    assert(keys_of(h.push((b, m, san)), nb) =~= keys_of(h, b).push(nb.position_key_spec()));
    assert(moves_of(h.push((b, m, san))) =~= moves_of(h).push(m));
}

impl Game {
    fn from_board(board: Board) -> (g: Self)
        requires
            board.wf(),
        ensures
            g@ == fresh_game(board),
            g.start_board() == board,
            g.inv(),
    {
        let start_fen = board_to_fen(&board);
        let mut position_counts: Vec<(String, u32)> = Vec::new();
        position_counts.push((board.position_key(), 1));
        let opening_book = match OpeningBook::from_json(BUILTIN_OPENINGS_JSON) {
            Ok(b) => b,
            Err(_) => OpeningBook::empty(),
        };
        let placement = board.fen_piece_placement();
        let opening_name = match opening_book.lookup(placement.as_str()) {
            Some(name) => Some(String::from_str(name)),
            None => None,
        };
        let g = Self {
            board,
            start_fen,
            history: Vec::new(),
            position_counts,
            opening_book,
            opening_name,
            start: Ghost(board),
        };
        proof {
            assert(history_view(g.history@) =~= Seq::<(Board, Move, Seq<char>)>::empty());
            assert(counts_view(g.position_counts@) =~= seq![(board.position_key_spec(), 1nat)]);
            let ks = keys_of(history_view(g.history@), board);
            assert(ks =~= seq![board.position_key_spec()]);
            assert(ks.drop_last() =~= Seq::<Seq<char>>::empty());
            assert(tally(Seq::<Seq<char>>::empty()) =~= Seq::<(Seq<char>, nat)>::empty());
            assert(key_index(Seq::<(Seq<char>, nat)>::empty(), board.position_key_spec()) is None);
            assert(tally(ks) =~= seq![(board.position_key_spec(), 1nat)]);
            assert(moves_of(history_view(g.history@)) =~= Seq::<Move>::empty());
        }
        g
    }

    /// Starts a new game from the standard starting position.
    pub fn new() -> (g: Self)
        ensures
            g@ == fresh_game(starting_board()),
            g.start_board() == starting_board(),
            g.inv(),
    {
        let board = Board::starting_position();
        Self::from_board(board)
    }

    /// Starts a new game from a FEN string.
    pub fn from_fen(fen: &str) -> (r: Result<Self, ChessError>)
        ensures
            match fen_spec(fen@) {
                Ok(_) => r matches Ok(g) && g@ == fresh_game(fen_board(fen@)) && g.inv()
                    && g.start_board() == fen_board(fen@),
                Err(msg) => r matches Err(e) && e.message@ == msg,
            },
    {
        let board = match parse_fen(fen) {
            Ok(b) => b,
            Err(e) => return Err(e),
        };
        Ok(Self::from_board(board))
    }

    /// Replaces the built-in opening book with one loaded from a JSON string.
    ///
    /// The JSON is an object mapping piece placements to opening names.
    pub fn load_opening_book(&mut self, json: &str) -> (r: Result<(), ChessError>)
        requires
            old(self).inv(),
        ensures
            final(self).inv(),
            final(self).start_board() == old(self).start_board(),
            match json_string_object(json@) {
                Some(pairs) => r is Ok && final(self)@ == (GameModel {
                    book: pairs,
                    opening_name: OpeningBook::lookup_spec(pairs, old(self)@.board.placement_spec()),
                    ..old(self)@
                }),
                None => r matches Err(e) && final(self)@ == old(self)@
                    && e.message@.len() >= 29
                    && e.message@.subrange(0, 29) == "Failed to load opening book: "@,
            },
    {
        let book = match OpeningBook::from_json(json) {
            Ok(b) => b,
            Err(e) => {
                let mut msg = String::from_str("Failed to load opening book: ");
                let text = crate::opening::json_error_text(&e);
                let ghost head = msg@;
                msg.append(text.as_str());
                proof {
                    reveal_strlit("Failed to load opening book: ");
                    assert(msg@.subrange(0, 29) =~= head);
                }
                return Err(ChessError::new(msg));
            },
        };
        self.opening_book = book;
        let placement = self.board.fen_piece_placement();
        self.opening_name = match self.opening_book.lookup(placement.as_str()) {
            Some(name) => Some(String::from_str(name)),
            None => None,
        };
        Ok(())
    }

    /// Returns the detected opening name for the current position, if known:
    /// the book's name for the current placement, else the one detected at
    /// the start.
    pub fn opening_name(&self) -> (r: Option<&str>)
        ensures
            match OpeningBook::lookup_spec(self@.book, self@.board.placement_spec()) {
                Some(name) => r matches Some(s) && s@ == name,
                None => match self@.opening_name {
                    Some(name) => r matches Some(s) && s@ == name,
                    None => r is None,
                },
            },
    {
        let placement = self.board.fen_piece_placement();
        match self.opening_book.lookup(placement.as_str()) {
            Some(name) => Some(name),
            None => match &self.opening_name {
                Some(n) => Some(n.as_str()),
                None => None,
            },
        }
    }

    /// Applies a move supplied in UCI (`"e2e4"`) or SAN (`"Nf3"`) notation.
    ///
    /// Returns `Ok(())` if the move was legal and was executed, or a
    /// [`ChessError`] if the move is illegal or the string cannot be parsed.
    pub fn do_move(&mut self, mv_str: &str) -> (r: Result<(), ChessError>)
        requires
            old(self).inv(),
            old(self).has_room(1),
        ensures
            final(self).inv(),
            final(self).start_board() == old(self).start_board(),
            final(self)@ == do_move_spec(old(self)@, mv_str@).0,
            match do_move_spec(old(self)@, mv_str@).1 {
                Ok(_) => r is Ok,
                Err(msg) => r matches Err(e) && e.message@ == msg,
            },
    {
        let mv = match self.parse_move(mv_str) {
            Ok(m) => m,
            Err(e) => return Err(e),
        };
        proof {
            self.lemma_roomy();
            lemma_roomy_san_ready(self.board, mv);
        }
        let ghost g0 = self@;
        let san = move_to_san(&self.board, &mv);
        let prev = self.board;
        let ghost sv = san@;
        self.history.push((prev, mv, san));
        self.board = apply_move(&prev, &mv);
        let key = self.board.position_key();
        proof {
            lemma_tally(keys_of(g0.history, prev));
            assert(history_view(self.history@) =~= g0.history.push((prev, mv, sv)));
            lemma_keys_push(g0.history, prev, mv, sv, self.board);
            lemma_tally_push(keys_of(g0.history, prev), self.board.position_key_spec());
            lemma_key_index(counts_view(self.position_counts@), key@);
        }
        match find_key(&self.position_counts, &key) {
            Some(i) => {
                let c = self.position_counts[i].1;
                let k = self.position_counts[i].0.clone();
                assert(c as int <= g0.history.len() + 1) by {
                    assert(counts_view(self.position_counts@)[i as int].1 == c as nat);
                }
                self.position_counts[i] = (k, c + 1);
                proof {
                    assert(counts_view(self.position_counts@) =~= bump(g0.counts, key@));
                }
            },
            None => {
                self.position_counts.push((key, 1));
                proof {
                    assert(counts_view(self.position_counts@) =~= bump(g0.counts, self.board.position_key_spec()));
                }
            },
        }
        proof {
            let n = g0.history.len() as int;
            let h = history_view(self.history@);
            assert forall|i: int| 0 <= i < n + 1 implies {
                let b = #[trigger] h[i].0;
                &&& b.wf()
                &&& b.side_to_move == side_after(self.start@.side_to_move, i)
                &&& b.halfmove_clock <= self.start@.halfmove_clock + i
                &&& b.fullmove_number <= self.start@.fullmove_number + i
            } by {
                if i < n {
                    assert(h[i] == g0.history[i]);
                }
            }
            let ms = moves_of(h);
            assert forall|i: int| 0 <= i < ms.len() implies move_ok(side_after(self.start@.side_to_move, i), #[trigger] ms[i]) by {
                if i < n {
                    assert(ms[i] == moves_of(g0.history)[i]);
                }
            }
            let st = self.start@;
            assert(st.wf());
            assert(self@.start_fen == fen_string_spec(st));
            assert(self@.counts == tally(keys_of(self@.history, self@.board)));
            assert(moves_fit(st.side_to_move, moves_of(self@.history)));
            assert(self@.board.wf());
            assert(self@.board.side_to_move == side_after(st.side_to_move, n + 1));
            assert(self@.board.halfmove_clock <= st.halfmove_clock + n + 1);
            assert(self@.board.fullmove_number <= st.fullmove_number + n + 1);
        }
        Ok(())
    }

    /// Undoes the last move and restores the board to the previous state.
    ///
    /// Returns `Ok(())` on success, or a [`ChessError`] if there are no moves
    /// to undo.
    pub fn undo_move(&mut self) -> (r: Result<(), ChessError>)
        requires
            old(self).inv(),
        ensures
            final(self).inv(),
            final(self).start_board() == old(self).start_board(),
            old(self)@.history.len() == 0 ==> (r matches Err(e) && e.message@ == "No moves to undo"@
                && final(self)@ == old(self)@),
            old(self)@.history.len() > 0 ==> r is Ok && final(self)@ == undo_spec(old(self)@),
    {
        let ghost g0 = self@;
        let entry = match self.history.pop() {
            Some(e) => e,
            None => {
                proof {
                    assert(history_view(self.history@) =~= g0.history);
                }
                return Err(ChessError::new(String::from_str("No moves to undo")));
            },
        };
        let key = self.board.position_key();
        proof {
            lemma_key_index(counts_view(self.position_counts@), key@);
        }
        match find_key(&self.position_counts, &key) {
            Some(i) => {
                let c = self.position_counts[i].1;
                let c2 = if c > 0 { c - 1 } else { 0 };
                if c2 == 0 {
                    self.position_counts.remove(i);
                    proof {
                        assert(counts_view(self.position_counts@) =~= unbump(g0.counts, key@));
                    }
                } else {
                    let k = self.position_counts[i].0.clone();
                    self.position_counts[i] = (k, c2);
                    proof {
                        assert(counts_view(self.position_counts@) =~= unbump(g0.counts, key@));
                    }
                }
            },
            None => {},
        }
        self.board = entry.0;
        proof {
            let n = g0.history.len() as int;
            let h0 = g0.history.drop_last();
            assert(history_view(self.history@) =~= h0);
            assert(g0.history =~= h0.push(g0.history.last()));
            lemma_keys_push(h0, g0.history.last().0, g0.history.last().1, g0.history.last().2, g0.board);
            lemma_tally(keys_of(h0, g0.history.last().0));
            lemma_tally_push(keys_of(h0, g0.history.last().0), g0.board.position_key_spec());
            lemma_unbump_bump(tally(keys_of(h0, g0.history.last().0)), g0.board.position_key_spec());
            assert(g0.history[n - 1] == g0.history.last());
            assert(moves_of(h0) =~= moves_of(g0.history).drop_last());
            assert forall|i: int| 0 <= i < n - 1 implies #[trigger] h0[i] == g0.history[i] by {}
        }
        Ok(())
    }

    /// Returns `true` if the move string is legal in the current position.
    ///
    /// Does **not** modify the game state.
    pub fn is_move_legal(&self, mv_str: &str) -> (b: bool)
        requires
            self.inv(),
            self.has_room(1),
        ensures
            b == parse_move_spec(self@.board, mv_str@) is Ok,
    {
        match self.parse_move(mv_str) {
            Ok(_) => true,
            Err(_) => false,
        }
    }

    /// Returns all legal moves for the current position in UCI notation.
    pub fn get_legal_moves(&self) -> (r: Vec<String>)
        requires
            crate::movegen::playable(self@.board),
        ensures
            r.deep_view() == legal_moves_spec(self@.board).map_values(|m: Move| m.uci_spec()),
    {
        let legal = generate_legal_moves(&self.board);
        let ghost l = legal@;
        let mut out: Vec<String> = Vec::new();
        let mut i: usize = 0;
        while i < legal.len()
            invariant
                i <= l.len(),
                l == legal@,
                out.deep_view() == l.subrange(0, i as int).map_values(|m: Move| m.uci_spec()),
            decreases l.len() - i,
        {
            let ghost before = out.deep_view();
            let u = legal[i].to_uci();
            let ghost uv = u@;
            out.push(u);
            assert(out.deep_view() =~= before.push(uv));
            assert(l.subrange(0, i + 1).map_values(|m: Move| m.uci_spec())
                =~= l.subrange(0, i as int).map_values(|m: Move| m.uci_spec()).push(uv));
            i = i + 1;
        }
        assert(l.subrange(0, l.len() as int) =~= l);
        out
    }

    /// Returns all legal moves for the current position as `Move` objects.
    pub fn moves(&self) -> (r: Vec<Move>)
        requires
            crate::movegen::playable(self@.board),
        ensures
            r@ == legal_moves_spec(self@.board),
    {
        generate_legal_moves(&self.board)
    }

    /// Returns the side whose turn it is to move.
    pub fn side_to_move(&self) -> (c: Color)
        ensures
            c == self@.board.side_to_move,
    {
        self.board.side_to_move
    }

    /// Returns the current board state as a FEN string.
    pub fn get_fen(&self) -> (s: String)
        ensures
            s@ == fen_string_spec(self@.board),
    {
        board_to_fen(&self.board)
    }

    /// Returns all past moves as a slice of `(board_before, move, san)`.
    pub fn history(&self) -> (h: &[(Board, Move, String)])
        ensures
            history_view(h@) == self@.history,
    {
        self.history.as_slice()
    }

    /// Returns a reference to the current board.
    pub fn current_board(&self) -> (b: &Board)
        ensures
            *b == self@.board,
    {
        &self.board
    }

    pub fn is_check(&self) -> (b: bool)
        ensures
            b == in_check_spec(self@.board, self@.board.side_to_move),
    {
        is_in_check(&self.board, self.board.side_to_move)
    }
}

/// Queens, rooks and pawns: material that can always force mate.
pub open spec fn is_heavy(pt: PieceType) -> bool {
    pt == PieceType::Queen || pt == PieceType::Rook || pt == PieceType::Pawn
}

pub open spec fn is_minor(pt: PieceType) -> bool {
    pt == PieceType::Knight || pt == PieceType::Bishop
}

/// Square `t` holds a queen, rook or pawn.
pub open spec fn heavy_at(b: Board, t: int) -> bool {
    b.spec_piece_at(t) matches Some(p) && is_heavy(p.piece_type)
}

/// Some square below `n` holds a queen, rook or pawn.
pub open spec fn heavy_below(b: Board, n: int) -> bool {
    exists|t: int| 0 <= t < n && #[trigger] heavy_at(b, t)
}

/// The last bishop below `n`, if any, is a square below `n`.
pub open spec fn last_bishop_in_range(b: Board, c: Color, n: int) -> bool {
    match last_bishop_below(b, c, n) {
        Some(t) => 0 <= t < n,
        None => true,
    }
}

/// Number of knights and bishops of `color` on the squares below `n`.
pub open spec fn minors_below(b: Board, color: Color, n: int) -> nat
    decreases n,
{
    if n <= 0 {
        0
    } else {
        minors_below(b, color, n - 1) + if (b.spec_piece_at(n - 1) matches Some(p) && p.color == color
            && is_minor(p.piece_type)) {
            1nat
        } else {
            0nat
        }
    }
}

/// The highest square below `n` holding a bishop of `color`.
pub open spec fn last_bishop_below(b: Board, color: Color, n: int) -> Option<int>
    decreases n,
{
    if n <= 0 {
        None
    } else if b.spec_piece_at(n - 1) == Some(Piece { piece_type: PieceType::Bishop, color }) {
        Some(n - 1)
    } else {
        last_bishop_below(b, color, n - 1)
    }
}

/// Colour of a square: the parity of rank plus file.
pub open spec fn square_parity(sq: int) -> int {
    (sq / 8 + sq % 8) % 2
}

/// Insufficient mating material: no queen, rook or pawn, and at most one
/// knight or bishop in all, or one bishop each on squares of one colour.
pub open spec fn insufficient_spec(b: Board) -> bool {
    let wm = minors_below(b, Color::White, 64);
    let bm = minors_below(b, Color::Black, 64);
    &&& !heavy_below(b, 64)
    &&& {
        ||| wm == 0 && bm == 0
        ||| wm == 1 && bm == 0
        ||| wm == 0 && bm == 1
        ||| wm == 1 && bm == 1 && match (last_bishop_below(b, Color::White, 64), last_bishop_below(b, Color::Black, 64)) {
            (Some(w), Some(k)) => square_parity(w) == square_parity(k),
            _ => false,
        }
    }
}

/// Some position has occurred three times or more.
pub open spec fn repetition_spec(t: Tally) -> bool {
    exists|i: int| 0 <= i < t.len() && #[trigger] t[i].1 >= 3
}

/// The status of a game.
pub open spec fn status_spec(g: GameModel) -> GameStatus {
    let b = g.board;
    if legal_moves_spec(b).len() == 0 {
        if in_check_spec(b, b.side_to_move) { GameStatus::Checkmate } else { GameStatus::Stalemate }
    } else if b.halfmove_clock >= 100 {
        GameStatus::Draw(DrawReason::FiftyMoveRule)
    } else if repetition_spec(g.counts) {
        GameStatus::Draw(DrawReason::ThreefoldRepetition)
    } else if insufficient_spec(b) {
        GameStatus::Draw(DrawReason::InsufficientMaterial)
    } else if in_check_spec(b, b.side_to_move) {
        GameStatus::Check
    } else {
        GameStatus::Ongoing
    }
}

/// The status as text.
pub open spec fn status_text(st: GameStatus) -> Seq<char> {
    match st {
        GameStatus::Ongoing => "ongoing"@,
        GameStatus::Check => "check"@,
        GameStatus::Checkmate => "checkmate"@,
        GameStatus::Stalemate => "stalemate"@,
        GameStatus::Draw(DrawReason::FiftyMoveRule) => "draw (50-move rule)"@,
        GameStatus::Draw(DrawReason::ThreefoldRepetition) => "draw (threefold repetition)"@,
        GameStatus::Draw(DrawReason::InsufficientMaterial) => "draw (insufficient material)"@,
    }
}

/// Detects insufficient mating material per FIDE rules:
/// - K vs K
/// - K+B vs K
/// - K+N vs K
/// - K+B vs K+B (same colour bishops)
fn is_draw_by_insufficient_material(board: &Board) -> (r: bool)
    ensures
        r == insufficient_spec(*board),
{
    let mut wm: usize = 0;
    let mut bm: usize = 0;
    let mut heavy = false;
    let mut white_bishop_sq: Option<Square> = None;
    let mut black_bishop_sq: Option<Square> = None;
    let mut sq: u8 = 0;
    while sq < 64
        invariant
            sq <= 64,
            wm == minors_below(*board, Color::White, sq as int),
            bm == minors_below(*board, Color::Black, sq as int),
            wm <= sq && bm <= sq,
            heavy == heavy_below(*board, sq as int),
            white_bishop_sq == match last_bishop_below(*board, Color::White, sq as int) {
                Some(t) => Some(t as u8),
                None => None::<u8>,
            },
            black_bishop_sq == match last_bishop_below(*board, Color::Black, sq as int) {
                Some(t) => Some(t as u8),
                None => None::<u8>,
            },
            forall|c: Color| #[trigger] last_bishop_in_range(*board, c, sq as int),
        decreases 64 - sq,
    {
        let ghost n = sq as int;
        match board.piece_at(sq) {
            Some(p) => {
                if p.piece_type == PieceType::Queen || p.piece_type == PieceType::Rook || p.piece_type == PieceType::Pawn {
                    heavy = true;
                }
                let minor = p.piece_type == PieceType::Knight || p.piece_type == PieceType::Bishop;
                match p.color {
                    Color::White => {
                        if minor {
                            wm = wm + 1;
                        }
                        if p.piece_type == PieceType::Bishop {
                            white_bishop_sq = Some(sq);
                        }
                    },
                    Color::Black => {
                        if minor {
                            bm = bm + 1;
                        }
                        if p.piece_type == PieceType::Bishop {
                            black_bishop_sq = Some(sq);
                        }
                    },
                }
            },
            None => {},
        }
        proof {
            if heavy_below(*board, n + 1) && !heavy_below(*board, n) {
                let t = choose|t: int| 0 <= t < n + 1 && #[trigger] heavy_at(*board, t);
                assert(t == n);
            }
            if heavy_below(*board, n) {
                let t = choose|t: int| 0 <= t < n && #[trigger] heavy_at(*board, t);
                assert(heavy_below(*board, n + 1));
            }
            if heavy_at(*board, n) {
                assert(heavy_below(*board, n + 1));
            }
            assert forall|c: Color| #[trigger] last_bishop_in_range(*board, c, n + 1) by {
                assert(last_bishop_in_range(*board, c, n));
            }
        }
        sq = sq + 1;
    }
    proof {
        assert(last_bishop_in_range(*board, Color::White, 64));
        assert(last_bishop_in_range(*board, Color::Black, 64));
    }
    if heavy {
        return false;
    }
    if wm == 0 && bm == 0 {
        return true;
    }
    if (wm == 1 && bm == 0) || (wm == 0 && bm == 1) {
        return true;
    }
    if wm == 1 && bm == 1 {
        match (white_bishop_sq, black_bishop_sq) {
            (Some(wsq), Some(bsq)) => {
                let w_parity = (rank_of(wsq) + file_of(wsq)) % 2;
                let b_parity = (rank_of(bsq) + file_of(bsq)) % 2;
                assert(w_parity == square_parity(last_bishop_below(*board, Color::White, 64)->Some_0));
                assert(b_parity == square_parity(last_bishop_below(*board, Color::Black, 64)->Some_0));
                if w_parity == b_parity {
                    return true;
                }
            },
            _ => {},
        }
    }
    false
}

impl Game {
    /// Returns the current [`GameStatus`].
    pub fn get_game_status(&self) -> (st: GameStatus)
        requires
            crate::movegen::playable(self@.board),
        ensures
            st == status_spec(self@),
    {
        let legal_moves = generate_legal_moves(&self.board);
        if legal_moves.len() == 0 {
            if is_in_check(&self.board, self.board.side_to_move) {
                return GameStatus::Checkmate;
            } else {
                return GameStatus::Stalemate;
            }
        }
        if self.board.halfmove_clock >= 100 {
            return GameStatus::Draw(DrawReason::FiftyMoveRule);
        }
        if self.is_draw_by_repetition() {
            return GameStatus::Draw(DrawReason::ThreefoldRepetition);
        }
        if is_draw_by_insufficient_material(&self.board) {
            return GameStatus::Draw(DrawReason::InsufficientMaterial);
        }
        if is_in_check(&self.board, self.board.side_to_move) {
            return GameStatus::Check;
        }
        GameStatus::Ongoing
    }

    fn is_draw_by_repetition(&self) -> (r: bool)
        ensures
            r == repetition_spec(self@.counts),
    {
        let ghost t = counts_view(self.position_counts@);
        let mut i: usize = 0;
        while i < self.position_counts.len()
            invariant
                i <= self.position_counts@.len(),
                t == counts_view(self.position_counts@),
                forall|j: int| 0 <= j < i ==> #[trigger] t[j].1 < 3,
            decreases self.position_counts@.len() - i,
        {
            if self.position_counts[i].1 >= 3 {
                assert(t[i as int].1 >= 3);
                return true;
            }
            i = i + 1;
        }
        false
    }

    /// Returns a human-readable status string.
    pub fn get_game_status_str(&self) -> (s: String)
        requires
            crate::movegen::playable(self@.board),
        ensures
            s@ == status_text(status_spec(self@)),
    {
        match self.get_game_status() {
            GameStatus::Ongoing => String::from_str("ongoing"),
            GameStatus::Check => String::from_str("check"),
            GameStatus::Checkmate => String::from_str("checkmate"),
            GameStatus::Stalemate => String::from_str("stalemate"),
            GameStatus::Draw(DrawReason::FiftyMoveRule) => String::from_str("draw (50-move rule)"),
            GameStatus::Draw(DrawReason::ThreefoldRepetition) => String::from_str("draw (threefold repetition)"),
            GameStatus::Draw(DrawReason::InsufficientMaterial) => String::from_str("draw (insufficient material)"),
        }
    }

    pub fn is_checkmate(&self) -> (b: bool)
        requires
            crate::movegen::playable(self@.board),
        ensures
            b == (status_spec(self@) == GameStatus::Checkmate),
    {
        match self.get_game_status() {
            GameStatus::Checkmate => true,
            _ => false,
        }
    }

    pub fn is_stalemate(&self) -> (b: bool)
        requires
            crate::movegen::playable(self@.board),
        ensures
            b == (status_spec(self@) == GameStatus::Stalemate),
    {
        match self.get_game_status() {
            GameStatus::Stalemate => true,
            _ => false,
        }
    }

    pub fn is_draw(&self) -> (b: bool)
        requires
            crate::movegen::playable(self@.board),
        ensures
            b == (status_spec(self@) is Draw),
    {
        match self.get_game_status() {
            GameStatus::Draw(_) => true,
            _ => false,
        }
    }

    /// Returns an 8×8 array of `Option<Piece>` representing the current board.
    /// Index `[rank][file]`, rank 0 = rank 1 (White's back rank).
    pub fn board(&self) -> (arr: [[Option<Piece>; 8]; 8])
        ensures
            forall|r: int, f: int| 0 <= r < 8 && 0 <= f < 8 ==> #[trigger] arr@[r]@[f] == self@.board.spec_piece_at(r * 8 + f),
    {
        let sq = self.board.squares();
        let arr = [
            board_row(&sq, 0),
            board_row(&sq, 1),
            board_row(&sq, 2),
            board_row(&sq, 3),
            board_row(&sq, 4),
            board_row(&sq, 5),
            board_row(&sq, 6),
            board_row(&sq, 7),
        ];
        assert forall|r: int, f: int| 0 <= r < 8 && 0 <= f < 8 implies #[trigger] arr@[r]@[f] == self@.board.spec_piece_at(r * 8 + f) by {
            assert(arr@[r] == board_row_spec(sq@, r));
        }
        arr
    }

    /// Returns the colour of the square (`"light"` or `"dark"`).
    pub fn square_color(sq: &str) -> (r: Result<&'static str, ChessError>)
        ensures
            match parse_square_spec(sq@) {
                Some(s) => r matches Ok(c) && c@ == (if square_parity(s as int) == 0 { "dark"@ } else { "light"@ }),
                None => r matches Err(e) && e.message@ == "Invalid square: "@ + quoted(sq@),
            },
    {
        let s = match parse_square(sq) {
            Some(s) => s,
            None => {
                let mut msg = String::from_str("Invalid square: ");
                push_char(&mut msg, '\'');
                msg.append(sq);
                push_char(&mut msg, '\'');
                assert(msg@ =~= "Invalid square: "@ + quoted(sq@));
                return Err(ChessError::new(msg));
            },
        };
        if (rank_of(s) + file_of(s)) % 2 == 0 {
            Ok("dark")
        } else {
            Ok("light")
        }
    }
}

/// Row `r` of a flat square array.
pub open spec fn board_row_spec(sq: Seq<Option<Piece>>, r: int) -> [Option<Piece>; 8] {
    [sq[r * 8], sq[r * 8 + 1], sq[r * 8 + 2], sq[r * 8 + 3], sq[r * 8 + 4], sq[r * 8 + 5], sq[r * 8 + 6], sq[r * 8 + 7]]
}

fn board_row(sq: &[Option<Piece>; 64], r: usize) -> (row: [Option<Piece>; 8])
    requires
        r < 8,
    ensures
        row == board_row_spec(sq@, r as int),
        forall|f: int| 0 <= f < 8 ==> #[trigger] row@[f] == sq@[r * 8 + f],
{
    let b = r * 8;
    [sq[b], sq[b + 1], sq[b + 2], sq[b + 3], sq[b + 4], sq[b + 5], sq[b + 6], sq[b + 7]]
}

impl Default for Game {
    fn default() -> (g: Self)
        ensures
            g@ == fresh_game(starting_board()),
    {
        Self::new()
    }
}

/// A board with the side and clocks of `b` and room after them fits any
/// sequence of moves that fits `b`'s side.
proof fn lemma_history_fits(c: Board, mvs: Seq<Move>)
    requires
        c.wf(),
        moves_fit(c.side_to_move, mvs),
        c.halfmove_clock + mvs.len() + 2 < u32::MAX,
        c.fullmove_number + mvs.len() + 2 < u32::MAX,
    ensures
        history_ok(c, mvs),
    decreases mvs.len(),
{
    if mvs.len() > 0 {
        let m = mvs[0];
        assert(move_ok(side_after(c.side_to_move, 0), mvs[0]));
        let c2 = apply_spec(c, m);
        let rest = mvs.drop_first();
        assert forall|i: int| 0 <= i < rest.len() implies move_ok(side_after(c2.side_to_move, i), #[trigger] rest[i]) by {
            assert(rest[i] == mvs[i + 1]);
            assert(move_ok(side_after(c.side_to_move, i + 1), mvs[i + 1]));
        }
        lemma_history_fits(c2, rest);
        assert(san_ready(c, m));
    }
}

/// The game result for the PGN: who won a checkmate, a draw, or `*`.
pub open spec fn result_text(st: GameStatus, side: Color) -> Seq<char> {
    match st {
        GameStatus::Checkmate => if side == Color::White { "0-1"@ } else { "1-0"@ },
        GameStatus::Draw(_) => "1/2-1/2"@,
        GameStatus::Stalemate => "1/2-1/2"@,
        _ => "*"@,
    }
}

/// The seven-tag roster with unknown values and the given result.
pub open spec fn roster(result: Seq<char>) -> Seq<(Seq<char>, Seq<char>)> {
    seq![
        ("Event"@, "?"@),
        ("Site"@, "?"@),
        ("Date"@, "????.??.??"@),
        ("Round"@, "?"@),
        ("White"@, "?"@),
        ("Black"@, "?"@),
        ("Result"@, result),
    ]
}

/// The tags of a game's PGN: the roster, the starting FEN when the game did
/// not start from the standard position, then the extra tags.
pub open spec fn pgn_tags(g: GameModel, extra: Seq<(Seq<char>, Seq<char>)>) -> Seq<(Seq<char>, Seq<char>)> {
    roster(result_text(status_spec(g), g.board.side_to_move))
        + (if g.start_fen != fen_string_spec(starting_board()) {
            seq![("SetUp"@, "1"@), ("FEN"@, g.start_fen)]
        } else {
            Seq::empty()
        })
        + extra
}

/// The board the PGN's moves are replayed from: the one the starting FEN
/// describes.
pub open spec fn pgn_start(g: GameModel) -> Board {
    if fen_spec(g.start_fen) is Ok { fen_board(g.start_fen) } else { starting_board() }
}

/// The moves of a game as (move, SAN) pairs.
fn move_list(h: &Vec<(Board, Move, String)>) -> (r: Vec<(Move, String)>)
    ensures
        history_moves(r@) == moves_of(history_view(h@)),
{
    let mut r: Vec<(Move, String)> = Vec::new();
    let mut i: usize = 0;
    while i < h.len()
        invariant
            i <= h@.len(),
            history_moves(r@) == moves_of(history_view(h@)).subrange(0, i as int),
        decreases h@.len() - i,
    {
        let m = h[i].1;
        let san = h[i].2.clone();
        let ghost before = history_moves(r@);
        r.push((m, san));
        assert(moves_of(history_view(h@))[i as int] == h@[i as int].1);
        assert(history_moves(r@) =~= before.push(m));
        assert(history_moves(r@) =~= moves_of(history_view(h@)).subrange(0, i + 1));
        i = i + 1;
    }
    assert(moves_of(history_view(h@)).subrange(0, h@.len() as int) =~= moves_of(history_view(h@)));
    r
}

impl Game {
    /// Returns the moves of the game as PGN movetext followed by the result
    /// token, without tag pairs (e.g. `1. e4 e5 2. Nf3 *`).
    pub fn get_pgn(&self) -> (s: String)
        requires
            self.inv(),
            self.has_room(0),
        ensures
            s@ == movetext(pgn_start(self@), moves_of(self@.history), true)
                + result_text(status_spec(self@), self@.board.side_to_move),
    {
        proof {
            self.lemma_roomy();
        }
        let status = self.get_game_status();
        let result: &str = match status {
            GameStatus::Checkmate => if self.board.side_to_move == Color::White { "0-1" } else { "1-0" },
            GameStatus::Draw(_) => "1/2-1/2",
            GameStatus::Stalemate => "1/2-1/2",
            _ => "*",
        };
        assert(result@ == result_text(status_spec(self@), self@.board.side_to_move));
        proof {
            crate::fen::lemma_fen_len(self.start@);
            crate::fen::lemma_fen_reads_back(self.start@);
        }
        let start_board = match parse_fen(self.start_fen.as_str()) {
            Ok(b) => b,
            Err(_) => Board::starting_position(),
        };
        let move_history = move_list(&self.history);
        proof {
            let f = fen_spec(self@.start_fen)->Ok_0;
            assert(crate::fen::board_matches(start_board, f));
            lemma_history_fits(start_board, moves_of(self@.history));
        }
        let mut text = write_movetext(&start_board, move_history.as_slice());
        text.append(result);
        text
    }

    /// Returns a PGN string with additional custom tag pairs.
    pub fn get_pgn_with_tags(&self, extra_tags: &[(&str, &str)]) -> (s: String)
        requires
            self.inv(),
            self.has_room(0),
        ensures
            s@ == pgn_text(pgn_start(self@), moves_of(self@.history), pgn_tags(self@, tag_views(extra_tags@))),
    {
        proof {
            self.lemma_roomy();
        }
        let status = self.get_game_status();
        let result: &str = match status {
            GameStatus::Checkmate => if self.board.side_to_move == Color::White { "0-1" } else { "1-0" },
            GameStatus::Draw(_) => "1/2-1/2",
            GameStatus::Stalemate => "1/2-1/2",
            _ => "*",
        };
        let standard = board_to_fen(&Board::starting_position());
        let is_standard_start = self.start_fen == standard;
        let mut tags: Vec<(&str, &str)> = Vec::new();
        tags.push(("Event", "?"));
        tags.push(("Site", "?"));
        tags.push(("Date", "????.??.??"));
        tags.push(("Round", "?"));
        tags.push(("White", "?"));
        tags.push(("Black", "?"));
        tags.push(("Result", result));
        if !is_standard_start {
            tags.push(("SetUp", "1"));
            tags.push(("FEN", self.start_fen.as_str()));
        }
        let ghost head = tag_views(tags@);
        let mut k: usize = 0;
        while k < extra_tags.len()
            invariant
                k <= extra_tags@.len(),
                tag_views(tags@) == head + tag_views(extra_tags@).subrange(0, k as int),
            decreases extra_tags@.len() - k,
        {
            let ghost before = tag_views(tags@);
            let t = extra_tags[k];
            tags.push(t);
            assert(tag_views(tags@) =~= before.push((t.0@, t.1@)));
            assert(tag_views(extra_tags@)[k as int] == (t.0@, t.1@));
            assert(tag_views(tags@) =~= head + tag_views(extra_tags@).subrange(0, k + 1));
            k = k + 1;
        }
        assert(tag_views(extra_tags@).subrange(0, extra_tags@.len() as int) =~= tag_views(extra_tags@));
        assert(tag_views(tags@) =~= pgn_tags(self@, tag_views(extra_tags@)));

        proof {
            crate::fen::lemma_fen_len(self.start@);
            crate::fen::lemma_fen_reads_back(self.start@);
        }
        let start_board = match parse_fen(self.start_fen.as_str()) {
            Ok(b) => b,
            Err(_) => Board::starting_position(),
        };
        let move_history = move_list(&self.history);
        proof {
            let f = fen_spec(self@.start_fen)->Ok_0;
            assert(crate::fen::board_matches(start_board, f));
            lemma_history_fits(start_board, moves_of(self@.history));
        }
        moves_to_pgn(&start_board, move_history.as_slice(), tags.as_slice())
    }
}

/// The PGN that `get_pgn_with_tags` writes with no extra tags, for a game
/// begun at the standard starting position, reads back as its tags and as its moves' SAN without check and
/// annotation marks.
pub proof fn lemma_game_pgn_reads_back(g: &Game)
    requires
        g.inv(),
        g.has_room(0),
        g.start_board() == starting_board(),
    ensures
        parse_pgn_spec(pgn_text(pgn_start(g@), moves_of(g@.history), pgn_tags(g@, Seq::empty())))
            == (pgn_tags(g@, Seq::empty()), san_tokens(starting_board(), moves_of(g@.history))),
{
    crate::fen::lemma_start_round_trip();
    assert(pgn_start(g@) == starting_board());
    let st = starting_board();
    let mvs = moves_of(g@.history);
    assert(g@.wf(st));
    lemma_history_fits(st, mvs);
    let result = result_text(status_spec(g@), g@.board.side_to_move);
    let tags = pgn_tags(g@, Seq::empty());
    assert(tags =~= roster(result));
    reveal_strlit("Event");
    reveal_strlit("Site");
    reveal_strlit("Date");
    reveal_strlit("Round");
    reveal_strlit("White");
    reveal_strlit("Black");
    reveal_strlit("Result");
    reveal_strlit("?");
    reveal_strlit("????.??.??");
    reveal_strlit("1-0");
    reveal_strlit("0-1");
    reveal_strlit("1/2-1/2");
    reveal_strlit("*");
    assert forall|i: int| 0 <= i < tags.len() implies plain_tag(#[trigger] tags[i]) by {
        let (n, v) = tags[i];
        assert forall|j: int| 0 <= j < n.len() implies #[trigger] n[j] != ' ' && n[j] != '\n' by {}
        assert forall|j: int| 0 <= j < v.len() implies #[trigger] v[j] != '\n' by {}
    }
    assert(result_token(tags) == result) by {
        assert(tags[6] == ("Result"@, result));
        assert forall|j: int| 0 <= j < 6 implies (#[trigger] tags[j]).0 != "Result"@ by {}
        crate::pgn_reading::lemma_result_token_at(tags, 6);
    }
    assert(is_result(result));
    lemma_pgn_reads_back(st, mvs, tags);
}

/// The game after each move string of `ms` is played in turn, stopping at
/// the first one that fails, with that failure.
pub open spec fn play_all(g: GameModel, ms: Seq<Seq<char>>) -> (GameModel, Result<(), Seq<char>>)
    decreases ms.len(),
{
    if ms.len() == 0 {
        (g, Ok(()))
    } else {
        let (g1, r) = do_move_spec(g, ms[0]);
        match r {
            Err(e) => (g1, Err(e)),
            Ok(_) => play_all(g1, ms.drop_first()),
        }
    }
}

proof fn lemma_play_step(g: GameModel, ms: Seq<Seq<char>>)
    requires
        ms.len() > 0,
    ensures
        do_move_spec(g, ms[0]).1 is Ok ==> play_all(g, ms) == play_all(do_move_spec(g, ms[0]).0, ms.drop_first()),
        do_move_spec(g, ms[0]).1 is Err ==> play_all(g, ms) == do_move_spec(g, ms[0]),
{
}

impl Game {
    /// Loads a PGN string and replays all moves from the starting position.
    #[verifier::rlimit(40)]
    pub fn load_pgn(&mut self, pgn: &str) -> (r: Result<(), ChessError>)
        requires
            old(self).inv(),
            parse_pgn_spec(pgn@).1.len() < u32::MAX - 4,
        ensures
            final(self).inv(),
            match replay_sans(starting_board(), parse_pgn_spec(pgn@).1) {
                Err(msg) => r matches Err(e) && e.message@ == msg && final(self)@ == old(self)@
                    && final(self).start_board() == old(self).start_board(),
                Ok(u) => final(self)@ == play_all(fresh_game(starting_board()), u).0
                    && final(self).start_board() == starting_board()
                    && match play_all(fresh_game(starting_board()), u).1 {
                        Ok(_) => r is Ok,
                        Err(msg) => r matches Err(e) && e.message@ == msg,
                    },
            },
    {
        let (_, san_moves) = match parse_pgn(pgn) {
            Ok(res) => res,
            Err(e) => {
                let mut msg = String::from_str("PGN parse error: ");
                let text = e.to_string();
                msg.append(text.as_str());
                return Err(ChessError::new(msg));
            },
        };
        let start_fen = board_to_fen(&Board::starting_position());
        proof {
            crate::fen::lemma_start_round_trip();
            crate::fen::lemma_fen_len(starting_board());
            crate::fen::lemma_fen_reads_back(starting_board());
            assert(string_views(san_moves@) =~= san_moves.deep_view());
        }
        let uci_moves = match pgn_moves_to_uci(start_fen.as_str(), san_moves.as_slice()) {
            Ok(u) => u,
            Err(e) => return Err(e),
        };
        let ghost u = uci_moves.deep_view();
        proof {
            lemma_replay_len(starting_board(), string_views(san_moves@));
        }
        *self = Game::new();
        let mut i: usize = 0;
        assert(u.subrange(0, u.len() as int) =~= u);
        while i < uci_moves.len()
            invariant
                i <= uci_moves@.len(),
                u == uci_moves.deep_view(),
                u.len() < u32::MAX - 4,
                replay_sans(starting_board(), parse_pgn_spec(pgn@).1) == Ok::<Seq<Seq<char>>, Seq<char>>(u),
                self.inv(),
                self.start_board() == starting_board(),
                self@.history.len() == i,
                play_all(fresh_game(starting_board()), u) == play_all(self@, u.subrange(i as int, u.len() as int)),
                forall|k: int| 0 <= k < uci_moves@.len() ==> uci_shaped(#[trigger] uci_moves@[k]@),
            decreases uci_moves@.len() - i,
        {
            let ghost rest = u.subrange(i as int, u.len() as int);
            assert(rest[0] == uci_moves@[i as int]@);
            assert(rest.drop_first() =~= u.subrange(i + 1, u.len() as int));
            let ghost g0 = self@;
            proof {
                lemma_play_step(g0, rest);
            }
            match self.do_move(uci_moves[i].as_str()) {
                Ok(()) => {},
                Err(e) => return Err(e),
            }
            i = i + 1;
        }
        Ok(())
    }
}

/// Replaying SAN tokens gives one UCI move per token.
proof fn lemma_replay_len(b: Board, sans: Seq<Seq<char>>)
    ensures
        replay_sans(b, sans) matches Ok(u) ==> u.len() == sans.len(),
    decreases sans.len(),
{
    if sans.len() > 0 {
        match san_lookup(b, sans[0]) {
            Some(m) => lemma_replay_len(apply_spec(b, m), sans.drop_first()),
            None => {},
        }
    }
}

/// One square of the board display: its FEN letter, or `.` when empty.
pub open spec fn cell_text(p: Option<Piece>) -> Seq<char> {
    seq![' ', match p {
        Some(pc) => pc.spec_to_fen_char(),
        None => '.',
    }, ' ']
}

/// The squares of rank `r` from file `f` on, as displayed.
pub open spec fn row_cells(b: Board, r: int, f: int) -> Seq<char>
    decreases 8 - f,
{
    if f >= 8 { Seq::empty() } else { cell_text(b.spec_piece_at(r * 8 + f)) + row_cells(b, r, f + 1) }
}

/// One rank of the display: its number, then its squares between bars.
pub open spec fn row_text(b: Board, r: int) -> Seq<char> {
    seq![' ', crate::text::digit_char(r + 1), ' ', '|'] + row_cells(b, r, 0) + seq!['|', '\n']
}

/// Ranks `r` down to the first, as displayed.
pub open spec fn rows_text(b: Board, r: int) -> Seq<char>
    decreases r + 1,
{
    if r < 0 { Seq::empty() } else { row_text(b, r) + rows_text(b, r - 1) }
}

/// The board display: a frame, rank 8 at the top, file letters below.
pub open spec fn display_spec(b: Board) -> Seq<char> {
    "   +------------------------+\n"@ + rows_text(b, 7) + "   +------------------------+\n"@
        + "     a  b  c  d  e  f  g  h\n"@
}

impl Game {
    /// Returns an ASCII representation of the board suitable for terminal
    /// output.
    pub fn display_board(&self) -> (s: String)
        ensures
            s@ == display_spec(self@.board),
    {
        let b = &self.board;
        let mut s = String::new();
        s.append("   +------------------------+\n");
        let ghost head = s@;
        let mut rank: u8 = 8;
        while rank > 0
            invariant
                rank <= 8,
                s@ + rows_text(*b, rank - 1) == head + rows_text(*b, 7),
            decreases rank,
        {
            rank = rank - 1;
            let ghost before = s@;
            push_char(&mut s, ' ');
            push_char(&mut s, crate::text::digit_to_char((rank + 1) as u32));
            push_char(&mut s, ' ');
            push_char(&mut s, '|');
            let ghost row_start = s@;
            let mut file: u8 = 0;
            while file < 8
                invariant
                    rank < 8,
                    file <= 8,
                    s@ + row_cells(*b, rank as int, file as int) == row_start + row_cells(*b, rank as int, 0),
                decreases 8 - file,
            {
                let ch = match b.piece_at(rank * 8 + file) {
                    Some(p) => p.to_fen_char(),
                    None => '.',
                };
                let ghost s0 = s@;
                push_char(&mut s, ' ');
                push_char(&mut s, ch);
                push_char(&mut s, ' ');
                assert(s@ =~= s0 + cell_text(b.spec_piece_at(rank * 8 + file)));
                assert(s0 + row_cells(*b, rank as int, file as int) =~= s@ + row_cells(*b, rank as int, file + 1));
                file = file + 1;
            }
            push_char(&mut s, '|');
            push_char(&mut s, '\n');
            assert(s@ =~= before + row_text(*b, rank as int));
            assert(before + rows_text(*b, rank as int) =~= s@ + rows_text(*b, rank - 1));
        }
        s.append("   +------------------------+\n");
        s.append("     a  b  c  d  e  f  g  h\n");
        assert(s@ =~= display_spec(*b));
        s
    }
}

/// Undo takes back a move: playing a move and then undoing it gives back
/// the game as it was (board, history and repetition counters).
pub proof fn lemma_undo_after_move(g: GameModel, start: Board, s: Seq<char>)
    requires
        g.wf(start),
        do_move_spec(g, s).1 is Ok,
    ensures
        undo_spec(do_move_spec(g, s).0) == g,
{
    let m = parse_move_spec(g.board, s)->Ok_0;
    let nb = apply_spec(g.board, m);
    let g1 = do_move_spec(g, s).0;
    lemma_tally(keys_of(g.history, g.board));
    lemma_unbump_bump(g.counts, nb.position_key_spec());
    assert(g1.history.drop_last() =~= g.history);
}

/// For any game: when `do_move(s)` accepts the move, the `undo_move` that
/// follows gives back the game as it was.
pub proof fn lemma_game_undo_after_move(g: &Game, s: Seq<char>)
    requires
        g.inv(),
        do_move_spec(g@, s).1 is Ok,
    ensures
        undo_spec(do_move_spec(g@, s).0) == g@,
        do_move_spec(g@, s).0.history.len() > 0,
{
    lemma_undo_after_move(g@, g.start@, s);
}

/// A pawn, rook or queen of either colour is mating material: while one
/// stands on the board, the game is never a draw by insufficient material.
pub proof fn lemma_heavy_piece_is_material(g: GameModel, sq: int)
    requires
        0 <= sq < 64,
        g.board.spec_piece_at(sq) matches Some(p) && (p.piece_type == PieceType::Pawn
            || p.piece_type == PieceType::Rook || p.piece_type == PieceType::Queen),
    ensures
        !insufficient_spec(g.board),
        status_spec(g) != GameStatus::Draw(DrawReason::InsufficientMaterial),
{
    assert(heavy_at(g.board, sq));
}

/// Square `t` holds a knight or bishop of `color`.
pub open spec fn minor_of(b: Board, color: Color, t: int) -> bool {
    b.spec_piece_at(t) matches Some(p) && p.color == color && is_minor(p.piece_type)
}

proof fn lemma_minors_none(b: Board, color: Color, n: int)
    requires
        forall|t: int| 0 <= t < n ==> !#[trigger] minor_of(b, color, t),
    ensures
        minors_below(b, color, n) == 0,
    decreases n,
{
    if n > 0 {
        assert(!minor_of(b, color, n - 1));
        lemma_minors_none(b, color, n - 1);
    }
}

proof fn lemma_minors_at_most_one(b: Board, color: Color, n: int)
    requires
        forall|t1: int, t2: int| 0 <= t1 < n && 0 <= t2 < n && #[trigger] minor_of(b, color, t1)
            && #[trigger] minor_of(b, color, t2) ==> t1 == t2,
    ensures
        minors_below(b, color, n) <= 1,
        minors_below(b, color, n) == 1 ==> exists|t: int| 0 <= t < n && #[trigger] minor_of(b, color, t),
    decreases n,
{
    if n > 0 {
        lemma_minors_at_most_one(b, color, n - 1);
        if minor_of(b, color, n - 1) {
            assert forall|t: int| 0 <= t < n - 1 implies !#[trigger] minor_of(b, color, t) by {
                if minor_of(b, color, t) {
                    assert(minor_of(b, color, n - 1));
                }
            }
            lemma_minors_none(b, color, n - 1);
        }
    }
}

proof fn lemma_minors_two(b: Board, color: Color, n: int, s1: int, s2: int)
    requires
        0 <= s1 < n,
        0 <= s2 < n,
        s1 != s2,
        minor_of(b, color, s1),
        minor_of(b, color, s2),
    ensures
        minors_below(b, color, n) >= 2,
    decreases n,
{
    if s1 == n - 1 {
        lemma_minors_one(b, color, n - 1, s2);
    } else if s2 == n - 1 {
        lemma_minors_one(b, color, n - 1, s1);
    } else {
        lemma_minors_two(b, color, n - 1, s1, s2);
    }
}

proof fn lemma_minors_one(b: Board, color: Color, n: int, s: int)
    requires
        0 <= s < n,
        minor_of(b, color, s),
    ensures
        minors_below(b, color, n) >= 1,
    decreases n,
{
    if s < n - 1 {
        lemma_minors_one(b, color, n - 1, s);
    }
}

/// Kings with at most one knight or bishop between them cannot mate: when
/// no square holds a pawn, rook or queen and no two squares hold knights or
/// bishops, the material is insufficient.
pub proof fn lemma_lone_minor_is_insufficient(b: Board)
    requires
        forall|t: int| 0 <= t < 64 ==> !#[trigger] heavy_at(b, t),
        forall|t1: int, t2: int| 0 <= t1 < 64 && 0 <= t2 < 64
            && (minor_of(b, Color::White, t1) || minor_of(b, Color::Black, t1))
            && (minor_of(b, Color::White, t2) || minor_of(b, Color::Black, t2)) ==> t1 == t2,
    ensures
        insufficient_spec(b),
{
    lemma_minors_at_most_one(b, Color::White, 64);
    lemma_minors_at_most_one(b, Color::Black, 64);
    if minors_below(b, Color::White, 64) == 1 && minors_below(b, Color::Black, 64) == 1 {
        let w = choose|t: int| 0 <= t < 64 && #[trigger] minor_of(b, Color::White, t);
        let k = choose|t: int| 0 <= t < 64 && #[trigger] minor_of(b, Color::Black, t);
        assert(w == k);
    }
}

/// One side with two knights or bishops has mating material: the position
/// is then never a draw by insufficient material.
pub proof fn lemma_two_minors_are_material(g: GameModel, color: Color, s1: int, s2: int)
    requires
        0 <= s1 < 64,
        0 <= s2 < 64,
        s1 != s2,
        minor_of(g.board, color, s1),
        minor_of(g.board, color, s2),
    ensures
        !insufficient_spec(g.board),
        status_spec(g) != GameStatus::Draw(DrawReason::InsufficientMaterial),
{
    lemma_minors_two(g.board, color, 64, s1, s2);
}

proof fn lemma_last_bishop(b: Board, color: Color, n: int, w: int)
    requires
        0 <= w < n,
        b.spec_piece_at(w) == Some(Piece { piece_type: PieceType::Bishop, color }),
        forall|t: int| 0 <= t < n && t != w ==> #[trigger] b.spec_piece_at(t) != Some(Piece { piece_type: PieceType::Bishop, color }),
    ensures
        last_bishop_below(b, color, n) == Some(w),
    decreases n,
{
    if n - 1 != w {
        assert(b.spec_piece_at(n - 1) != Some(Piece { piece_type: PieceType::Bishop, color }));
        lemma_last_bishop(b, color, n - 1, w);
    }
}

/// Kings with one bishop each and nothing else: the material is
/// insufficient exactly when the two bishops stand on squares of one colour.
pub proof fn lemma_bishops_each_side(b: Board, w: int, k: int)
    requires
        0 <= w < 64,
        0 <= k < 64,
        b.spec_piece_at(w) == Some(Piece { piece_type: PieceType::Bishop, color: Color::White }),
        b.spec_piece_at(k) == Some(Piece { piece_type: PieceType::Bishop, color: Color::Black }),
        forall|t: int| 0 <= t < 64 ==> !#[trigger] heavy_at(b, t),
        forall|t: int| 0 <= t < 64 && t != w && t != k ==> !#[trigger] minor_of(b, Color::White, t)
            && !minor_of(b, Color::Black, t),
    ensures
        insufficient_spec(b) == (square_parity(w) == square_parity(k)),
{
    assert(minor_of(b, Color::White, w));
    assert(minor_of(b, Color::Black, k));
    assert forall|t1: int, t2: int| 0 <= t1 < 64 && 0 <= t2 < 64 && #[trigger] minor_of(b, Color::White, t1)
        && #[trigger] minor_of(b, Color::White, t2) implies t1 == t2 by {
        assert(!minor_of(b, Color::White, k));
    }
    assert forall|t1: int, t2: int| 0 <= t1 < 64 && 0 <= t2 < 64 && #[trigger] minor_of(b, Color::Black, t1)
        && #[trigger] minor_of(b, Color::Black, t2) implies t1 == t2 by {
        assert(!minor_of(b, Color::Black, w));
        if t1 != k {
            assert(!minor_of(b, Color::White, t1));
        }
        if t2 != k {
            assert(!minor_of(b, Color::White, t2));
        }
    }
    lemma_minors_at_most_one(b, Color::White, 64);
    lemma_minors_at_most_one(b, Color::Black, 64);
    lemma_minors_one(b, Color::White, 64, w);
    lemma_minors_one(b, Color::Black, 64, k);
    assert forall|t: int| 0 <= t < 64 && t != w implies #[trigger] b.spec_piece_at(t)
        != Some(Piece { piece_type: PieceType::Bishop, color: Color::White }) by {
        if t != k {
            assert(!minor_of(b, Color::White, t));
        }
    }
    assert forall|t: int| 0 <= t < 64 && t != k implies #[trigger] b.spec_piece_at(t)
        != Some(Piece { piece_type: PieceType::Bishop, color: Color::Black }) by {
        if t != w {
            assert(!minor_of(b, Color::White, t));
            assert(!minor_of(b, Color::Black, t));
        }
    }
    lemma_last_bishop(b, Color::White, 64, w);
    lemma_last_bishop(b, Color::Black, 64, k);
}

/// A move that is played hands the turn to the other side and adds one
/// entry, holding the board it was played on, to the history.
pub proof fn lemma_move_alternates(g: GameModel, s: Seq<char>)
    requires
        do_move_spec(g, s).1 is Ok,
    ensures
        do_move_spec(g, s).0.board.side_to_move == g.board.side_to_move.spec_opposite(),
        do_move_spec(g, s).0.history.len() == g.history.len() + 1,
        do_move_spec(g, s).0.history.last().0 == g.board,
{
}

/// A rejected move leaves the game as it was.
pub proof fn lemma_rejected_move_changes_nothing(g: GameModel, s: Seq<char>)
    requires
        do_move_spec(g, s).1 is Err,
    ensures
        do_move_spec(g, s).0 == g,
{
}

/// A move string is accepted by `do_move` exactly when `is_move_legal`
/// says it is legal.
pub proof fn lemma_legal_iff_accepted(g: GameModel, s: Seq<char>)
    ensures
        (parse_move_spec(g.board, s) is Ok) == (do_move_spec(g, s).1 is Ok),
{
}

} // verus!
