//! The decisions of game analysis that need no engine and no fractions:
//! which moves are analysed, how a played move is looked up and prepared,
//! how engine scores become evaluations for White, how classifications are
//! counted and filtered, and the annotated PGN of a report.
use vstd::prelude::*;
use crate::attacks::{in_check_spec, is_in_check};
use crate::board::Board;
use crate::classifications::{ClassificationKind, Evaluation};
use crate::movegen::{apply_move, apply_spec, generate_legal_moves, legal_moves_spec, playable};
use crate::opening::OpeningBook;
use crate::pgn::{lemma_roomy_san_ready, move_to_san, roomy, san_spec};
use crate::text::{chars_eq_str, chars_of, decimal, u32_to_string};
use crate::types::{ChessError, Color, Move};
use crate::uci::{Score, SearchConfig};

verus! {

/// The PGN annotation of a classification: `!!`, `!`, `!?`, `?!`, `?`,
/// `??`, or nothing.
pub open spec fn annotation_spec(kind: ClassificationKind) -> Seq<char> {
    match kind {
        ClassificationKind::Brilliant => "!!"@,
        ClassificationKind::Great => "!"@,
        ClassificationKind::Risky => "!?"@,
        ClassificationKind::Inaccuracy => "?!"@,
        ClassificationKind::Miss => "?"@,
        ClassificationKind::Mistake => "?"@,
        ClassificationKind::Blunder => "??"@,
        _ => ""@,
    }
}

/// Returns the PGN annotation of a classification.
pub fn classification_annotation(kind: &ClassificationKind) -> (s: &'static str)
    ensures
        s@ == annotation_spec(*kind),
{
    match kind {
        ClassificationKind::Brilliant => "!!",
        ClassificationKind::Great => "!",
        ClassificationKind::Risky => "!?",
        ClassificationKind::Inaccuracy => "?!",
        ClassificationKind::Miss => "?",
        ClassificationKind::Mistake => "?",
        ClassificationKind::Blunder => "??",
        _ => "",
    }
}

/// An evaluation from the side to move's point of view turned to White's:
/// negated when Black is to move.
pub open spec fn white_eval(eval: Evaluation, side_to_move: Color) -> Evaluation {
    if side_to_move == Color::Black {
        match eval {
            Evaluation::Centipawn(v) => Evaluation::Centipawn(-v as i32),
            Evaluation::Mate(v) => Evaluation::Mate(-v as i32),
        }
    } else {
        eval
    }
}

/// Turns an evaluation from the side to move's point of view to White's.
pub fn normalize_eval_to_white(eval: Evaluation, side_to_move: Color) -> (r: Evaluation)
    requires
        side_to_move == Color::Black ==> eval.spec_value() != i32::MIN,
    ensures
        r == white_eval(eval, side_to_move),
{
    if side_to_move == Color::Black {
        match eval {
            Evaluation::Centipawn(v) => Evaluation::Centipawn(-v),
            Evaluation::Mate(v) => Evaluation::Mate(-v),
        }
    } else {
        eval
    }
}

/// The evaluation an engine score stands for.
pub fn score_to_eval(score: &Score) -> (e: Evaluation)
    ensures
        e == match *score {
            Score::Centipawns(cp) => Evaluation::Centipawn(cp),
            Score::Mate(m) => Evaluation::Mate(m),
        },
{
    match score {
        Score::Centipawns(cp) => Evaluation::Centipawn(*cp),
        Score::Mate(m) => Evaluation::Mate(*m),
    }
}

/// Which player's moves to analyse.
#[derive(Debug, Clone, Copy, PartialEq, Eq, Structural)]
pub enum Side {
    White,
    Black,
}

/// Configuration for the move analyzer.
#[derive(Debug, Clone)]
pub struct AnalyzerConfig {
    pub search: SearchConfig,
    pub read_timeout_ms: Option<u64>,
}

impl AnalyzerConfig {
    /// Search each position to depth `d`, with a minute's read timeout.
    pub fn depth(d: u32) -> (c: Self)
        ensures
            c.search.depth == Some(d),
            (SearchConfig { depth: None, ..c.search }).is_blank(),
            c.read_timeout_ms == Some(60_000u64),
    {
        Self { search: SearchConfig::depth(d), read_timeout_ms: Some(60_000) }
    }

    /// Think `ms` milliseconds on each position, with a minute's read timeout.
    pub fn movetime(ms: u64) -> (c: Self)
        ensures
            c.search.movetime == Some(ms),
            (SearchConfig { movetime: None, ..c.search }).is_blank(),
            c.read_timeout_ms == Some(60_000u64),
    {
        Self { search: SearchConfig::movetime(ms), read_timeout_ms: Some(60_000) }
    }

    /// The same configuration with a read timeout of `ms` milliseconds.
    pub fn with_timeout(self, ms: u64) -> (c: Self)
        ensures
            c.search == self.search,
            c.read_timeout_ms == Some(ms),
    {
        let mut c = self;
        c.read_timeout_ms = Some(ms);
        c
    }
}

impl Default for AnalyzerConfig {
    fn default() -> (c: Self)
        ensures
            c.search.depth == Some(16u32),
            (SearchConfig { depth: None, ..c.search }).is_blank(),
            c.read_timeout_ms == Some(60_000u64),
    {
        Self { search: SearchConfig::depth(16), read_timeout_ms: Some(60_000) }
    }
}


/// The evaluation an engine score stands for, a draw when there is none.
pub open spec fn score_eval(score: Option<Score>) -> Evaluation {
    match score {
        Some(Score::Centipawns(cp)) => Evaluation::Centipawn(cp),
        Some(Score::Mate(m)) => Evaluation::Mate(m),
        None => Evaluation::Centipawn(0),
    }
}

/// An engine score that can be turned to White's point of view for `side`.
pub open spec fn score_fits(score: Option<Score>, side: Color) -> bool {
    side == Color::Black ==> score_eval(score).spec_value() != i32::MIN
}

/// The evaluation for White of the engine's score of a position with `side`
/// to move (a draw when the engine gave no score).
pub fn engine_eval(score: Option<Score>, side: Color) -> (e: Evaluation)
    requires
        score_fits(score, side),
    ensures
        e == white_eval(score_eval(score), side),
{
    let raw = match score {
        Some(sc) => score_to_eval(&sc),
        None => Evaluation::Centipawn(0),
    };
    normalize_eval_to_white(raw, side)
}

/// What the engine's top lines say before a move by `color`: the best move
/// (the played one when the engine gave none), the evaluation before the
/// move, and the evaluation of the second line when it has a score, both for
/// White.
pub fn read_top_lines(top: &[(String, Option<Score>)], mv_uci: &str, color: Color) -> (r: (
    String,
    Evaluation,
    Option<Evaluation>,
))
    requires
        top@.len() > 0 ==> score_fits(top@[0].1, color),
        top@.len() > 1 ==> score_fits(top@[1].1, color),
    ensures
        r.0@ == (if top@.len() > 0 { top@[0].0@ } else { mv_uci@ }),
        r.1 == white_eval(score_eval(if top@.len() > 0 { top@[0].1 } else { None }), color),
        r.2 == (if top@.len() > 1 && top@[1].1 is Some { Some(white_eval(score_eval(top@[1].1), color)) } else { None }),
{
    let best = if top.len() > 0 { top[0].0.clone() } else { mv_uci.to_string() };
    let before = if top.len() > 0 { engine_eval(top[0].1, color) } else { engine_eval(None, color) };
    let second = if top.len() > 1 && top[1].1.is_some() { Some(engine_eval(top[1].1, color)) } else { None };
    (best, before, second)
}

/// `i` is the first index of `moves` whose UCI text is `uci`.
pub open spec fn is_first_uci(moves: Seq<Move>, uci: Seq<char>, i: int) -> bool {
    &&& 0 <= i < moves.len()
    &&& moves[i].uci_spec() == uci
    &&& forall|j: int| 0 <= j < i ==> (#[trigger] moves[j]).uci_spec() != uci
}

/// The first index of `moves` whose UCI text is `uci`, if any.
pub open spec fn first_uci_index(moves: Seq<Move>, uci: Seq<char>) -> Option<int> {
    if exists|i: int| is_first_uci(moves, uci, i) {
        Some(choose|i: int| is_first_uci(moves, uci, i))
    } else {
        None
    }
}

/// Finds the first move whose UCI text is `uci`.
pub fn find_uci_move(moves: &[Move], uci: &str) -> (r: Option<usize>)
    ensures
        match first_uci_index(moves@, uci@) {
            Some(i) => r == Some(i as usize),
            None => r is None,
        },
{
    let mut i: usize = 0;
    while i < moves.len()
        invariant
            i <= moves@.len(),
            forall|j: int| 0 <= j < i ==> (#[trigger] moves@[j]).uci_spec() != uci@,
        decreases moves@.len() - i,
    {
        let u = moves[i].to_uci();
        let cs = chars_of(u.as_str());
        if chars_eq_str(cs.as_slice(), uci) {
            proof {
                assert(is_first_uci(moves@, uci@, i as int));
                let c = choose|c: int| is_first_uci(moves@, uci@, c);
                if c < i {
                    assert(moves@[c].uci_spec() != uci@);
                } else if c > i {
                    assert(moves@[i as int].uci_spec() != uci@);
                }
            }
            return Some(i);
        }
        i = i + 1;
    }
    None
}

/// What the classification of a move needs that the engine does not give.
#[derive(Debug, Clone)]
pub struct MovePrep {
    /// The legal moves before the move.
    pub legal: Vec<Move>,
    /// The move played.
    pub played_move: Move,
    /// Its SAN text.
    pub san: String,
    /// It was the only legal move.
    pub is_forced: bool,
    /// The mover was in check before it.
    pub in_check_before: bool,
    /// The position after it.
    pub board_after: Board,
    /// The position after it is in the opening book.
    pub is_book: bool,
}

/// The error for a move that is not legal here.
pub open spec fn illegal_move_message(mv_uci: Seq<char>) -> Seq<char> {
    "Illegal move: '"@ + mv_uci + "'"@
}

/// Looks up the move `mv_uci` among the legal moves of `board` and gathers
/// what its classification needs: its SAN text, whether it was forced,
/// whether the mover was in check, the position after it, and whether that
/// position is in `book`. Fails when no legal move has that UCI text.
pub fn prepare_move(board: &Board, mv_uci: &str, book: &OpeningBook) -> (r: Result<MovePrep, ChessError>)
    requires
        roomy(*board),
    ensures
        match first_uci_index(legal_moves_spec(*board), mv_uci@) {
            None => r matches Err(e) && e.message@ == illegal_move_message(mv_uci@),
            Some(i) => r matches Ok(p) && {
                let m = legal_moves_spec(*board)[i];
                &&& p.legal@ == legal_moves_spec(*board)
                &&& p.played_move == m
                &&& p.san@ == san_spec(*board, m)
                &&& p.is_forced == (legal_moves_spec(*board).len() == 1)
                &&& p.in_check_before == in_check_spec(*board, board.side_to_move)
                &&& p.board_after == apply_spec(*board, m)
                &&& playable(p.board_after)
                &&& p.is_book == (OpeningBook::lookup_spec(book.entries_view(), apply_spec(*board, m).placement_spec()) is Some)
            },
        },
{
    let legal = generate_legal_moves(board);
    let idx = match find_uci_move(legal.as_slice(), mv_uci) {
        Some(i) => i,
        None => {
            let mut msg = String::from_str("Illegal move: '");
            msg.append(mv_uci);
            msg.append("'");
            return Err(ChessError::new(msg));
        },
    };
    let played = legal[idx];
    proof {
        assert(crate::movegen::move_ok(board.side_to_move, legal@[idx as int]));
        lemma_roomy_san_ready(*board, played);
    }
    let san = move_to_san(board, &played);
    let is_forced = legal.len() == 1;
    let in_check_before = is_in_check(board, board.side_to_move);
    let board_after = apply_move(board, &played);
    let placement = board_after.fen_piece_placement();
    let is_book = book.lookup(placement.as_str()).is_some();
    Ok(MovePrep { legal, played_move: played, san, is_forced, in_check_before, board_after, is_book })
}

/// The evaluation after a move that ends the game: a mate when the side to
/// move is in check, a draw otherwise; none when the game goes on and the
/// engine must judge.
pub fn final_eval(board_after: &Board) -> (r: Option<Evaluation>)
    requires
        playable(*board_after),
    ensures
        legal_moves_spec(*board_after).len() == 0 ==> r == Some(
            if in_check_spec(*board_after, board_after.side_to_move) { Evaluation::Mate(0) } else { Evaluation::Centipawn(0) },
        ),
        legal_moves_spec(*board_after).len() > 0 ==> r is None,
{
    let legal = generate_legal_moves(board_after);
    if legal.len() == 0 {
        if is_in_check(board_after, board_after.side_to_move) {
            Some(Evaluation::Mate(0))
        } else {
            Some(Evaluation::Centipawn(0))
        }
    } else {
        None
    }
}

/// Ply `i` (counted from 0, White's first move) is analysed when only
/// `side`'s moves are wanted.
pub open spec fn analyses_ply_spec(i: int, side: Option<Side>) -> bool {
    match side {
        Some(Side::White) => i % 2 == 0,
        Some(Side::Black) => i % 2 == 1,
        None => true,
    }
}

/// Whether ply `i` is analysed when only `side`'s moves are wanted.
pub fn analyses_ply(i: usize, side: Option<Side>) -> (b: bool)
    ensures
        b == analyses_ply_spec(i as int, side),
{
    let is_white_move = i % 2 == 0;
    match side {
        Some(Side::White) => is_white_move,
        Some(Side::Black) => !is_white_move,
        None => true,
    }
}

/// The move number of ply `i` (counted from 0).
pub fn ply_move_number(i: usize) -> (n: u32)
    requires
        i / 2 + 1 <= u32::MAX,
    ensures
        n == i / 2 + 1,
{
    (i / 2) as u32 + 1
}

/// The position of a classification in the order of the kinds.
pub open spec fn kind_rank(k: ClassificationKind) -> int {
    match k {
        ClassificationKind::Brilliant => 0,
        ClassificationKind::Great => 1,
        ClassificationKind::Best => 2,
        ClassificationKind::Excellent => 3,
        ClassificationKind::Good => 4,
        ClassificationKind::Okay => 5,
        ClassificationKind::Inaccuracy => 6,
        ClassificationKind::Miss => 7,
        ClassificationKind::Mistake => 8,
        ClassificationKind::Blunder => 9,
        ClassificationKind::Forced => 10,
        ClassificationKind::Book => 11,
        ClassificationKind::Risky => 12,
    }
}

/// How bad a move of kind `k` is: the grades from brilliant to blunder in
/// order, with book and forced moves counted as best moves and a risky move
/// (a sound move that leaves a piece hanging) as an okay one.
pub open spec fn severity(k: ClassificationKind) -> int {
    match k {
        ClassificationKind::Brilliant => 0,
        ClassificationKind::Great => 1,
        ClassificationKind::Best => 2,
        ClassificationKind::Book => 2,
        ClassificationKind::Forced => 2,
        ClassificationKind::Excellent => 3,
        ClassificationKind::Good => 4,
        ClassificationKind::Okay => 5,
        ClassificationKind::Risky => 5,
        ClassificationKind::Inaccuracy => 6,
        ClassificationKind::Miss => 7,
        ClassificationKind::Mistake => 8,
        ClassificationKind::Blunder => 9,
    }
}

fn severity_of(k: ClassificationKind) -> (r: u8)
    ensures
        r == severity(k),
{
    match k {
        ClassificationKind::Brilliant => 0,
        ClassificationKind::Great => 1,
        ClassificationKind::Best => 2,
        ClassificationKind::Book => 2,
        ClassificationKind::Forced => 2,
        ClassificationKind::Excellent => 3,
        ClassificationKind::Good => 4,
        ClassificationKind::Okay => 5,
        ClassificationKind::Risky => 5,
        ClassificationKind::Inaccuracy => 6,
        ClassificationKind::Miss => 7,
        ClassificationKind::Mistake => 8,
        ClassificationKind::Blunder => 9,
    }
}

/// A classification is kept in a report: always when there is no
/// threshold, else when it is at the threshold's severity or worse (with
/// threshold Mistake, only mistakes and blunders).
pub fn meets_threshold(kind: ClassificationKind, threshold: Option<ClassificationKind>) -> (b: bool)
    ensures
        b == match threshold {
            Some(t) => severity(kind) >= severity(t),
            None => true,
        },
{
    match threshold {
        Some(t) => severity_of(kind) >= severity_of(t),
        None => true,
    }
}

/// How many of `kinds` are `k`.
pub open spec fn kind_count(kinds: Seq<ClassificationKind>, k: ClassificationKind) -> nat
    decreases kinds.len(),
{
    if kinds.len() == 0 {
        0
    } else {
        kind_count(kinds.drop_last(), k) + if kinds.last() == k { 1nat } else { 0nat }
    }
}

/// How many moves of each classification a player made.
#[derive(Debug, Clone, Copy, PartialEq, Eq, Structural)]
pub struct KindCounts {
    pub brilliant: u32,
    pub great: u32,
    pub best: u32,
    pub excellent: u32,
    pub good: u32,
    pub okay: u32,
    pub inaccuracy: u32,
    pub miss: u32,
    pub mistake: u32,
    pub blunder: u32,
    pub forced: u32,
    pub book: u32,
    pub risky: u32,
}

impl KindCounts {
    /// The count kept for `k`.
    pub open spec fn count_of(self, k: ClassificationKind) -> u32 {
        match k {
            ClassificationKind::Brilliant => self.brilliant,
            ClassificationKind::Great => self.great,
            ClassificationKind::Best => self.best,
            ClassificationKind::Excellent => self.excellent,
            ClassificationKind::Good => self.good,
            ClassificationKind::Okay => self.okay,
            ClassificationKind::Inaccuracy => self.inaccuracy,
            ClassificationKind::Miss => self.miss,
            ClassificationKind::Mistake => self.mistake,
            ClassificationKind::Blunder => self.blunder,
            ClassificationKind::Forced => self.forced,
            ClassificationKind::Book => self.book,
            ClassificationKind::Risky => self.risky,
        }
    }

    /// One more move of kind `k`.
    fn bump(&mut self, k: ClassificationKind)
        requires
            old(self).count_of(k) < u32::MAX,
        ensures
            forall|j: ClassificationKind| #[trigger] final(self).count_of(j)
                == old(self).count_of(j) + if j == k { 1int } else { 0int },
    {
        match k {
            ClassificationKind::Brilliant => self.brilliant = self.brilliant + 1,
            ClassificationKind::Great => self.great = self.great + 1,
            ClassificationKind::Best => self.best = self.best + 1,
            ClassificationKind::Excellent => self.excellent = self.excellent + 1,
            ClassificationKind::Good => self.good = self.good + 1,
            ClassificationKind::Okay => self.okay = self.okay + 1,
            ClassificationKind::Inaccuracy => self.inaccuracy = self.inaccuracy + 1,
            ClassificationKind::Miss => self.miss = self.miss + 1,
            ClassificationKind::Mistake => self.mistake = self.mistake + 1,
            ClassificationKind::Blunder => self.blunder = self.blunder + 1,
            ClassificationKind::Forced => self.forced = self.forced + 1,
            ClassificationKind::Book => self.book = self.book + 1,
            ClassificationKind::Risky => self.risky = self.risky + 1,
        }
    }
}

proof fn lemma_kind_count_le(kinds: Seq<ClassificationKind>, k: ClassificationKind)
    ensures
        kind_count(kinds, k) <= kinds.len(),
    decreases kinds.len(),
{
    if kinds.len() > 0 {
        lemma_kind_count_le(kinds.drop_last(), k);
    }
}

/// The kinds of classification, in order.
pub open spec fn all_kinds() -> Seq<ClassificationKind> {
    seq![
        ClassificationKind::Brilliant, ClassificationKind::Great, ClassificationKind::Best,
        ClassificationKind::Excellent, ClassificationKind::Good, ClassificationKind::Okay,
        ClassificationKind::Inaccuracy, ClassificationKind::Miss, ClassificationKind::Mistake,
        ClassificationKind::Blunder, ClassificationKind::Forced, ClassificationKind::Book,
        ClassificationKind::Risky,
    ]
}

/// The sum of the counts of the kinds `ks[0..n]` among `kinds`.
pub open spec fn counts_sum(kinds: Seq<ClassificationKind>, ks: Seq<ClassificationKind>, n: int) -> int
    decreases n,
{
    if n <= 0 { 0 } else { counts_sum(kinds, ks, n - 1) + kind_count(kinds, ks[n - 1]) as int }
}

proof fn lemma_counts_sum_step(kinds: Seq<ClassificationKind>, n: int)
    requires
        kinds.len() > 0,
        0 <= n <= 13,
    ensures
        counts_sum(kinds, all_kinds(), n) == counts_sum(kinds.drop_last(), all_kinds(), n)
            + if exists|j: int| 0 <= j < n && all_kinds()[j] == kinds.last() { 1int } else { 0int },
    decreases n,
{
    if n > 0 {
        lemma_counts_sum_step(kinds, n - 1);
        if all_kinds()[n - 1] == kinds.last() {
            assert forall|j: int| 0 <= j < n - 1 implies all_kinds()[j] != kinds.last() by {
                assert(all_kinds()[j] != all_kinds()[n - 1]);
            }
        } else {
            if exists|j: int| 0 <= j < n && all_kinds()[j] == kinds.last() {
                let j = choose|j: int| 0 <= j < n && all_kinds()[j] == kinds.last();
                assert(j != n - 1);
            }
        }
    }
}

/// Every move is counted under exactly one kind: the counts of all kinds
/// add up to the number of moves.
pub proof fn lemma_kind_counts_total(kinds: Seq<ClassificationKind>)
    ensures
        counts_sum(kinds, all_kinds(), 13) == kinds.len(),
    decreases kinds.len(),
{
    if kinds.len() > 0 {
        lemma_kind_counts_total(kinds.drop_last());
        lemma_counts_sum_step(kinds, 13);
        let k = kinds.last();
        let j: int = kind_rank(k);
        assert(all_kinds()[j] == k);
    } else {
        reveal_with_fuel(counts_sum, 14);
    }
}

/// Counts the moves of each classification.
pub fn count_kinds(kinds: &[ClassificationKind]) -> (c: KindCounts)
    requires
        kinds@.len() <= u32::MAX,
    ensures
        forall|k: ClassificationKind| #[trigger] c.count_of(k) == kind_count(kinds@, k),
{
    let mut c = KindCounts {
        brilliant: 0,
        great: 0,
        best: 0,
        excellent: 0,
        good: 0,
        okay: 0,
        inaccuracy: 0,
        miss: 0,
        mistake: 0,
        blunder: 0,
        forced: 0,
        book: 0,
        risky: 0,
    };
    let mut i: usize = 0;
    while i < kinds.len()
        invariant
            i <= kinds@.len() <= u32::MAX,
            forall|k: ClassificationKind| #[trigger] c.count_of(k) == kind_count(kinds@.subrange(0, i as int), k),
        decreases kinds@.len() - i,
    {
        let k = kinds[i];
        let ghost pre = kinds@.subrange(0, i as int);
        let ghost post = kinds@.subrange(0, i + 1);
        assert(post.drop_last() =~= pre);
        proof {
            lemma_kind_count_le(pre, k);
        }
        c.bump(k);
        assert forall|j: ClassificationKind| #[trigger] c.count_of(j) == kind_count(post, j) by {
            assert(kind_count(post, j) == kind_count(pre, j) + if post.last() == j { 1nat } else { 0nat });
        }
        i = i + 1;
    }
    assert(kinds@.subrange(0, kinds@.len() as int) =~= kinds@);
    c
}

/// One move of a report, as its annotated PGN needs it.
#[derive(Debug, Clone)]
pub struct AnnotatedMove {
    pub move_number: u32,
    pub color: Color,
    pub san: String,
    pub kind: ClassificationKind,
}

/// The annotated PGN of report moves, and the move number of the last one
/// (0 before any): a White move is written `<n>. <san><annotation>`; a Black
/// move `<n>... <san><annotation>` when its number differs from the move
/// before, else `<san><annotation>` alone; moves are separated by spaces.
pub open spec fn annotated_fold(ms: Seq<(u32, Color, Seq<char>, ClassificationKind)>) -> (Seq<char>, u32)
    decreases ms.len(),
{
    if ms.len() == 0 {
        (Seq::empty(), 0)
    } else {
        let (out, last) = annotated_fold(ms.drop_last());
        let (n, color, san, kind) = ms.last();
        let text = san + annotation_spec(kind);
        let sep = if out.len() > 0 { " "@ } else { Seq::empty() };
        let next = if color == Color::White {
            out + sep + decimal(n as nat) + ". "@ + text
        } else if n != last {
            out + sep + decimal(n as nat) + "... "@ + text
        } else {
            out + " "@ + text
        };
        (next, n)
    }
}

/// The plain values of report moves.
pub open spec fn annotated_views(ms: Seq<AnnotatedMove>) -> Seq<(u32, Color, Seq<char>, ClassificationKind)> {
    ms.map_values(|m: AnnotatedMove| (m.move_number, m.color, m.san@, m.kind))
}

/// Writes the moves of a report as PGN move text with classification
/// annotations (`!!`, `!`, `!?`, `?!`, `?`, `??`).
pub fn annotated_pgn(moves: &[AnnotatedMove]) -> (s: String)
    ensures
        s@ == annotated_fold(annotated_views(moves@)).0,
{
    let ghost v = annotated_views(moves@);
    let mut out = String::new();
    let mut last: u32 = 0;
    let mut i: usize = 0;
    assert(v.subrange(0, 0) =~= Seq::<(u32, Color, Seq<char>, ClassificationKind)>::empty());
    while i < moves.len()
        invariant
            i <= moves@.len(),
            v == annotated_views(moves@),
            v.len() == moves@.len(),
            annotated_fold(v.subrange(0, i as int)) == (out@, last),
        decreases moves@.len() - i,
    {
        let mc = &moves[i];
        let ghost pre = v.subrange(0, i as int);
        let ghost post = v.subrange(0, i + 1);
        assert(post.drop_last() =~= pre);
        assert(post.last() == (mc.move_number, mc.color, mc.san@, mc.kind));
        let ghost out0 = out@;
        let ann = classification_annotation(&mc.kind);
        let nonempty = out.as_str().unicode_len() > 0;
        match mc.color {
            Color::White => {
                if nonempty {
                    out.append(" ");
                }
                let num = u32_to_string(mc.move_number);
                out.append(num.as_str());
                out.append(". ");
                out.append(mc.san.as_str());
                out.append(ann);
                assert(out@ =~= out0 + (if out0.len() > 0 { " "@ } else { Seq::<char>::empty() })
                    + decimal(mc.move_number as nat) + ". "@ + (mc.san@ + annotation_spec(mc.kind)));
            },
            Color::Black => {
                if mc.move_number != last {
                    if nonempty {
                        out.append(" ");
                    }
                    let num = u32_to_string(mc.move_number);
                    out.append(num.as_str());
                    out.append("... ");
                    out.append(mc.san.as_str());
                    out.append(ann);
                    assert(out@ =~= out0 + (if out0.len() > 0 { " "@ } else { Seq::<char>::empty() })
                        + decimal(mc.move_number as nat) + "... "@ + (mc.san@ + annotation_spec(mc.kind)));
                } else {
                    out.append(" ");
                    out.append(mc.san.as_str());
                    out.append(ann);
                    assert(out@ =~= out0 + " "@ + (mc.san@ + annotation_spec(mc.kind)));
                }
            },
        }
        last = mc.move_number;
        i = i + 1;
    }
    assert(v.subrange(0, v.len() as int) =~= v);
    out
}

} // verus!
