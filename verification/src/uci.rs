//! The Universal Chess Interface: search settings, the `go` command, and the
//! reading of what an engine answers (`info`, `option` and `bestmove` lines).
//! Talking to the engine process itself is left to the caller.
use vstd::prelude::*;
use crate::text::{
    chars_eq_str, chars_of, decimal, join_range, join_words, parse_i32, parse_i32_spec, parse_u32,
    parse_u32_spec, parse_u64, parse_u64_spec, push_char, push_chars, push_decimal, push_decimal_u64,
    split_whitespace, string_from_chars, trim_whitespace, trim_ws, words,
};
use crate::types::ChessError;
use vstd::seq_lib::lemma_concat_associative;

verus! {

#[verifier::external_type_specification]
#[verifier::external_body]
pub struct ExIoError(std::io::Error);

/// The message of an I/O error.
///
/// Trusted: formats the error with its `Display` impl from the standard
/// library; nothing is stated of the text.
#[verifier::external_body]
fn io_error_text(e: &std::io::Error) -> (s: String)
{
    format!("{e}")
}

/// All errors that can occur while communicating with a UCI engine.
#[derive(Debug)]
pub enum UciError {
    /// The engine process could not be started.
    SpawnFailed(std::io::Error),
    /// Writing to the engine's stdin failed.
    WriteFailed(std::io::Error),
    /// The engine did not respond within the expected time.
    Timeout,
    /// The engine process terminated unexpectedly.
    ProcessDied,
    /// A response line could not be parsed.
    ParseError(String),
    /// The engine reported a specific error string.
    EngineError(String),
}

impl UciError {
    /// The error as text, as it is shown to users.
    pub fn to_string(&self) -> (s: String)
        ensures
            match self {
                UciError::SpawnFailed(_) => s@.len() >= 24 && s@.subrange(0, 24) == "Failed to spawn engine: "@,
                UciError::WriteFailed(_) => s@.len() >= 27 && s@.subrange(0, 27) == "Failed to write to engine: "@,
                UciError::Timeout => s@ == "Engine did not respond in time"@,
                UciError::ProcessDied => s@ == "Engine process terminated unexpectedly"@,
                UciError::ParseError(m) => s@ == "Parse error: "@ + m@,
                UciError::EngineError(m) => s@ == "Engine error: "@ + m@,
            },
    {
        match self {
            UciError::SpawnFailed(e) => {
                let mut s = String::from_str("Failed to spawn engine: ");
                let ghost head = s@;
                let t = io_error_text(e);
                s.append(t.as_str());
                proof {
                    reveal_strlit("Failed to spawn engine: ");
                    assert(s@.subrange(0, 24) =~= head);
                }
                s
            },
            UciError::WriteFailed(e) => {
                let mut s = String::from_str("Failed to write to engine: ");
                let ghost head = s@;
                let t = io_error_text(e);
                s.append(t.as_str());
                proof {
                    reveal_strlit("Failed to write to engine: ");
                    assert(s@.subrange(0, 27) =~= head);
                }
                s
            },
            UciError::Timeout => String::from_str("Engine did not respond in time"),
            UciError::ProcessDied => String::from_str("Engine process terminated unexpectedly"),
            UciError::ParseError(m) => {
                let mut s = String::from_str("Parse error: ");
                s.append(m.as_str());
                s
            },
            UciError::EngineError(m) => {
                let mut s = String::from_str("Engine error: ");
                s.append(m.as_str());
                s
            },
        }
    }

    /// The error as a [`ChessError`] whose message is the error's text.
    pub fn to_chess_error(&self) -> (e: ChessError)
        ensures
            match self {
                UciError::SpawnFailed(_) => e.message@.len() >= 24 && e.message@.subrange(0, 24) == "Failed to spawn engine: "@,
                UciError::WriteFailed(_) => e.message@.len() >= 27 && e.message@.subrange(0, 27) == "Failed to write to engine: "@,
                UciError::Timeout => e.message@ == "Engine did not respond in time"@,
                UciError::ProcessDied => e.message@ == "Engine process terminated unexpectedly"@,
                UciError::ParseError(m) => e.message@ == "Parse error: "@ + m@,
                UciError::EngineError(m) => e.message@ == "Engine error: "@ + m@,
            },
    {
        ChessError::new(self.to_string())
    }
}

/// Evaluation score returned by the engine.
#[derive(Debug, Clone, Copy, PartialEq, Eq, Structural)]
pub enum Score {
    /// Centipawn evaluation (positive = good for the side to move).
    Centipawns(i32),
    /// Forced mate in N half-moves (negative = being mated).
    Mate(i32),
}

/// The decimal notation of an integer with its sign, `+` for zero and above.
pub open spec fn signed_text(v: int) -> Seq<char> {
    if v >= 0 { seq!['+'] + decimal(v as nat) } else { seq!['-'] + decimal((0 - v) as nat) }
}

/// The absolute value of a 32-bit integer, as a 32-bit unsigned one.
fn magnitude(v: i32) -> (m: u32)
    ensures
        m == if v >= 0 { v as int } else { 0 - v },
{
    if v >= 0 {
        v as u32
    } else {
        (0 - (v as i64)) as u32
    }
}

impl Score {
    /// The score as text: `+35 cp`, `Mate in 3` or `Being mated in 2`.
    pub open spec fn text_spec(self) -> Seq<char> {
        match self {
            Score::Centipawns(cp) => signed_text(cp as int) + " cp"@,
            Score::Mate(n) => if n > 0 {
                "Mate in "@ + decimal(n as nat)
            } else {
                "Being mated in "@ + decimal((0 - n) as nat)
            },
        }
    }

    /// Returns the score as text: `+35 cp`, `Mate in 3` or `Being mated in 2`.
    pub fn to_string(&self) -> (s: String)
        requires
            !(*self matches Score::Mate(n) && n == i32::MIN),
        ensures
            s@ == self.text_spec(),
    {
        match self {
            Score::Centipawns(cp) => {
                let mut s = String::new();
                if *cp >= 0 {
                    push_char(&mut s, '+');
                } else {
                    push_char(&mut s, '-');
                }
                push_decimal(&mut s, magnitude(*cp));
                let ghost mid = s@;
                s.append(" cp");
                assert(mid =~= signed_text(*cp as int));
                s
            },
            Score::Mate(n) => {
                if *n > 0 {
                    let mut s = String::from_str("Mate in ");
                    push_decimal(&mut s, *n as u32);
                    s
                } else {
                    let mut s = String::from_str("Being mated in ");
                    push_decimal(&mut s, magnitude(*n));
                    s
                }
            },
        }
    }
}

/// The result of playing a move: the engine's chosen move and, if the
/// engine provided one, a suggestion for which opponent move to ponder on.
#[derive(Debug, Clone)]
pub struct PlayResult {
    /// The best move chosen by the engine (UCI notation, e.g. `"e2e4"`).
    pub best_move: String,
    /// The move the engine suggests pondering on next (opponent's expected
    /// reply). `None` if the engine did not provide a ponder suggestion.
    pub ponder_move: Option<String>,
}

/// The text of an optional string.
pub open spec fn opt_text(o: Option<String>) -> Option<Seq<char>> {
    match o {
        Some(s) => Some(s@),
        None => None,
    }
}

/// Parameters that control the engine's search.
#[derive(Debug, Clone)]
pub struct SearchConfig {
    /// Fixed search depth (plies).
    pub depth: Option<u32>,
    /// Fixed time per move (milliseconds).
    pub movetime: Option<u64>,
    /// White's remaining time (ms).
    pub wtime: Option<u64>,
    /// Black's remaining time (ms).
    pub btime: Option<u64>,
    /// White's increment per move (ms).
    pub winc: Option<u64>,
    /// Black's increment per move (ms).
    pub binc: Option<u64>,
    /// Restrict search to these moves (UCI notation).
    pub searchmoves: Vec<String>,
    /// Number of PV lines to return (default 1).
    pub multipv: Option<u32>,
    /// Search until the engine is told to stop.
    pub infinite: bool,
    /// Per-search read timeout (ms), overriding the engine's global timeout
    /// for this search only.
    pub read_timeout_ms: Option<u64>,
    /// The move the engine should ponder on (opponent's expected reply).
    pub ponder_move: Option<String>,
}

impl SearchConfig {
    /// No limit, no restriction: every field unset.
    pub open spec fn is_blank(self) -> bool {
        &&& self.depth is None
        &&& self.movetime is None
        &&& self.wtime is None
        &&& self.btime is None
        &&& self.winc is None
        &&& self.binc is None
        &&& self.searchmoves@.len() == 0
        &&& self.multipv is None
        &&& !self.infinite
        &&& self.read_timeout_ms is None
        &&& self.ponder_move is None
    }

    fn blank() -> (c: Self)
        ensures
            c.is_blank(),
    {
        Self {
            depth: None,
            movetime: None,
            wtime: None,
            btime: None,
            winc: None,
            binc: None,
            searchmoves: Vec::new(),
            multipv: None,
            infinite: false,
            read_timeout_ms: None,
            ponder_move: None,
        }
    }

    /// Search to a fixed depth.
    pub fn depth(d: u32) -> (c: Self)
        ensures
            c == (Self { depth: Some(d), ..c }),
            (Self { depth: None, ..c }).is_blank(),
    {
        let mut c = Self::blank();
        c.depth = Some(d);
        c
    }

    /// Think for a fixed number of milliseconds.
    pub fn movetime(ms: u64) -> (c: Self)
        ensures
            c.movetime == Some(ms),
            (Self { movetime: None, ..c }).is_blank(),
    {
        let mut c = Self::blank();
        c.movetime = Some(ms);
        c
    }

    /// Infinite search: the engine searches until it is told to stop.
    pub fn infinite() -> (c: Self)
        ensures
            c.infinite,
            (Self { infinite: false, ..c }).is_blank(),
    {
        let mut c = Self::blank();
        c.infinite = true;
        c
    }

    /// Returns a [`SearchConfigBuilder`] for fluent construction.
    pub fn builder() -> (b: SearchConfigBuilder)
        ensures
            b.0.is_blank(),
    {
        SearchConfigBuilder(Self::blank())
    }
}

/// ` <label><value>` for a limit that is set, nothing otherwise.
pub open spec fn limit_text(label: Seq<char>, v: Option<u64>) -> Seq<char> {
    match v {
        Some(t) => label + decimal(t as nat),
        None => Seq::empty(),
    }
}

/// ` depth <plies>` when a depth is set.
pub open spec fn depth_text(d: Option<u32>) -> Seq<char> {
    match d {
        Some(x) => " depth "@ + decimal(x as nat),
        None => Seq::empty(),
    }
}

/// ` searchmoves <moves>` when moves are listed.
pub open spec fn moves_text(ms: Seq<Seq<char>>) -> Seq<char> {
    if ms.len() > 0 {
        " searchmoves "@ + join_words(ms)
    } else {
        Seq::empty()
    }
}

/// What follows `go` (and `ponder`) in the `go` command: either `infinite`
/// or the limits that are set, each with its value, and the moves to search.
pub open spec fn go_limits_spec(c: SearchConfig) -> Seq<char> {
    if c.infinite {
        " infinite"@
    } else {
        depth_text(c.depth) + limit_text(" movetime "@, c.movetime) + limit_text(" wtime "@, c.wtime)
            + limit_text(" btime "@, c.btime) + limit_text(" winc "@, c.winc) + limit_text(" binc "@, c.binc)
            + moves_text(c.searchmoves.deep_view())
    }
}

/// The `go` command for a search configuration: `go`, then `ponder` when a
/// ponder move is set, then the limits.
pub open spec fn go_command_spec(c: SearchConfig) -> Seq<char> {
    "go"@ + (if c.ponder_move is Some { " ponder"@ } else { Seq::empty() }) + go_limits_spec(c)
}

fn push_limit(s: &mut String, label: &str, v: Option<u64>)
    ensures
        final(s)@ == old(s)@ + limit_text(label@, v),
{
    match v {
        Some(t) => {
            s.append(label);
            push_decimal_u64(s, t);
            assert(final(s)@ =~= old(s)@ + (label@ + decimal(t as nat)));
        },
        None => {
            assert(final(s)@ =~= old(s)@ + Seq::<char>::empty());
        },
    }
}

/// Joins strings with single spaces.
fn join_strings(v: &Vec<String>) -> (r: String)
    ensures
        r@ == join_words(v.deep_view()),
{
    let mut cs: Vec<Vec<char>> = Vec::new();
    let mut i: usize = 0;
    while i < v.len()
        invariant
            i <= v@.len(),
            cs.deep_view() == v.deep_view().subrange(0, i as int),
        decreases v@.len() - i,
    {
        let ghost before = cs.deep_view();
        let c = chars_of(v[i].as_str());
        let ghost cv = c@;
        assert(c.deep_view() =~= c@);
        cs.push(c);
        assert(cs.deep_view() =~= before.push(cv));
        assert(cs.deep_view() =~= v.deep_view().subrange(0, i + 1));
        i = i + 1;
    }
    assert(v.deep_view().subrange(0, v@.len() as int) =~= v.deep_view());
    assert(cs.deep_view().subrange(0, cs@.len() as int) =~= cs.deep_view());
    join_range(&cs, 0, cs.len())
}

impl SearchConfig {
    /// Serialises the config into a `go` command string (without the trailing
    /// newline).
    #[verifier::spinoff_prover]
    #[verifier::rlimit(30)]
    pub fn to_go_command(&self) -> (cmd: String)
        ensures
            cmd@ == go_command_spec(*self),
    {
        let mut cmd = String::from_str("go");
        if self.ponder_move.is_some() {
            cmd.append(" ponder");
        }
        let ghost head = cmd@;
        assert(head =~= "go"@ + (if self.ponder_move is Some { " ponder"@ } else { Seq::<char>::empty() }));
        if self.infinite {
            cmd.append(" infinite");
            return cmd;
        }
        push_depth(&mut cmd, self.depth);
        let ghost l1 = depth_text(self.depth);
        push_limit(&mut cmd, " movetime ", self.movetime);
        let ghost l2 = l1 + limit_text(" movetime "@, self.movetime);
        proof { lemma_concat_associative(head, l1, limit_text(" movetime "@, self.movetime)); }
        push_limit(&mut cmd, " wtime ", self.wtime);
        let ghost l3 = l2 + limit_text(" wtime "@, self.wtime);
        proof { lemma_concat_associative(head, l2, limit_text(" wtime "@, self.wtime)); }
        push_limit(&mut cmd, " btime ", self.btime);
        let ghost l4 = l3 + limit_text(" btime "@, self.btime);
        proof { lemma_concat_associative(head, l3, limit_text(" btime "@, self.btime)); }
        push_limit(&mut cmd, " winc ", self.winc);
        let ghost l5 = l4 + limit_text(" winc "@, self.winc);
        proof { lemma_concat_associative(head, l4, limit_text(" winc "@, self.winc)); }
        push_limit(&mut cmd, " binc ", self.binc);
        let ghost l6 = l5 + limit_text(" binc "@, self.binc);
        proof { lemma_concat_associative(head, l5, limit_text(" binc "@, self.binc)); }
        push_moves(&mut cmd, &self.searchmoves);
        proof { lemma_concat_associative(head, l6, moves_text(self.searchmoves.deep_view())); }
        cmd
    }
}

/// Appends ` depth <plies>` when a depth is set.
fn push_depth(s: &mut String, d: Option<u32>)
    ensures
        final(s)@ == old(s)@ + depth_text(d),
{
    match d {
        Some(x) => {
            s.append(" depth ");
            push_decimal(s, x);
            assert(final(s)@ =~= old(s)@ + (" depth "@ + decimal(x as nat)));
        },
        None => {
            assert(final(s)@ =~= old(s)@ + Seq::<char>::empty());
        },
    }
}

/// Appends ` searchmoves <moves>` when moves are listed.
fn push_moves(s: &mut String, ms: &Vec<String>)
    ensures
        final(s)@ == old(s)@ + moves_text(ms.deep_view()),
{
    if ms.len() > 0 {
        s.append(" searchmoves ");
        let joined = join_strings(ms);
        s.append(joined.as_str());
        assert(final(s)@ =~= old(s)@ + (" searchmoves "@ + join_words(ms.deep_view())));
    } else {
        assert(final(s)@ =~= old(s)@ + Seq::<char>::empty());
    }
}

impl Default for SearchConfig {
    fn default() -> (c: Self)
        ensures
            c.is_blank(),
    {
        Self::blank()
    }
}

/// Builder for [`SearchConfig`].
#[derive(Debug, Clone)]
pub struct SearchConfigBuilder(pub SearchConfig);

impl Default for SearchConfigBuilder {
    fn default() -> (b: Self)
        ensures
            b.0.is_blank(),
    {
        SearchConfigBuilder(SearchConfig::blank())
    }
}

impl SearchConfigBuilder {
    pub fn depth(self, d: u32) -> (b: Self)
        ensures
            b.0 == (SearchConfig { depth: Some(d), ..self.0 }),
    {
        let mut b = self;
        b.0.depth = Some(d);
        b
    }

    pub fn movetime(self, ms: u64) -> (b: Self)
        ensures
            b.0 == (SearchConfig { movetime: Some(ms), ..self.0 }),
    {
        let mut b = self;
        b.0.movetime = Some(ms);
        b
    }

    pub fn wtime(self, ms: u64) -> (b: Self)
        ensures
            b.0 == (SearchConfig { wtime: Some(ms), ..self.0 }),
    {
        let mut b = self;
        b.0.wtime = Some(ms);
        b
    }

    pub fn btime(self, ms: u64) -> (b: Self)
        ensures
            b.0 == (SearchConfig { btime: Some(ms), ..self.0 }),
    {
        let mut b = self;
        b.0.btime = Some(ms);
        b
    }

    pub fn winc(self, ms: u64) -> (b: Self)
        ensures
            b.0 == (SearchConfig { winc: Some(ms), ..self.0 }),
    {
        let mut b = self;
        b.0.winc = Some(ms);
        b
    }

    pub fn binc(self, ms: u64) -> (b: Self)
        ensures
            b.0 == (SearchConfig { binc: Some(ms), ..self.0 }),
    {
        let mut b = self;
        b.0.binc = Some(ms);
        b
    }

    pub fn multipv(self, n: u32) -> (b: Self)
        ensures
            b.0 == (SearchConfig { multipv: Some(n), ..self.0 }),
    {
        let mut b = self;
        b.0.multipv = Some(n);
        b
    }

    pub fn infinite(self) -> (b: Self)
        ensures
            b.0 == (SearchConfig { infinite: true, ..self.0 }),
    {
        let mut b = self;
        b.0.infinite = true;
        b
    }

    pub fn searchmoves(self, moves: Vec<String>) -> (b: Self)
        ensures
            b.0 == (SearchConfig { searchmoves: moves, ..self.0 }),
    {
        let mut b = self;
        b.0.searchmoves = moves;
        b
    }

    /// Override the engine's global read timeout for this search only (ms).
    pub fn read_timeout_ms(self, ms: u64) -> (b: Self)
        ensures
            b.0 == (SearchConfig { read_timeout_ms: Some(ms), ..self.0 }),
    {
        let mut b = self;
        b.0.read_timeout_ms = Some(ms);
        b
    }

    /// Set the move to ponder on (opponent's expected reply in UCI notation).
    pub fn ponder_move(self, mv: &str) -> (b: Self)
        ensures
            b.0 == (SearchConfig { ponder_move: b.0.ponder_move, ..self.0 }),
            b.0.ponder_move matches Some(p) && p@ == mv@,
    {
        let mut b = self;
        b.0.ponder_move = Some(String::from_str(mv));
        b
    }

    pub fn build(self) -> (c: SearchConfig)
        ensures
            c == self.0,
    {
        self.0
    }
}

/// A single `info` line emitted by the engine during search.
#[derive(Debug, Clone)]
pub struct AnalysisInfo {
    /// Search depth reached.
    pub depth: Option<u32>,
    /// Selective search depth.
    pub seldepth: Option<u32>,
    /// Evaluation score.
    pub score: Option<Score>,
    /// Principal variation (list of UCI moves).
    pub pv: Vec<String>,
    /// Number of nodes searched.
    pub nodes: Option<u64>,
    /// Nodes per second.
    pub nps: Option<u64>,
    /// Time spent searching (milliseconds).
    pub time_ms: Option<u64>,
    /// Hash table usage in permille (0–1000).
    pub hashfull: Option<u32>,
    /// Multi-PV line index (1-based).
    pub multipv: Option<u32>,
    /// Free-text message from `info string …` lines.
    pub message: Option<String>,
}

/// The contents of an `info` line.
pub struct InfoModel {
    pub depth: Option<u32>,
    pub seldepth: Option<u32>,
    pub score: Option<Score>,
    pub pv: Seq<Seq<char>>,
    pub nodes: Option<u64>,
    pub nps: Option<u64>,
    pub time_ms: Option<u64>,
    pub hashfull: Option<u32>,
    pub multipv: Option<u32>,
    pub message: Option<Seq<char>>,
}

impl View for AnalysisInfo {
    type V = InfoModel;

    open spec fn view(&self) -> InfoModel {
        InfoModel {
            depth: self.depth,
            seldepth: self.seldepth,
            score: self.score,
            pv: self.pv.deep_view(),
            nodes: self.nodes,
            nps: self.nps,
            time_ms: self.time_ms,
            hashfull: self.hashfull,
            multipv: self.multipv,
            message: opt_text(self.message),
        }
    }
}

/// An `info` line with nothing in it.
pub open spec fn empty_info() -> InfoModel {
    InfoModel {
        depth: None,
        seldepth: None,
        score: None,
        pv: Seq::empty(),
        nodes: None,
        nps: None,
        time_ms: None,
        hashfull: None,
        multipv: None,
        message: None,
    }
}

/// The value token after a keyword, read as a `u32`; none when there is no
/// token or it is not a number.
pub open spec fn next_u32(r: Seq<Seq<char>>) -> Option<u32> {
    if r.len() > 0 { parse_u32_spec(r[0]) } else { None }
}

pub open spec fn next_u64(r: Seq<Seq<char>>) -> Option<u64> {
    if r.len() > 0 { parse_u64_spec(r[0]) } else { None }
}

/// The tokens after a keyword and its value token (if there is one).
pub open spec fn after_value(r: Seq<Seq<char>>) -> Seq<Seq<char>> {
    if r.len() > 0 { r.drop_first() } else { r }
}

/// The score that the tokens after `score` give: a kind (`cp` or `mate`)
/// and a signed value.
pub open spec fn score_of(r: Seq<Seq<char>>) -> Option<Score> {
    if r.len() >= 2 {
        match parse_i32_spec(r[1]) {
            Some(val) => if r[0] == "cp"@ {
                Some(Score::Centipawns(val))
            } else if r[0] == "mate"@ {
                Some(Score::Mate(val))
            } else {
                None
            },
            None => None,
        }
    } else {
        None
    }
}

/// How many tokens after `score` are read: the kind and the value (as far
/// as there are any), and a `lowerbound` or `upperbound` marker after a
/// score that was read.
pub open spec fn score_used(r: Seq<Seq<char>>) -> int {
    if r.len() <= 2 {
        r.len() as int
    } else if score_of(r) is Some && (r[2] == "lowerbound"@ || r[2] == "upperbound"@) {
        3
    } else {
        2
    }
}

/// The tokens of an `info` line read in turn into `m`: each known keyword
/// takes the token after it as its value, `score` takes a kind (`cp` or
/// `mate`) and a value and an optional bound marker, `pv` and `string` take
/// all the rest; unknown tokens are skipped.
pub open spec fn info_run(m: InfoModel, toks: Seq<Seq<char>>) -> InfoModel
    decreases toks.len(),
{
    if toks.len() == 0 {
        m
    } else {
        let t = toks[0];
        let r = toks.drop_first();
        if t == "depth"@ {
            info_run(InfoModel { depth: next_u32(r), ..m }, after_value(r))
        } else if t == "seldepth"@ {
            info_run(InfoModel { seldepth: next_u32(r), ..m }, after_value(r))
        } else if t == "multipv"@ {
            info_run(InfoModel { multipv: next_u32(r), ..m }, after_value(r))
        } else if t == "nodes"@ {
            info_run(InfoModel { nodes: next_u64(r), ..m }, after_value(r))
        } else if t == "nps"@ {
            info_run(InfoModel { nps: next_u64(r), ..m }, after_value(r))
        } else if t == "time"@ {
            info_run(InfoModel { time_ms: next_u64(r), ..m }, after_value(r))
        } else if t == "hashfull"@ {
            info_run(InfoModel { hashfull: next_u32(r), ..m }, after_value(r))
        } else if t == "score"@ {
            let c = score_used(r);
            info_run(match score_of(r) {
                Some(sc) => InfoModel { score: Some(sc), ..m },
                None => m,
            }, r.subrange(c, r.len() as int))
        } else if t == "pv"@ {
            InfoModel { pv: r, ..m }
        } else if t == "string"@ {
            if r.len() > 0 { InfoModel { message: Some(join_words(r)), ..m } } else { m }
        } else {
            info_run(m, r)
        }
    }
}

/// What an `info` line says: nothing unless it starts with `info`; else its
/// remaining tokens read into an empty record.
pub open spec fn info_line_spec(line: Seq<char>) -> Option<InfoModel> {
    if line.len() >= 4 && line.subrange(0, 4) == "info"@ {
        Some(info_run(empty_info(), words(line.subrange(4, line.len() as int))))
    } else {
        None
    }
}

impl AnalysisInfo {
    fn empty() -> (a: Self)
        ensures
            a@ == empty_info(),
    {
        let a = Self {
            depth: None,
            seldepth: None,
            score: None,
            pv: Vec::new(),
            nodes: None,
            nps: None,
            time_ms: None,
            hashfull: None,
            multipv: None,
            message: None,
        };
        assert(a.pv.deep_view() =~= Seq::<Seq<char>>::empty());
        a
    }
}

/// `s` starts with the characters of `p`.
pub(crate) fn starts_with(s: &[char], p: &str) -> (b: bool)
    ensures
        b == (s@.len() >= p@.len() && s@.subrange(0, p@.len() as int) == p@),
{
    let pc = chars_of(p);
    if s.len() < pc.len() {
        return false;
    }
    let head = crate::text::copy_range(s, 0, pc.len());
    crate::text::chars_eq(head.as_slice(), pc.as_slice())
}

/// Copies the words `ws[lo..]` into strings.
fn strings_from(ws: &Vec<Vec<char>>, lo: usize) -> (r: Vec<String>)
    requires
        lo <= ws@.len(),
    ensures
        r.deep_view() == ws.deep_view().subrange(lo as int, ws@.len() as int),
{
    let mut r: Vec<String> = Vec::new();
    let mut i = lo;
    while i < ws.len()
        invariant
            lo <= i <= ws@.len(),
            r.deep_view() == ws.deep_view().subrange(lo as int, i as int),
        decreases ws@.len() - i,
    {
        let ghost before = r.deep_view();
        let st = string_from_chars(ws[i].as_slice());
        let ghost sv = st@;
        r.push(st);
        assert(r.deep_view() =~= before.push(sv));
        assert(ws@[i as int].deep_view() =~= ws@[i as int]@);
        assert(ws.deep_view().subrange(lo as int, i + 1) =~= ws.deep_view().subrange(lo as int, i as int).push(ws@[i as int]@));
        i = i + 1;
    }
    r
}

proof fn lemma_deep_index(ws: Vec<Vec<char>>, k: int)
    requires
        0 <= k < ws@.len(),
    ensures
        ws.deep_view()[k] == ws@[k]@,
{
    assert(ws@[k].deep_view() =~= ws@[k]@);
}

/// Reads the value token after the keyword at `i` as a `u32`.
fn read_u32_after(toks: &Vec<Vec<char>>, i: usize) -> (r: (Option<u32>, usize))
    requires
        i < toks@.len(),
    ensures
        r.0 == next_u32(toks.deep_view().subrange(i + 1, toks@.len() as int)),
        toks.deep_view().subrange(r.1 as int, toks@.len() as int) == after_value(toks.deep_view().subrange(i + 1, toks@.len() as int)),
        i < r.1 <= toks@.len(),
{
    let ghost r0 = toks.deep_view().subrange(i + 1, toks@.len() as int);
    if i < toks.len() - 1 {
        proof {
            lemma_deep_index(*toks, i + 1);
        }
        assert(r0.drop_first() =~= toks.deep_view().subrange(i + 2, toks@.len() as int));
        (parse_u32(toks[i + 1].as_slice()), i + 2)
    } else {
        (None, i + 1)
    }
}

/// Reads the value token after the keyword at `i` as a `u64`.
fn read_u64_after(toks: &Vec<Vec<char>>, i: usize) -> (r: (Option<u64>, usize))
    requires
        i < toks@.len(),
    ensures
        r.0 == next_u64(toks.deep_view().subrange(i + 1, toks@.len() as int)),
        toks.deep_view().subrange(r.1 as int, toks@.len() as int) == after_value(toks.deep_view().subrange(i + 1, toks@.len() as int)),
        i < r.1 <= toks@.len(),
{
    let ghost r0 = toks.deep_view().subrange(i + 1, toks@.len() as int);
    if i < toks.len() - 1 {
        proof {
            lemma_deep_index(*toks, i + 1);
        }
        assert(r0.drop_first() =~= toks.deep_view().subrange(i + 2, toks@.len() as int));
        (parse_u64(toks[i + 1].as_slice()), i + 2)
    } else {
        (None, i + 1)
    }
}

/// Reads `score <kind> <value> [bound]` at `i`: the score, if any, and
/// where reading goes on.
fn read_score_after(toks: &Vec<Vec<char>>, i: usize) -> (r: (Option<Score>, usize))
    requires
        i < toks@.len(),
    ensures
        r.0 == score_of(toks.deep_view().subrange(i + 1, toks@.len() as int)),
        r.1 == i + 1 + score_used(toks.deep_view().subrange(i + 1, toks@.len() as int)),
        i < r.1 <= toks@.len(),
{
    let n = toks.len();
    let ghost tv = toks.deep_view();
    let ghost r0 = tv.subrange(i + 1, tv.len() as int);
    if n - i <= 3 {
        if n - i == 3 {
            proof {
                lemma_deep_index(*toks, i + 1);
                lemma_deep_index(*toks, i + 2);
            }
            assert(r0[0] == tv[i + 1]);
            assert(r0[1] == tv[i + 2]);
            let v = parse_i32(toks[i + 2].as_slice());
            let kind = toks[i + 1].as_slice();
            let sc = match v {
                Some(val) => if chars_eq_str(kind, "cp") {
                    Some(Score::Centipawns(val))
                } else if chars_eq_str(kind, "mate") {
                    Some(Score::Mate(val))
                } else {
                    None
                },
                None => None,
            };
            return (sc, n);
        }
        return (None, n);
    }
    proof {
        lemma_deep_index(*toks, i + 1);
        lemma_deep_index(*toks, i + 2);
        lemma_deep_index(*toks, i + 3);
    }
    assert(r0[0] == tv[i + 1]);
    assert(r0[1] == tv[i + 2]);
    assert(r0[2] == tv[i + 3]);
    let v = parse_i32(toks[i + 2].as_slice());
    let kind = toks[i + 1].as_slice();
    let sc = match v {
        Some(val) => if chars_eq_str(kind, "cp") {
            Some(Score::Centipawns(val))
        } else if chars_eq_str(kind, "mate") {
            Some(Score::Mate(val))
        } else {
            None
        },
        None => None,
    };
    if sc.is_some() && (chars_eq_str(toks[i + 3].as_slice(), "lowerbound") || chars_eq_str(toks[i + 3].as_slice(), "upperbound")) {
        (sc, i + 4)
    } else {
        (sc, i + 3)
    }
}

/// Parses an `info …` line into an [`AnalysisInfo`]; unknown tokens are
/// skipped.
pub fn parse_info_line(line: &str) -> (r: Option<AnalysisInfo>)
    ensures
        match info_line_spec(line@) {
            Some(m) => r matches Some(a) && a@ == m,
            None => r is None,
        },
{
    let cs = chars_of(line);
    proof {
        reveal_strlit("info");
    }
    if !starts_with(cs.as_slice(), "info") {
        return None;
    }
    let rest = crate::text::copy_range(cs.as_slice(), 4, cs.len());
    let toks = split_whitespace(rest.as_slice());
    let ghost tv = toks.deep_view();
    let mut info = AnalysisInfo::empty();
    let mut i: usize = 0;
    assert(tv.subrange(0, tv.len() as int) =~= tv);
    while i < toks.len()
        invariant
            i <= toks@.len(),
            tv == toks.deep_view(),
            info_run(empty_info(), tv) == info_run(info@, tv.subrange(i as int, tv.len() as int)),
        decreases toks@.len() - i,
    {
        let ghost rest_t = tv.subrange(i as int, tv.len() as int);
        proof {
            lemma_deep_index(toks, i as int);
        }
        let t = toks[i].as_slice();
        assert(rest_t[0] == t@);
        assert(rest_t.drop_first() =~= tv.subrange(i + 1, tv.len() as int));
        let n = toks.len();
        if chars_eq_str(t, "depth") {
            let (v, j) = read_u32_after(&toks, i);
            info.depth = v;
            i = j;
        } else if chars_eq_str(t, "seldepth") {
            let (v, j) = read_u32_after(&toks, i);
            info.seldepth = v;
            i = j;
        } else if chars_eq_str(t, "multipv") {
            let (v, j) = read_u32_after(&toks, i);
            info.multipv = v;
            i = j;
        } else if chars_eq_str(t, "nodes") {
            let (v, j) = read_u64_after(&toks, i);
            info.nodes = v;
            i = j;
        } else if chars_eq_str(t, "nps") {
            let (v, j) = read_u64_after(&toks, i);
            info.nps = v;
            i = j;
        } else if chars_eq_str(t, "time") {
            let (v, j) = read_u64_after(&toks, i);
            info.time_ms = v;
            i = j;
        } else if chars_eq_str(t, "hashfull") {
            let (v, j) = read_u32_after(&toks, i);
            info.hashfull = v;
            i = j;
        } else if chars_eq_str(t, "score") {
            let (sc, j) = read_score_after(&toks, i);
            match sc {
                Some(x) => {
                    info.score = Some(x);
                },
                None => {},
            }
            let ghost r0 = tv.subrange(i + 1, tv.len() as int);
            assert(r0.subrange(score_used(r0), r0.len() as int) =~= tv.subrange(j as int, tv.len() as int));
            i = j;
        } else if chars_eq_str(t, "pv") {
            info.pv = strings_from(&toks, i + 1);
            i = n;
            assert(tv.subrange(n as int, tv.len() as int) =~= Seq::<Seq<char>>::empty());
        } else if chars_eq_str(t, "string") {
            if i < n - 1 {
                info.message = Some(join_range(&toks, i + 1, n));
            }
            i = n;
            assert(tv.subrange(n as int, tv.len() as int) =~= Seq::<Seq<char>>::empty());
        } else {
            i = i + 1;
        }
    }
    Some(info)
}

/// An option advertised by the engine during the UCI handshake.
#[derive(Debug, Clone)]
pub struct UciOption {
    pub name: String,
    pub kind: String,
    pub default: Option<String>,
    pub min: Option<String>,
    pub max: Option<String>,
    pub vars: Vec<String>,
}

/// The contents of an `option` line.
pub struct OptionModel {
    pub name: Seq<char>,
    pub kind: Seq<char>,
    pub default: Option<Seq<char>>,
    pub min: Option<Seq<char>>,
    pub max: Option<Seq<char>>,
    pub vars: Seq<Seq<char>>,
}

impl View for UciOption {
    type V = OptionModel;

    open spec fn view(&self) -> OptionModel {
        OptionModel {
            name: self.name@,
            kind: self.kind@,
            default: opt_text(self.default),
            min: opt_text(self.min),
            max: opt_text(self.max),
            vars: self.vars.deep_view(),
        }
    }
}

/// Basic identity information returned by the engine.
#[derive(Debug, Clone)]
pub struct EngineInfo {
    pub name: Option<String>,
    pub author: Option<String>,
    pub options: Vec<UciOption>,
}

impl Default for EngineInfo {
    fn default() -> (e: Self)
        ensures
            e.name is None,
            e.author is None,
            e.options@.len() == 0,
    {
        Self { name: None, author: None, options: Vec::new() }
    }
}

/// The keywords of an `option` line.
pub open spec fn is_option_keyword(w: Seq<char>) -> bool {
    w == "name"@ || w == "type"@ || w == "default"@ || w == "min"@ || w == "max"@ || w == "var"@
}

/// An option with nothing set.
pub open spec fn empty_option() -> OptionModel {
    OptionModel { name: Seq::empty(), kind: Seq::empty(), default: None, min: None, max: None, vars: Seq::empty() }
}

/// The words after keyword `key` stored as its value.
pub open spec fn store_value(m: OptionModel, key: Option<Seq<char>>, vals: Seq<Seq<char>>) -> OptionModel {
    let v = join_words(vals);
    match key {
        None => m,
        Some(k) => if k == "name"@ {
            OptionModel { name: v, ..m }
        } else if k == "type"@ {
            OptionModel { kind: v, ..m }
        } else if k == "default"@ {
            OptionModel { default: Some(v), ..m }
        } else if k == "min"@ {
            OptionModel { min: Some(v), ..m }
        } else if k == "max"@ {
            OptionModel { max: Some(v), ..m }
        } else {
            OptionModel { vars: m.vars.push(v), ..m }
        },
    }
}

/// Reading state of an `option` line after the tokens `toks`: the current
/// keyword, the words that will make its value (for the first keyword, the
/// words before it too), and the option so far.
pub open spec fn option_fold(toks: Seq<Seq<char>>) -> (Option<Seq<char>>, Seq<Seq<char>>, OptionModel)
    decreases toks.len(),
{
    if toks.len() == 0 {
        (None, Seq::empty(), empty_option())
    } else {
        let (key, vals, m) = option_fold(toks.drop_last());
        let w = toks.last();
        if is_option_keyword(w) {
            (Some(w), if key is Some { Seq::empty() } else { vals }, store_value(m, key, vals))
        } else {
            (key, vals.push(w), m)
        }
    }
}

/// What an `option` line says: after `option `, each keyword's value runs
/// to the next keyword, and words before the first keyword join the first
/// keyword's value; nothing unless the line has a non-empty name.
pub open spec fn option_line_spec(line: Seq<char>) -> Option<OptionModel> {
    if line.len() >= 7 && line.subrange(0, 7) == "option "@ {
        let (key, vals, m) = option_fold(words(line.subrange(7, line.len() as int)));
        let fin = store_value(m, key, vals);
        if fin.name.len() > 0 { Some(fin) } else { None }
    } else {
        None
    }
}

/// Stores the words `toks[lo..hi]` as the value of keyword `key`.
fn store_into(opt: &mut UciOption, key: &[char], toks: &Vec<Vec<char>>, lo: usize, hi: usize)
    requires
        lo <= hi <= toks@.len(),
        is_option_keyword(key@),
    ensures
        final(opt)@ == store_value(old(opt)@, Some(key@), toks.deep_view().subrange(lo as int, hi as int)),
{
    let v = join_range(toks, lo, hi);
    if chars_eq_str(key, "name") {
        opt.name = v;
    } else if chars_eq_str(key, "type") {
        opt.kind = v;
    } else if chars_eq_str(key, "default") {
        opt.default = Some(v);
    } else if chars_eq_str(key, "min") {
        opt.min = Some(v);
    } else if chars_eq_str(key, "max") {
        opt.max = Some(v);
    } else {
        let ghost before = opt.vars.deep_view();
        let ghost vv = v@;
        opt.vars.push(v);
        assert(opt.vars.deep_view() =~= before.push(vv));
    }
}

fn is_keyword(w: &[char]) -> (b: bool)
    ensures
        b == is_option_keyword(w@),
{
    chars_eq_str(w, "name") || chars_eq_str(w, "type") || chars_eq_str(w, "default") || chars_eq_str(w, "min")
        || chars_eq_str(w, "max") || chars_eq_str(w, "var")
}

/// Parses an `option name … type … default … min … max … var …` line.
pub fn parse_option_line(line: &str) -> (r: Option<UciOption>)
    ensures
        match option_line_spec(line@) {
            Some(m) => r matches Some(o) && o@ == m,
            None => r is None,
        },
{
    let cs = chars_of(line);
    proof {
        reveal_strlit("option ");
    }
    if !starts_with(cs.as_slice(), "option ") {
        return None;
    }
    let rest = crate::text::copy_range(cs.as_slice(), 7, cs.len());
    let toks = split_whitespace(rest.as_slice());
    let ghost tv = toks.deep_view();
    let mut opt = UciOption {
        name: String::new(),
        kind: String::new(),
        default: None,
        min: None,
        max: None,
        vars: Vec::new(),
    };
    assert(opt.vars.deep_view() =~= Seq::<Seq<char>>::empty());
    let mut key: Option<usize> = None;
    let mut vals: Vec<Vec<char>> = Vec::new();
    let mut i: usize = 0;
    assert(tv.subrange(0, 0) =~= Seq::<Seq<char>>::empty());
    assert(vals.deep_view() =~= Seq::<Seq<char>>::empty());
    while i < toks.len()
        invariant
            i <= toks@.len(),
            tv == toks.deep_view(),
            key matches Some(k) ==> k < i && is_option_keyword(tv[k as int]),
            ({
                let (fk, fv, fm) = option_fold(tv.subrange(0, i as int));
                &&& fk == match key { Some(k) => Some(tv[k as int]), None => None::<Seq<char>> }
                &&& fv == vals.deep_view()
                &&& fm == opt@
            }),
        decreases toks@.len() - i,
    {
        proof {
            lemma_deep_index(toks, i as int);
        }
        let ghost pre = tv.subrange(0, i as int);
        let ghost post = tv.subrange(0, i + 1);
        assert(post.drop_last() =~= pre);
        assert(post.last() == tv[i as int]);
        if is_keyword(toks[i].as_slice()) {
            match key {
                Some(k) => {
                    proof {
                        lemma_deep_index(toks, k as int);
                    }
                    store_into(&mut opt, toks[k].as_slice(), &vals, 0, vals.len());
                    assert(vals.deep_view().subrange(0, vals@.len() as int) =~= vals.deep_view());
                    vals = Vec::new();
                    assert(vals.deep_view() =~= Seq::<Seq<char>>::empty());
                },
                None => {},
            }
            key = Some(i);
        } else {
            let ghost before = vals.deep_view();
            let w = crate::text::copy_range(toks[i].as_slice(), 0, toks[i].len());
            assert(toks[i as int]@.subrange(0, toks[i as int]@.len() as int) =~= toks[i as int]@);
            vals.push(w);
            assert(vals.deep_view() =~= before.push(tv[i as int]));
        }
        i = i + 1;
    }
    assert(tv.subrange(0, tv.len() as int) =~= tv);
    match key {
        Some(k) => {
            proof {
                lemma_deep_index(toks, k as int);
            }
            store_into(&mut opt, toks[k].as_slice(), &vals, 0, vals.len());
            assert(vals.deep_view().subrange(0, vals@.len() as int) =~= vals.deep_view());
        },
        None => {},
    }
    if opt.name.as_str().unicode_len() == 0 {
        return None;
    }
    Some(opt)
}

/// What a `bestmove` line says: nothing unless it starts with `bestmove `
/// once trimmed; else the move and the ponder suggestion after `ponder`, or
/// an error when the engine names no move.
pub open spec fn bestmove_spec(line: Seq<char>) -> Option<Result<(Seq<char>, Option<Seq<char>>), Seq<char>>> {
    let t = trim_ws(line);
    if t.len() >= 9 && t.subrange(0, 9) == "bestmove "@ {
        let toks = words(t.subrange(9, t.len() as int));
        let best = if toks.len() > 0 { toks[0] } else { Seq::empty() };
        if best.len() == 0 || best == "(none)"@ {
            Some(Err("engine returned no bestmove"@))
        } else {
            Some(Ok((best, if toks.len() > 2 && toks[1] == "ponder"@ { Some(toks[2]) } else { None })))
        }
    } else {
        None
    }
}

/// Reads a `bestmove <move> [ponder <move>]` line.
pub fn parse_bestmove_line(line: &str) -> (r: Option<Result<PlayResult, UciError>>)
    ensures
        match bestmove_spec(line@) {
            None => r is None,
            Some(Ok((best, ponder))) => r matches Some(Ok(p)) && p.best_move@ == best && opt_text(p.ponder_move) == ponder,
            Some(Err(msg)) => r matches Some(Err(UciError::EngineError(m))) && m@ == msg,
        },
{
    let cs = chars_of(line);
    let t = trim_whitespace(cs.as_slice());
    proof {
        reveal_strlit("bestmove ");
    }
    if !starts_with(t.as_slice(), "bestmove ") {
        return None;
    }
    let rest = crate::text::copy_range(t.as_slice(), 9, t.len());
    let toks = split_whitespace(rest.as_slice());
    let ghost tv = toks.deep_view();
    if toks.len() == 0 || chars_eq_str(toks[0].as_slice(), "(none)") {
        proof {
            if toks@.len() > 0 {
                lemma_deep_index(toks, 0);
            }
        }
        return Some(Err(UciError::EngineError(String::from_str("engine returned no bestmove"))));
    }
    proof {
        lemma_deep_index(toks, 0);
    }
    if toks[0].len() == 0 {
        return Some(Err(UciError::EngineError(String::from_str("engine returned no bestmove"))));
    }
    let best = string_from_chars(toks[0].as_slice());
    let ponder = if toks.len() > 2 && chars_eq_str(toks[1].as_slice(), "ponder") {
        proof {
            lemma_deep_index(toks, 1);
            lemma_deep_index(toks, 2);
        }
        Some(string_from_chars(toks[2].as_slice()))
    } else {
        proof {
            if toks@.len() > 2 {
                lemma_deep_index(toks, 1);
            }
        }
        None
    };
    Some(Ok(PlayResult { best_move: best, ponder_move: ponder }))
}

/// The score of the main line: among the lines of multi-PV index 1 (or
/// none), the last one of greatest depth (an unknown depth counting as 0).
pub open spec fn main_line_index(infos: Seq<InfoModel>) -> Option<int> {
    if exists|i: int| is_main_line_pick(infos, i) {
        Some(choose|i: int| is_main_line_pick(infos, i))
    } else {
        None
    }
}

pub open spec fn on_main_line(m: InfoModel) -> bool {
    match m.multipv {
        Some(k) => k == 1,
        None => true,
    }
}

pub open spec fn depth_or_zero(m: InfoModel) -> u32 {
    match m.depth {
        Some(d) => d,
        None => 0,
    }
}

/// `i` is the last main-line entry of greatest depth.
pub open spec fn is_main_line_pick(infos: Seq<InfoModel>, i: int) -> bool {
    &&& 0 <= i < infos.len()
    &&& on_main_line(infos[i])
    &&& forall|j: int| 0 <= j < infos.len() && on_main_line(#[trigger] infos[j]) ==> depth_or_zero(infos[j]) <= depth_or_zero(infos[i])
    &&& forall|j: int| i < j < infos.len() && on_main_line(#[trigger] infos[j]) ==> depth_or_zero(infos[j]) < depth_or_zero(infos[i])
}

/// The views of some `info` records.
pub open spec fn info_views(infos: Seq<AnalysisInfo>) -> Seq<InfoModel> {
    infos.map_values(|a: AnalysisInfo| a@)
}

/// Returns the score of the deepest main line (multi-PV index 1) among the
/// `info` records, the last one where several are equally deep.
pub fn main_line_score(infos: &[AnalysisInfo]) -> (r: Option<Score>)
    ensures
        match main_line_index(info_views(infos@)) {
            Some(i) => r == infos@[i].score,
            None => r is None,
        },
{
    let ghost v = info_views(infos@);
    let mut best: Option<usize> = None;
    let mut i: usize = 0;
    while i < infos.len()
        invariant
            i <= infos@.len(),
            v == info_views(infos@),
            v.len() == infos@.len(),
            match best {
                Some(b) => b < i && is_main_line_pick(v.subrange(0, i as int), b as int),
                None => forall|j: int| 0 <= j < i ==> !on_main_line(#[trigger] v[j]),
            },
        decreases infos@.len() - i,
    {
        let info = &infos[i];
        assert(v[i as int] == info@);
        let main = match info.multipv {
            Some(k) => k == 1,
            None => true,
        };
        if main {
            let d = match info.depth {
                Some(x) => x,
                None => 0,
            };
            match best {
                Some(b) => {
                    let bd = match infos[b].depth {
                        Some(x) => x,
                        None => 0,
                    };
                    assert(v[b as int] == infos@[b as int]@);
                    if d >= bd {
                        best = Some(i);
                    }
                },
                None => {
                    best = Some(i);
                },
            }
        }
        proof {
            let w = v.subrange(0, i + 1);
            assert forall|j: int| 0 <= j < i implies #[trigger] w[j] == v.subrange(0, i as int)[j] by {}
            match best {
                Some(b) => {
                    assert(is_main_line_pick(w, b as int));
                },
                None => {},
            }
        }
        i = i + 1;
    }
    proof {
        assert(v.subrange(0, v.len() as int) =~= v);
        match best {
            Some(b) => {
                let k = choose|k: int| is_main_line_pick(v, k);
                assert(k == b);
            },
            None => {
                if exists|k: int| is_main_line_pick(v, k) {
                    let k = choose|k: int| is_main_line_pick(v, k);
                    assert(!on_main_line(v[k]));
                }
            },
        }
    }
    match best {
        Some(b) => {
            assert(v[b as int] == infos@[b as int]@);
            infos[b].score
        },
        None => None,
    }
}

/// `[pv <k>] ` when the record names its line.
pub open spec fn line_label(k: Option<u32>) -> Seq<char> {
    match k {
        Some(x) => "[pv "@ + decimal(x as nat) + "] "@,
        None => Seq::empty(),
    }
}

/// `depth <d> ` when the record has a depth.
pub open spec fn depth_label(d: Option<u32>) -> Seq<char> {
    match d {
        Some(x) => "depth "@ + decimal(x as nat) + " "@,
        None => Seq::empty(),
    }
}

/// `score <score> ` when the record has a score.
pub open spec fn score_label(sc: Option<Score>) -> Seq<char> {
    match sc {
        Some(x) => "score "@ + x.text_spec() + " "@,
        None => Seq::empty(),
    }
}

/// `pv <moves>` when the record has a principal variation.
pub open spec fn pv_label(pv: Seq<Seq<char>>) -> Seq<char> {
    if pv.len() > 0 { "pv "@ + join_words(pv) } else { Seq::empty() }
}

/// An `info` record as text: a free-text message as `[engine] …`, else the
/// line index, depth, score and principal variation that are present.
pub open spec fn info_text(m: InfoModel) -> Seq<char> {
    match m.message {
        Some(msg) => "[engine] "@ + msg,
        None => line_label(m.multipv) + depth_label(m.depth) + score_label(m.score) + pv_label(m.pv),
    }
}

fn push_line_label(s: &mut String, k: Option<u32>)
    ensures
        final(s)@ == old(s)@ + line_label(k),
{
    match k {
        Some(x) => {
            s.append("[pv ");
            push_decimal(s, x);
            s.append("] ");
            assert(final(s)@ =~= old(s)@ + ("[pv "@ + decimal(x as nat) + "] "@));
        },
        None => {
            assert(final(s)@ =~= old(s)@ + Seq::<char>::empty());
        },
    }
}

fn push_depth_label(s: &mut String, d: Option<u32>)
    ensures
        final(s)@ == old(s)@ + depth_label(d),
{
    match d {
        Some(x) => {
            s.append("depth ");
            push_decimal(s, x);
            s.append(" ");
            assert(final(s)@ =~= old(s)@ + ("depth "@ + decimal(x as nat) + " "@));
        },
        None => {
            assert(final(s)@ =~= old(s)@ + Seq::<char>::empty());
        },
    }
}

fn push_score_label(s: &mut String, sc: Option<Score>)
    requires
        !(sc matches Some(Score::Mate(n)) && n == i32::MIN),
    ensures
        final(s)@ == old(s)@ + score_label(sc),
{
    match sc {
        Some(x) => {
            s.append("score ");
            let t = x.to_string();
            s.append(t.as_str());
            s.append(" ");
            assert(final(s)@ =~= old(s)@ + ("score "@ + x.text_spec() + " "@));
        },
        None => {
            assert(final(s)@ =~= old(s)@ + Seq::<char>::empty());
        },
    }
}

fn push_pv_label(s: &mut String, pv: &Vec<String>)
    ensures
        final(s)@ == old(s)@ + pv_label(pv.deep_view()),
{
    if pv.len() > 0 {
        s.append("pv ");
        let joined = join_strings(pv);
        s.append(joined.as_str());
        assert(final(s)@ =~= old(s)@ + ("pv "@ + join_words(pv.deep_view())));
    } else {
        assert(final(s)@ =~= old(s)@ + Seq::<char>::empty());
    }
}

impl AnalysisInfo {
    /// The record as text: a free-text message as `[engine] …`, else the
    /// line index, depth, score and principal variation that are present.
    pub fn to_string(&self) -> (s: String)
        requires
            !(self.score matches Some(Score::Mate(n)) && n == i32::MIN),
        ensures
            s@ == info_text(self@),
    {
        match &self.message {
            Some(msg) => {
                let mut s = String::from_str("[engine] ");
                s.append(msg.as_str());
                return s;
            },
            None => {},
        }
        let mut s = String::new();
        push_line_label(&mut s, self.multipv);
        let ghost a = line_label(self.multipv);
        assert(s@ =~= a);
        push_depth_label(&mut s, self.depth);
        let ghost b = a + depth_label(self.depth);
        push_score_label(&mut s, self.score);
        let ghost c = b + score_label(self.score);
        proof { lemma_concat_associative(a, depth_label(self.depth), score_label(self.score)); }
        push_pv_label(&mut s, &self.pv);
        s
    }
}

/// The multi-PV line of a record (line 1 when the engine names none).
pub open spec fn line_of(m: InfoModel) -> u32 {
    match m.multipv {
        Some(k) => k,
        None => 1,
    }
}

/// `i` is the last record of line `k` of greatest depth.
pub open spec fn is_line_pick(infos: Seq<InfoModel>, k: u32, i: int) -> bool {
    &&& 0 <= i < infos.len()
    &&& line_of(infos[i]) == k
    &&& forall|j: int| 0 <= j < infos.len() && line_of(#[trigger] infos[j]) == k ==> depth_or_zero(infos[j]) <= depth_or_zero(infos[i])
    &&& forall|j: int| i < j < infos.len() && line_of(#[trigger] infos[j]) == k ==> depth_or_zero(infos[j]) < depth_or_zero(infos[i])
}

/// How many of the sorted keys `ks` are below `k`.
pub open spec fn count_below(ks: Seq<u32>, k: u32) -> int
    decreases ks.len(),
{
    if ks.len() == 0 {
        0
    } else {
        count_below(ks.drop_last(), k) + if ks.last() < k { 1int } else { 0int }
    }
}

/// The line numbers of the records, each once, in ascending order.
pub open spec fn line_keys(infos: Seq<InfoModel>) -> Seq<u32>
    decreases infos.len(),
{
    if infos.len() == 0 {
        Seq::empty()
    } else {
        let ks = line_keys(infos.drop_last());
        let k = line_of(infos.last());
        if ks.contains(k) { ks } else { ks.insert(count_below(ks, k), k) }
    }
}

/// The best move and score of each line, lines in ascending order: the
/// first move of the principal variation of the line's pick, when it has one.
pub open spec fn top_entries(infos: Seq<InfoModel>, ks: Seq<u32>) -> Seq<(Seq<char>, Option<Score>)>
    decreases ks.len(),
{
    if ks.len() == 0 {
        Seq::empty()
    } else {
        let rest = top_entries(infos, ks.drop_first());
        let i = choose|i: int| is_line_pick(infos, ks[0], i);
        if infos[i].pv.len() > 0 { seq![(infos[i].pv[0], infos[i].score)] + rest } else { rest }
    }
}

/// The top moves that a multi-PV search reports.
pub open spec fn top_moves_spec(infos: Seq<InfoModel>) -> Seq<(Seq<char>, Option<Score>)> {
    top_entries(infos, line_keys(infos))
}

/// Each key is below the next.
pub open spec fn strictly_increasing(ks: Seq<u32>) -> bool {
    forall|a: int, b: int| 0 <= a < b < ks.len() ==> ks[a] < ks[b]
}

proof fn lemma_count_below(ks: Seq<u32>, k: u32)
    requires
        strictly_increasing(ks),
    ensures
        0 <= count_below(ks, k) <= ks.len(),
        forall|a: int| 0 <= a < count_below(ks, k) ==> ks[a] < k,
        forall|a: int| count_below(ks, k) <= a < ks.len() ==> ks[a] >= k,
    decreases ks.len(),
{
    if ks.len() > 0 {
        let ks0 = ks.drop_last();
        assert(strictly_increasing(ks0)) by {
            assert forall|a: int, b: int| 0 <= a < b < ks0.len() implies ks0[a] < ks0[b] by {
                assert(ks[a] < ks[b]);
            }
        }
        lemma_count_below(ks0, k);
        assert forall|a: int| 0 <= a < ks0.len() implies ks[a] == ks0[a] by {}
        if ks.last() < k {
            assert forall|a: int| 0 <= a < ks0.len() implies ks0[a] < k by {
                assert(ks[a] < ks[ks.len() - 1]);
            }
        }
    }
}

/// The entries of a sorted table of lines (line, index of its pick).
fn line_table(infos: &[AnalysisInfo]) -> (t: Vec<(u32, usize)>)
    ensures
        t@.map_values(|e: (u32, usize)| e.0) == line_keys(info_views(infos@)),
        forall|p: int| 0 <= p < t@.len() ==> #[trigger] is_line_pick(info_views(infos@), t@[p].0, t@[p].1 as int),
{
    let ghost v = info_views(infos@);
    let mut t: Vec<(u32, usize)> = Vec::new();
    let mut i: usize = 0;
    assert(t@.map_values(|e: (u32, usize)| e.0) =~= Seq::<u32>::empty());
    while i < infos.len()
        invariant
            i <= infos@.len(),
            v == info_views(infos@),
            v.len() == infos@.len(),
            t@.map_values(|e: (u32, usize)| e.0) == line_keys(v.subrange(0, i as int)),
            strictly_increasing(t@.map_values(|e: (u32, usize)| e.0)),
            forall|p: int| 0 <= p < t@.len() ==> #[trigger] is_line_pick(v.subrange(0, i as int), t@[p].0, t@[p].1 as int),
        decreases infos@.len() - i,
    {
        let info = &infos[i];
        assert(v[i as int] == info@);
        let k: u32 = match info.multipv {
            Some(x) => x,
            None => 1,
        };
        let d: u32 = match info.depth {
            Some(x) => x,
            None => 0,
        };
        let ghost ks = t@.map_values(|e: (u32, usize)| e.0);
        let ghost pre = v.subrange(0, i as int);
        let ghost post = v.subrange(0, i + 1);
        assert(post.drop_last() =~= pre);
        assert(post.last() == v[i as int]);
        assert forall|j: int| 0 <= j < i implies #[trigger] post[j] == pre[j] by {}
        let mut p: usize = 0;
        while p < t.len() && t[p].0 < k
            invariant
                p <= t@.len(),
                ks == t@.map_values(|e: (u32, usize)| e.0),
                forall|a: int| 0 <= a < p ==> ks[a] < k,
            decreases t@.len() - p,
        {
            p = p + 1;
        }
        proof {
            lemma_count_below(ks, k);
            if count_below(ks, k) < p {
                assert(ks[count_below(ks, k) as int] >= k);
            }
            if (p as int) < count_below(ks, k) {
                assert(ks[p as int] < k);
            }
        }
        let ghost t0 = t@;
        if p < t.len() && t[p].0 == k {
            assert(ks.contains(k));
            assert(is_line_pick(pre, t@[p as int].0, t@[p as int].1 as int));
            let bi = t[p].1;
            let bd: u32 = match infos[bi].depth {
                Some(x) => x,
                None => 0,
            };
            assert(v[bi as int] == infos@[bi as int]@);
            if d >= bd {
                t.set(p, (k, i));
            }
            proof {
                assert(t@.map_values(|e: (u32, usize)| e.0) =~= ks);
                assert forall|q: int| 0 <= q < t@.len() implies #[trigger] is_line_pick(post, t@[q].0, t@[q].1 as int) by {
                    assert(is_line_pick(pre, t0[q].0, t0[q].1 as int));
                    if q != p {
                        assert(t@[q] == t0[q]);
                        assert(ks[q] != k) by {
                            if q < p { assert(ks[q] < ks[p as int]); } else { assert(ks[p as int] < ks[q]); }
                        }
                    }
                }
            }
        } else {
            proof {
                if ks.contains(k) {
                    let a = choose|a: int| 0 <= a < ks.len() && ks[a] == k;
                    if a < p {
                        assert(ks[a] < k);
                    } else if a > p {
                        assert(ks[p as int] < ks[a]);
                        assert(ks[p as int] >= k);
                    }
                }
            }
            t.insert(p, (k, i));
            proof {
                assert(t@.map_values(|e: (u32, usize)| e.0) =~= ks.insert(p as int, k));
                let nks = ks.insert(p as int, k);
                assert forall|a: int, b: int| 0 <= a < b < nks.len() implies nks[a] < nks[b] by {
                    if b < p {
                        assert(nks[a] == ks[a] && nks[b] == ks[b]);
                    } else if b == p {
                        assert(nks[a] == ks[a]);
                    } else if a < p {
                        assert(nks[a] == ks[a] && nks[b] == ks[b - 1]);
                        assert(ks[b - 1] >= k);
                    } else if a == p {
                        assert(nks[b] == ks[b - 1]);
                        assert(ks[b - 1] >= k);
                        assert(ks[b - 1] != k) by {
                            assert(!ks.contains(k));
                        }
                    } else {
                        assert(nks[a] == ks[a - 1] && nks[b] == ks[b - 1]);
                    }
                }
                assert forall|q: int| 0 <= q < t@.len() implies #[trigger] is_line_pick(post, t@[q].0, t@[q].1 as int) by {
                    if q < p {
                        assert(t@[q] == t0[q]);
                        assert(is_line_pick(pre, t0[q].0, t0[q].1 as int));
                        assert(ks[q] != k);
                    } else if q > p {
                        assert(t@[q] == t0[q - 1]);
                        assert(is_line_pick(pre, t0[q - 1].0, t0[q - 1].1 as int));
                        assert(ks[q - 1] != k) by {
                            assert(!ks.contains(k));
                        }
                    } else {
                        assert forall|j: int| 0 <= j < i implies line_of(#[trigger] post[j]) != k by {
                            assert(ks.contains(line_of(pre[j]))) by {
                                lemma_line_keys_contains(pre, j);
                            }
                        }
                    }
                }
            }
        }
        i = i + 1;
    }
    assert(v.subrange(0, v.len() as int) =~= v);
    t
}

/// Every record's line is among the line keys.
proof fn lemma_line_keys_contains(infos: Seq<InfoModel>, j: int)
    requires
        0 <= j < infos.len(),
    ensures
        line_keys(infos).contains(line_of(infos[j])),
    decreases infos.len(),
{
    let ks = line_keys(infos.drop_last());
    let k = line_of(infos.last());
    assert(line_keys(infos) == if ks.contains(k) { ks } else { ks.insert(count_below(ks, k), k) });
    lemma_count_below_range(ks, k);
    let c = count_below(ks, k);
    let nks = ks.insert(c, k);
    if j == infos.len() - 1 {
        assert(line_of(infos[j]) == k);
        if !ks.contains(k) {
            assert(nks[c] == k);
            assert(nks.contains(k));
        }
    } else {
        lemma_line_keys_contains(infos.drop_last(), j);
        assert(infos.drop_last()[j] == infos[j]);
        let x = line_of(infos[j]);
        assert(ks.contains(x));
        if !ks.contains(k) {
            let a = choose|a: int| 0 <= a < ks.len() && ks[a] == x;
            if a < c {
                assert(nks[a] == x);
            } else {
                assert(nks[a + 1] == x);
            }
            assert(nks.contains(x));
        }
    }
}

proof fn lemma_count_below_range(ks: Seq<u32>, k: u32)
    ensures
        0 <= count_below(ks, k) <= ks.len(),
    decreases ks.len(),
{
    if ks.len() > 0 {
        lemma_count_below_range(ks.drop_last(), k);
    }
}

/// Returns the top moves of a multi-PV search: for each line, in ascending
/// order, the first move and the score of its deepest record (the last one
/// when several are as deep), skipping lines with no moves.
pub fn top_moves_from_infos(infos: &[AnalysisInfo]) -> (r: Vec<(String, Option<Score>)>)
    ensures
        r@.map_values(|e: (String, Option<Score>)| (e.0@, e.1)) == top_moves_spec(info_views(infos@)),
{
    let t = line_table(infos);
    let ghost v = info_views(infos@);
    let ghost ks = t@.map_values(|e: (u32, usize)| e.0);
    let mut out: Vec<(String, Option<Score>)> = Vec::new();
    let mut p: usize = 0;
    assert(ks.subrange(0, ks.len() as int) =~= ks);
    while p < t.len()
        invariant
            p <= t@.len(),
            ks == t@.map_values(|e: (u32, usize)| e.0),
            ks == line_keys(v),
            v == info_views(infos@),
            v.len() == infos@.len(),
            forall|a: int| 0 <= a < t@.len() ==> #[trigger] is_line_pick(v, t@[a].0, t@[a].1 as int),
            out@.map_values(|e: (String, Option<Score>)| (e.0@, e.1)) + top_entries(v, ks.subrange(p as int, ks.len() as int))
                == top_moves_spec(v),
        decreases t@.len() - p,
    {
        let (k, bi) = t[p];
        let ghost sub = ks.subrange(p as int, ks.len() as int);
        assert(sub[0] == k);
        assert(sub.drop_first() =~= ks.subrange(p + 1, ks.len() as int));
        assert(is_line_pick(v, k, bi as int));
        proof {
            let c = choose|c: int| is_line_pick(v, k, c);
            if c < bi {
                assert(depth_or_zero(v[bi as int]) < depth_or_zero(v[c]));
            } else if c > bi {
                assert(depth_or_zero(v[c]) < depth_or_zero(v[bi as int]));
            }
            assert(c == bi);
        }
        let info = &infos[bi];
        assert(v[bi as int] == info@);
        let ghost before = out@.map_values(|e: (String, Option<Score>)| (e.0@, e.1));
        if info.pv.len() > 0 {
            let mv = info.pv[0].clone();
            assert(info.pv.deep_view()[0] == info.pv@[0]@);
            out.push((mv, info.score));
            assert(out@.map_values(|e: (String, Option<Score>)| (e.0@, e.1)) =~= before.push((info@.pv[0], info.score)));
            assert(before.push((info@.pv[0], info.score)) + top_entries(v, sub.drop_first())
                =~= before + (seq![(info@.pv[0], info.score)] + top_entries(v, sub.drop_first())));
        }
        p = p + 1;
    }
    assert(ks.subrange(ks.len() as int, ks.len() as int) =~= Seq::<u32>::empty());
    assert(out@.map_values(|e: (String, Option<Score>)| (e.0@, e.1)) + Seq::empty()
        =~= out@.map_values(|e: (String, Option<Score>)| (e.0@, e.1)));
    out
}

} // verus!
