//! The decisions of a UCI engine driver: which commands to send, what each
//! line the engine answers means, and what the driver remembers between
//! commands (the position last sent, the read timeout, whether a ponder
//! search runs). Sending and reading are left to the caller, who reports back
//! after each successful send.
use vstd::prelude::*;
use crate::text::{chars_of, string_from_chars, trim_whitespace, trim_ws, u32_to_string, decimal};
use crate::uci::{
    bestmove_spec, go_limits_spec, info_line_spec, opt_text, option_line_spec, parse_bestmove_line,
    parse_info_line, parse_option_line, starts_with, AnalysisInfo, EngineInfo, InfoModel,
    PlayResult, SearchConfig, UciError,
};

verus! {

/// `setoption name <name> value <value>`.
pub open spec fn setoption_spec(name: Seq<char>, value: Seq<char>) -> Seq<char> {
    "setoption name "@ + name + " value "@ + value
}

/// The command that sets an engine option.
pub fn setoption_command(name: &str, value: &str) -> (c: String)
    ensures
        c@ == setoption_spec(name@, value@),
{
    let mut c = String::from_str("setoption name ");
    c.append(name);
    c.append(" value ");
    c.append(value);
    c
}

/// `position fen <fen>`, or `position startpos` when no FEN is given.
pub open spec fn position_spec(fen: Option<Seq<char>>) -> Seq<char> {
    match fen {
        Some(f) => "position fen "@ + f,
        None => "position startpos"@,
    }
}

/// The command that sets the engine's position.
pub fn position_command(fen: Option<&str>) -> (c: String)
    ensures
        c@ == position_spec(match fen { Some(f) => Some(f@), None => None }),
{
    match fen {
        Some(f) => {
            let mut c = String::from_str("position fen ");
            c.append(f);
            c
        },
        None => String::from_str("position startpos"),
    }
}

/// The `MultiPV` option that a search sets first, and whether a failure to
/// send it ends the search: the configured number of lines when there is one
/// (a failure counts); else, when `reset`, one line (a failure is ignored).
pub fn multipv_command(config: &SearchConfig, reset: bool) -> (r: Option<(String, bool)>)
    ensures
        match config.multipv {
            Some(n) => r matches Some((c, strict)) && strict && c@ == setoption_spec("MultiPV"@, decimal(n as nat)),
            None => if reset {
                r matches Some((c, strict)) && !strict && c@ == setoption_spec("MultiPV"@, "1"@)
            } else {
                r is None
            },
        },
{
    match config.multipv {
        Some(n) => {
            let v = u32_to_string(n);
            Some((setoption_command("MultiPV", v.as_str()), true))
        },
        None => if reset {
            Some((setoption_command("MultiPV", "1"), false))
        } else {
            None
        },
    }
}

/// Copies the move list of a search.
fn copy_strings(v: &Vec<String>) -> (r: Vec<String>)
    ensures
        r@ == v@,
{
    let mut r: Vec<String> = Vec::new();
    let mut i: usize = 0;
    while i < v.len()
        invariant
            i <= v@.len(),
            r@ == v@.subrange(0, i as int),
        decreases v@.len() - i,
    {
        r.push(v[i].clone());
        assert(r@ =~= v@.subrange(0, i + 1));
        i = i + 1;
    }
    assert(v@.subrange(0, v@.len() as int) =~= v@);
    r
}

/// Two search configurations that ask for the same search, moves compared
/// by their text.
pub open spec fn same_search(a: SearchConfig, b: SearchConfig) -> bool {
    &&& a.depth == b.depth
    &&& a.movetime == b.movetime
    &&& a.wtime == b.wtime
    &&& a.btime == b.btime
    &&& a.winc == b.winc
    &&& a.binc == b.binc
    &&& a.searchmoves@ == b.searchmoves@
    &&& a.multipv == b.multipv
    &&& a.infinite == b.infinite
    &&& a.read_timeout_ms == b.read_timeout_ms
    &&& a.ponder_move == b.ponder_move
}

/// A copy of a search configuration.
fn copy_config(c: &SearchConfig) -> (r: SearchConfig)
    ensures
        same_search(r, *c),
{
    let moves = copy_strings(&c.searchmoves);
    let ponder = match &c.ponder_move {
        Some(p) => Some(p.clone()),
        None => None,
    };
    SearchConfig {
        depth: c.depth,
        movetime: c.movetime,
        wtime: c.wtime,
        btime: c.btime,
        winc: c.winc,
        binc: c.binc,
        searchmoves: moves,
        multipv: c.multipv,
        infinite: c.infinite,
        read_timeout_ms: c.read_timeout_ms,
        ponder_move: ponder,
    }
}

/// The configuration of a top-moves search: `config` asking for `n` lines,
/// `n` taken into `1..=500`.
pub fn top_moves_config(config: &SearchConfig, n: u32) -> (r: SearchConfig)
    ensures
        same_search(r, SearchConfig { multipv: r.multipv, ..*config }),
        r.multipv == Some(if n < 1 { 1u32 } else if n > 500 { 500u32 } else { n }),
{
    let k: u32 = if n < 1 { 1 } else if n > 500 { 500 } else { n };
    let mut r = copy_config(config);
    r.multipv = Some(k);
    r
}

/// The position a ponder search starts from: the position last sent, then
/// the expected reply.
pub open spec fn ponder_position_spec(fen: Option<Seq<char>>, reply: Seq<char>) -> Seq<char> {
    position_spec(fen) + " moves "@ + reply
}

/// What the driver remembers between commands.
#[derive(Debug, Clone)]
pub struct EngineSession {
    current_fen: Option<String>,
    timeout_ms: u64,
    pondering: bool,
}

/// The remembered state: the FEN last sent (none after `startpos` or a new
/// game), the default read timeout in milliseconds, and whether a ponder
/// search runs.
pub struct SessionModel {
    pub fen: Option<Seq<char>>,
    pub timeout_ms: u64,
    pub pondering: bool,
}

impl View for EngineSession {
    type V = SessionModel;

    closed spec fn view(&self) -> SessionModel {
        SessionModel { fen: opt_text(self.current_fen), timeout_ms: self.timeout_ms, pondering: self.pondering }
    }
}

impl EngineSession {
    /// A fresh session: no position sent, a timeout of ten seconds, no
    /// ponder search.
    pub fn new() -> (s: Self)
        ensures
            s@ == (SessionModel { fen: None, timeout_ms: 10_000, pondering: false }),
    {
        EngineSession { current_fen: None, timeout_ms: 10_000, pondering: false }
    }

    /// Overrides the default read timeout (milliseconds).
    pub fn set_timeout(&mut self, ms: u64)
        ensures
            final(self)@ == (SessionModel { timeout_ms: ms, ..old(self)@ }),
    {
        self.timeout_ms = ms;
    }

    /// The default read timeout (milliseconds).
    pub fn timeout_ms(&self) -> (t: u64)
        ensures
            t == self@.timeout_ms,
    {
        self.timeout_ms
    }

    /// The timeout of a search: its own when it has one, else the default.
    pub fn search_timeout(&self, config: &SearchConfig) -> (t: u64)
        ensures
            t == match config.read_timeout_ms {
                Some(x) => x,
                None => self@.timeout_ms,
            },
    {
        match config.read_timeout_ms {
            Some(x) => x,
            None => self.timeout_ms,
        }
    }

    /// Returns the FEN most recently sent to the engine, if any.
    pub fn current_fen(&self) -> (r: Option<&str>)
        ensures
            match r {
                Some(f) => self@.fen == Some(f@),
                None => self@.fen is None,
            },
    {
        match &self.current_fen {
            Some(f) => Some(f.as_str()),
            None => None,
        }
    }

    /// Returns `true` if the engine is currently in a ponder search.
    pub fn is_pondering(&self) -> (b: bool)
        ensures
            b == self@.pondering,
    {
        self.pondering
    }

    /// Records that a position command was sent: the FEN, or none for the
    /// start position or a new game.
    pub fn position_sent(&mut self, fen: Option<&str>)
        ensures
            final(self)@ == (SessionModel { fen: match fen { Some(f) => Some(f@), None => None }, ..old(self)@ }),
    {
        self.current_fen = match fen {
            Some(f) => Some(f.to_string()),
            None => None,
        };
    }

    /// The commands that start a ponder search on `reply`: the position
    /// after the reply, then `go ponder` with the limits of `config`.
    /// Refused while a ponder search runs.
    pub fn ponder_commands(&self, reply: &str, config: &SearchConfig) -> (r: Result<(String, String), UciError>)
        ensures
            self@.pondering ==> (r matches Err(UciError::EngineError(m))
                && m@ == "already pondering; call ponderhit() or ponder_miss() first"@),
            !self@.pondering ==> (r matches Ok((p, g))
                && p@ == ponder_position_spec(self@.fen, reply@)
                && g@ == "go ponder"@ + go_limits_spec(*config)),
    {
        if self.pondering {
            return Err(UciError::EngineError(String::from_str("already pondering; call ponderhit() or ponder_miss() first")));
        }
        let mut cfg = copy_config(config);
        cfg.ponder_move = Some(reply.to_string());
        let g = cfg.to_go_command();
        assert(go_limits_spec(cfg) == go_limits_spec(*config));
        proof {
            reveal_strlit("go ponder");
            reveal_strlit("go");
            reveal_strlit(" ponder");
        }
        assert(g@ =~= "go ponder"@ + go_limits_spec(*config));
        let fen = match &self.current_fen {
            Some(f) => Some(f.as_str()),
            None => None,
        };
        let mut p = position_command(fen);
        p.append(" moves ");
        p.append(reply);
        Ok((p, g))
    }

    /// Records that a ponder search was started.
    pub fn ponder_started(&mut self)
        ensures
            final(self)@ == (SessionModel { pondering: true, ..old(self)@ }),
    {
        self.pondering = true;
    }

    /// The commands sent when the opponent played the expected move: `stop`,
    /// then `ponderhit`. Refused when no ponder search runs.
    pub fn ponderhit_commands(&self) -> (r: Result<Vec<String>, UciError>)
        ensures
            !self@.pondering ==> (r matches Err(UciError::EngineError(m)) && m@ == "not currently pondering"@),
            self@.pondering ==> (r matches Ok(v) && v.deep_view() == seq!["stop"@, "ponderhit"@]),
    {
        if !self.pondering {
            return Err(UciError::EngineError(String::from_str("not currently pondering")));
        }
        let mut v: Vec<String> = Vec::new();
        v.push(String::from_str("stop"));
        v.push(String::from_str("ponderhit"));
        assert(v.deep_view() =~= seq!["stop"@, "ponderhit"@]);
        Ok(v)
    }

    /// The commands sent when the opponent played another move: `stop` when a
    /// ponder search runs, nothing otherwise.
    pub fn ponder_miss_commands(&self) -> (v: Vec<String>)
        ensures
            self@.pondering ==> v.deep_view() == seq!["stop"@],
            !self@.pondering ==> v@.len() == 0,
    {
        let mut v: Vec<String> = Vec::new();
        if self.pondering {
            v.push(String::from_str("stop"));
            assert(v.deep_view() =~= seq!["stop"@]);
        }
        v
    }

    /// Records that the ponder search ended.
    pub fn ponder_ended(&mut self)
        ensures
            final(self)@ == (SessionModel { pondering: false, ..old(self)@ }),
    {
        self.pondering = false;
    }
}

/// `s` with the prefix `p` removed, when it starts with `p`.
pub open spec fn after_prefix(s: Seq<char>, p: Seq<char>) -> Option<Seq<char>> {
    if s.len() >= p.len() && s.subrange(0, p.len() as int) == p {
        Some(s.subrange(p.len() as int, s.len() as int))
    } else {
        None
    }
}

/// What one handshake line does to the engine's identity, once trimmed:
/// `id name` and `id author` set the name and the author, an `option` line
/// adds an option; anything else changes nothing.
pub open spec fn handshake_spec(
    name: Option<Seq<char>>,
    author: Option<Seq<char>>,
    line: Seq<char>,
) -> (Option<Seq<char>>, Option<Seq<char>>, Option<crate::uci::OptionModel>) {
    let t = trim_ws(line);
    if after_prefix(t, "id name "@) is Some {
        (after_prefix(t, "id name "@), author, None)
    } else if after_prefix(t, "id author "@) is Some {
        (name, after_prefix(t, "id author "@), None)
    } else {
        (name, author, option_line_spec(t))
    }
}

/// Reads one line of the UCI handshake into `info`; returns `true` at
/// `uciok`, which ends the handshake.
pub fn handshake_line(info: &mut EngineInfo, line: &str) -> (done: bool)
    ensures
        done == (trim_ws(line@) == "uciok"@),
        done ==> *final(info) == *old(info),
        !done ==> ({
            let (n, a, o) = handshake_spec(opt_text(old(info).name), opt_text(old(info).author), line@);
            &&& opt_text(final(info).name) == n
            &&& opt_text(final(info).author) == a
            &&& match o {
                Some(m) => final(info).options@.len() == old(info).options@.len() + 1
                    && final(info).options@.drop_last() == old(info).options@
                    && final(info).options@.last()@ == m,
                None => final(info).options@ == old(info).options@,
            }
        }),
{
    let cs = chars_of(line);
    let t = trim_whitespace(cs.as_slice());
    let ts = string_from_chars(t.as_slice());
    proof {
        reveal_strlit("uciok");
        reveal_strlit("id name ");
        reveal_strlit("id author ");
    }
    if crate::text::chars_eq_str(t.as_slice(), "uciok") {
        return true;
    }
    if starts_with(t.as_slice(), "id name ") {
        let rest = crate::text::copy_range(t.as_slice(), 8, t.len());
        info.name = Some(string_from_chars(rest.as_slice()));
    } else if starts_with(t.as_slice(), "id author ") {
        let rest = crate::text::copy_range(t.as_slice(), 10, t.len());
        info.author = Some(string_from_chars(rest.as_slice()));
    } else {
        match parse_option_line(ts.as_str()) {
            Some(opt) => {
                info.options.push(opt);
                assert(info.options@.drop_last() =~= old(info).options@);
            },
            None => {},
        }
    }
    false
}

/// `line`, once trimmed, is `readyok`.
pub fn is_readyok(line: &str) -> (b: bool)
    ensures
        b == (trim_ws(line@) == "readyok"@),
{
    let cs = chars_of(line);
    let t = trim_whitespace(cs.as_slice());
    crate::text::chars_eq_str(t.as_slice(), "readyok")
}

/// What a line read during a search means.
#[derive(Debug)]
pub enum SearchLine {
    /// The search ended: the best move and the ponder suggestion, or the
    /// error when the engine named no move.
    BestMove(Result<PlayResult, UciError>),
    /// An `info` record.
    Info(AnalysisInfo),
    /// Anything else, which the search skips.
    Other,
}

/// What a search line says: a `bestmove` line ends the search; else, once
/// trimmed, an `info ` line is a record; else nothing.
pub open spec fn search_info_spec(line: Seq<char>) -> Option<InfoModel> {
    let t = trim_ws(line);
    if after_prefix(t, "info "@) is Some { info_line_spec(t) } else { None }
}

/// Reads one line of the engine's answer to `go`.
pub fn read_search_line(line: &str) -> (r: SearchLine)
    ensures
        match bestmove_spec(line@) {
            Some(Ok((best, ponder))) => r matches SearchLine::BestMove(Ok(p))
                && p.best_move@ == best && opt_text(p.ponder_move) == ponder,
            Some(Err(msg)) => r matches SearchLine::BestMove(Err(UciError::EngineError(m))) && m@ == msg,
            None => match search_info_spec(line@) {
                Some(m) => r matches SearchLine::Info(a) && a@ == m,
                None => r is Other,
            },
        },
{
    match parse_bestmove_line(line) {
        Some(res) => {
            return SearchLine::BestMove(res);
        },
        None => {},
    }
    let cs = chars_of(line);
    let t = trim_whitespace(cs.as_slice());
    proof {
        reveal_strlit("info ");
    }
    if !starts_with(t.as_slice(), "info ") {
        return SearchLine::Other;
    }
    let ts = string_from_chars(t.as_slice());
    match parse_info_line(ts.as_str()) {
        Some(info) => SearchLine::Info(info),
        None => SearchLine::Other,
    }
}

} // verus!
