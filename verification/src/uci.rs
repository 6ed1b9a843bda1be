//! The protocol adapter's decision core.
//!
//! The adapter owns a child engine process and drives a line-oriented
//! handshake and request/response protocol over its pipes. Everything that
//! can be decided from the protocol text alone is here: which command to
//! write next, when a read is finished (a sentinel token appeared in the
//! line), how lines accumulate into a result, and how the session state
//! advances. The blocking reads and writes themselves are left to the caller
//! that owns the pipes; it feeds each received line to [`AdapterSession::on_line`]
//! and performs the commands these methods hand back.

use vstd::prelude::*;
use vstd::seq_lib::lemma_concat_associative;
use vstd::string::StrSliceExecFns;
use vstd::string::StringExecFns;

verus! {

broadcast use vstd::seq_lib::group_seq_lib_default;

/// True when `n` occurs in `h` starting at index `i`.
pub open spec fn match_at(h: Seq<char>, n: Seq<char>, i: int) -> bool {
    0 <= i && i + n.len() <= h.len() && h.subrange(i, i + n.len()) == n
}

/// True when `n` occurs somewhere in `h`.
pub open spec fn contains_seq(h: Seq<char>, n: Seq<char>) -> bool {
    exists|i: int| match_at(h, n, i)
}

/// Whitespace as the protocol trims it from a received line.
pub open spec fn is_line_ws(c: char) -> bool {
    c == ' ' || c == '\t' || c == '\r' || c == '\n'
}

pub open spec fn trim_start_spec(s: Seq<char>) -> Seq<char>
    decreases s.len(),
{
    if s.len() > 0 && is_line_ws(s[0]) {
        trim_start_spec(s.drop_first())
    } else {
        s
    }
}

pub open spec fn trim_end_spec(s: Seq<char>) -> Seq<char>
    decreases s.len(),
{
    if s.len() > 0 && is_line_ws(s[s.len() - 1]) {
        trim_end_spec(s.drop_last())
    } else {
        s
    }
}

/// The line with leading and trailing whitespace removed.
pub open spec fn trim_spec(s: Seq<char>) -> Seq<char> {
    trim_end_spec(trim_start_spec(s))
}

/// True when the trimmed line contains the sentinel token `tok`.
pub open spec fn line_signals(line: Seq<char>, tok: Seq<char>) -> bool {
    contains_seq(trim_spec(line), tok)
}

proof fn lemma_trim_start_at(s: Seq<char>, k: int)
    requires
        0 <= k <= s.len(),
        forall|j: int| 0 <= j < k ==> is_line_ws(s[j]),
        k == s.len() || !is_line_ws(s[k]),
    ensures
        trim_start_spec(s) == s.subrange(k, s.len() as int),
    decreases k,
{
    if k == 0 {
        assert(s.subrange(0, s.len() as int) =~= s);
    } else {
        let rest = s.drop_first();
        assert(forall|j: int| 0 <= j < k - 1 ==> is_line_ws(#[trigger] rest[j]));
        lemma_trim_start_at(rest, k - 1);
        assert(rest.subrange(k - 1, rest.len() as int) =~= s.subrange(k, s.len() as int));
    }
}

proof fn lemma_trim_end_at(s: Seq<char>, k: int)
    requires
        0 <= k <= s.len(),
        forall|j: int| k <= j < s.len() ==> is_line_ws(s[j]),
        k == 0 || !is_line_ws(s[k - 1]),
    ensures
        trim_end_spec(s) == s.subrange(0, k),
    decreases s.len(),
{
    if k == s.len() {
        if s.len() > 0 && is_line_ws(s[s.len() - 1]) {
            assert(!is_line_ws(s[k - 1]));
        }
        assert(s.subrange(0, k) =~= s);
    } else {
        let rest = s.drop_last();
        assert(is_line_ws(s[s.len() - 1]));
        assert(forall|j: int| k <= j < rest.len() ==> is_line_ws(#[trigger] rest[j]));
        lemma_trim_end_at(rest, k);
        assert(rest.subrange(0, k) =~= s.subrange(0, k));
    }
}

fn is_ws(c: char) -> (b: bool)
    ensures
        b == is_line_ws(c),
{
    c == ' ' || c == '\t' || c == '\r' || c == '\n'
}

/// The line with leading and trailing whitespace removed, as `str::trim`
/// trims a protocol line.
pub fn trim_line(line: &str) -> (r: &str)
    ensures
        r@ == trim_spec(line@),
{
    let n = line.unicode_len();
    let mut start: usize = 0;
    while start < n && is_ws(line.get_char(start))
        invariant
            start <= n,
            n == line@.len(),
            forall|j: int| 0 <= j < start ==> is_line_ws(line@[j]),
        decreases n - start,
    {
        start = start + 1;
    }
    let mut end: usize = n;
    while end > start && is_ws(line.get_char(end - 1))
        invariant
            start <= end <= n,
            n == line@.len(),
            forall|j: int| 0 <= j < start ==> is_line_ws(line@[j]),
            start == n || !is_line_ws(line@[start as int]),
            forall|j: int| end <= j < n ==> is_line_ws(line@[j]),
        decreases end,
    {
        end = end - 1;
    }
    proof {
        lemma_trim_start_at(line@, start as int);
        let tail = line@.subrange(start as int, n as int);
        assert(forall|j: int|
            end - start <= j < tail.len() ==> is_line_ws(#[trigger] tail[j]));
        lemma_trim_end_at(tail, end as int - start as int);
        assert(tail.subrange(0, end as int - start as int) =~= line@.subrange(
            start as int,
            end as int,
        ));
    }
    line.substring_char(start, end)
}

fn match_at_exec(hay: &str, token: &str, i: usize) -> (b: bool)
    requires
        i + token@.len() <= hay@.len(),
    ensures
        b == match_at(hay@, token@, i as int),
{
    let h = hay.unicode_len();
    let t = token.unicode_len();
    let mut j: usize = 0;
    while j < t
        invariant
            j <= t,
            t == token@.len(),
            h == hay@.len(),
            i + t <= h,
            forall|k: int| 0 <= k < j ==> hay@[i + k] == token@[k],
        decreases t - j,
    {
        if hay.get_char(i + j) != token.get_char(j) {
            proof {
                assert(hay@.subrange(i as int, i as int + t as int)[j as int] == hay@[
                    i as int + j as int
                ]);
            }
            return false;
        }
        j = j + 1;
    }
    proof {
        assert(hay@.subrange(i as int, i as int + t as int) =~= token@);
    }
    true
}

/// True exactly when `token` occurs as a substring of `hay`.
pub fn contains_token(hay: &str, token: &str) -> (b: bool)
    ensures
        b == contains_seq(hay@, token@),
{
    let h = hay.unicode_len();
    let t = token.unicode_len();
    if t > h {
        proof {
            assert(forall|i: int| !match_at(hay@, token@, i));
        }
        return false;
    }
    if t == 0 {
        proof {
            assert(hay@.subrange(0, 0) =~= token@);
            assert(match_at(hay@, token@, 0));
        }
        return true;
    }
    let mut i: usize = 0;
    while i <= h - t
        invariant
            t <= h,
            h == hay@.len(),
            t == token@.len(),
            t >= 1,
            i <= h - t + 1,
            forall|j: int| 0 <= j < i ==> !match_at(hay@, token@, j),
        decreases h - t - i + 1,
    {
        if match_at_exec(hay, token, i) {
            assert(contains_seq(hay@, token@)) by {
                assert(match_at(hay@, token@, i as int));
            }
            return true;
        }
        i = i + 1;
    }
    proof {
        assert forall|j: int| !match_at(hay@, token@, j) by {
            if 0 <= j < i {
            } else if j >= i {
                assert(j + token@.len() > hay@.len());
            }
        }
    }
    false
}

/// The adapter's observable protocol states.
#[derive(Debug, Clone, Copy, PartialEq, Eq, Structural)]
pub enum SessionState {
    /// Child launched with piped streams; nothing written yet.
    Spawned,
    /// `uci` written; reading lines until one signals `uciok`.
    AwaitUciok,
    /// `isready` written; reading lines until one signals `readyok`.
    AwaitReadyok,
    /// Handshake complete; no read outstanding.
    Ready,
    /// `go` written; accumulating lines until one signals `bestmove`.
    Busy,
    /// A liveness `isready` written; reading until `readyok`.
    Probing,
    /// Session torn down; the child is to be terminated.
    Stopped,
}

/// The coarse lifecycle phase of a state.
#[derive(Debug, Clone, Copy, PartialEq, Eq, Structural)]
pub enum Phase {
    Spawned,
    Handshaking,
    Ready,
    Busy,
    Stopped,
}

pub open spec fn phase_of(s: SessionState) -> Phase {
    match s {
        SessionState::Spawned => Phase::Spawned,
        SessionState::AwaitUciok => Phase::Handshaking,
        SessionState::AwaitReadyok => Phase::Handshaking,
        SessionState::Ready => Phase::Ready,
        SessionState::Busy => Phase::Busy,
        SessionState::Probing => Phase::Ready,
        SessionState::Stopped => Phase::Stopped,
    }
}

/// True in the states where the adapter is blocked reading engine output.
pub open spec fn is_reading(s: SessionState) -> bool {
    s == SessionState::AwaitUciok || s == SessionState::AwaitReadyok || s == SessionState::Busy
        || s == SessionState::Probing
}

/// The sentinel token whose appearance in a received line ends the current
/// read; meaningful in the reading states.
pub open spec fn sentinel(s: SessionState) -> Seq<char> {
    match s {
        SessionState::AwaitUciok => "uciok"@,
        SessionState::AwaitReadyok => "readyok"@,
        SessionState::Busy => "bestmove"@,
        SessionState::Probing => "readyok"@,
        _ => Seq::<char>::empty(),
    }
}

/// What the caller must do after handing a received line to the session.
pub enum Outcome {
    /// The sentinel has not appeared: keep reading.
    Pending,
    /// Write this command, then keep reading.
    SendCommand(String),
    /// The handshake is complete; the session is ready.
    HandshakeDone,
    /// The accumulated result text, ending with the `bestmove` line.
    GameResult(String),
    /// The liveness probe was acknowledged.
    ProbeOk,
}

/// One protocol session over a child engine process: the current state and
/// the result text accumulated by an in-progress read.
pub struct AdapterSession {
    pub state: SessionState,
    pub buffer: String,
}

impl AdapterSession {
    /// A fresh session for a newly spawned child.
    pub fn new() -> (s: AdapterSession)
        ensures
            s.state == SessionState::Spawned,
            s.buffer@ == Seq::<char>::empty(),
    {
        AdapterSession { state: SessionState::Spawned, buffer: String::new() }
    }

    /// Opens the handshake: the returned command is to be written to the
    /// child, after which every received line goes to `on_line`.
    pub fn begin_handshake(&mut self) -> (cmd: &'static str)
        requires
            old(self).state == SessionState::Spawned,
        ensures
            final(self).state == SessionState::AwaitUciok,
            final(self).buffer@ == old(self).buffer@,
            cmd@ == "uci"@,
    {
        self.state = SessionState::AwaitUciok;
        "uci"
    }

    /// Advances the session on one line of child output (without its line
    /// terminator). Handshake and probe lines are discarded; result lines
    /// accumulate, each with a newline restored, until the `bestmove` line.
    pub fn on_line(&mut self, line: &str) -> (out: Outcome)
        requires
            is_reading(old(self).state),
        ensures
            ({
                let hit = line_signals(line@, sentinel(old(self).state));
                match old(self).state {
                    SessionState::AwaitUciok => {
                        &&& final(self).buffer@ == old(self).buffer@
                        &&& if hit {
                            &&& final(self).state == SessionState::AwaitReadyok
                            &&& out matches Outcome::SendCommand(c) && c@ == "isready"@
                        } else {
                            &&& final(self).state == SessionState::AwaitUciok
                            &&& out is Pending
                        }
                    },
                    SessionState::AwaitReadyok => {
                        &&& final(self).buffer@ == old(self).buffer@
                        &&& if hit {
                            &&& final(self).state == SessionState::Ready
                            &&& out is HandshakeDone
                        } else {
                            &&& final(self).state == SessionState::AwaitReadyok
                            &&& out is Pending
                        }
                    },
                    SessionState::Busy => {
                        if hit {
                            &&& final(self).state == SessionState::Ready
                            &&& final(self).buffer@ == Seq::<char>::empty()
                            &&& out matches Outcome::GameResult(r) && r@ == old(self).buffer@
                                + line@ + seq!['\n']
                        } else {
                            &&& final(self).state == SessionState::Busy
                            &&& final(self).buffer@ == old(self).buffer@ + line@ + seq!['\n']
                            &&& out is Pending
                        }
                    },
                    SessionState::Probing => {
                        &&& final(self).buffer@ == old(self).buffer@
                        &&& if hit {
                            &&& final(self).state == SessionState::Ready
                            &&& out is ProbeOk
                        } else {
                            &&& final(self).state == SessionState::Probing
                            &&& out is Pending
                        }
                    },
                    _ => false,
                }
            }),
    {
        let trimmed = trim_line(line);
        match self.state {
            SessionState::AwaitUciok => {
                if contains_token(trimmed, "uciok") {
                    self.state = SessionState::AwaitReadyok;
                    Outcome::SendCommand("isready".to_owned())
                } else {
                    Outcome::Pending
                }
            },
            SessionState::AwaitReadyok => {
                if contains_token(trimmed, "readyok") {
                    self.state = SessionState::Ready;
                    Outcome::HandshakeDone
                } else {
                    Outcome::Pending
                }
            },
            SessionState::Busy => {
                proof {
                    reveal_strlit("\n");
                    assert("\n"@ =~= seq!['\n']);
                    lemma_concat_associative(self.buffer@, line@, seq!['\n']);
                }
                self.buffer.append(line);
                self.buffer.append("\n");
                if contains_token(trimmed, "bestmove") {
                    let result = self.buffer.clone();
                    self.buffer = String::new();
                    self.state = SessionState::Ready;
                    Outcome::GameResult(result)
                } else {
                    Outcome::Pending
                }
            },
            SessionState::Probing => {
                if contains_token(trimmed, "readyok") {
                    self.state = SessionState::Ready;
                    Outcome::ProbeOk
                } else {
                    Outcome::Pending
                }
            },
            _ => {
                proof {
                    assert(false);
                }
                Outcome::Pending
            },
        }
    }

    /// Starts one game: the returned commands are to be written in order;
    /// the child's lines then go to `on_line` until it hands back the result.
    pub fn begin_game(&mut self, depth: u64) -> (cmds: Vec<String>)
        requires
            old(self).state == SessionState::Ready,
        ensures
            final(self).state == SessionState::Busy,
            final(self).buffer@ == Seq::<char>::empty(),
            cmds@.len() == 3,
            cmds@[0]@ == "ucinewgame"@,
            cmds@[1]@ == "position startpos"@,
            cmds@[2]@ == "go depth "@ + dec_digits(depth as int),
    {
        self.state = SessionState::Busy;
        self.buffer = String::new();
        let mut cmds: Vec<String> = Vec::new();
        cmds.push("ucinewgame".to_owned());
        cmds.push("position startpos".to_owned());
        let mut go = "go depth ".to_owned();
        append_dec(&mut go, depth);
        cmds.push(go);
        cmds
    }

    /// Starts one liveness probe of the steady state: the returned command is
    /// to be written, and lines then go to `on_line` until `ProbeOk`.
    pub fn begin_probe(&mut self) -> (cmd: &'static str)
        requires
            old(self).state == SessionState::Ready,
        ensures
            final(self).state == SessionState::Probing,
            final(self).buffer@ == old(self).buffer@,
            cmd@ == "isready"@,
    {
        self.state = SessionState::Probing;
        "isready"
    }

    /// Session teardown: after this the caller terminates the child process.
    pub fn stop(&mut self)
        ensures
            final(self).state == SessionState::Stopped,
            final(self).buffer@ == old(self).buffer@,
    {
        self.state = SessionState::Stopped;
    }

    pub fn phase(&self) -> (p: Phase)
        ensures
            p == phase_of(self.state),
    {
        match self.state {
            SessionState::Spawned => Phase::Spawned,
            SessionState::AwaitUciok => Phase::Handshaking,
            SessionState::AwaitReadyok => Phase::Handshaking,
            SessionState::Ready => Phase::Ready,
            SessionState::Busy => Phase::Busy,
            SessionState::Probing => Phase::Ready,
            SessionState::Stopped => Phase::Stopped,
        }
    }
}

/// The decimal digits of `n`, most significant first.
pub open spec fn dec_digits(n: int) -> Seq<char>
    decreases n,
        when 0 <= n
{
    if n < 10 {
        seq![digit_char(n)]
    } else {
        dec_digits(n / 10) + seq![digit_char(n % 10)]
    }
}

/// The character for one decimal digit.
pub open spec fn digit_char(d: int) -> char {
    if d == 0 {
        '0'
    } else if d == 1 {
        '1'
    } else if d == 2 {
        '2'
    } else if d == 3 {
        '3'
    } else if d == 4 {
        '4'
    } else if d == 5 {
        '5'
    } else if d == 6 {
        '6'
    } else if d == 7 {
        '7'
    } else if d == 8 {
        '8'
    } else {
        '9'
    }
}

fn push_digit(s: &mut String, d: u64)
    requires
        d < 10,
    ensures
        final(s)@ == old(s)@ + seq![digit_char(d as int)],
{
    if d == 0 {
        proof {
            reveal_strlit("0");
            assert("0"@ =~= seq!['0']);
        }
        s.append("0");
    } else if d == 1 {
        proof {
            reveal_strlit("1");
            assert("1"@ =~= seq!['1']);
        }
        s.append("1");
    } else if d == 2 {
        proof {
            reveal_strlit("2");
            assert("2"@ =~= seq!['2']);
        }
        s.append("2");
    } else if d == 3 {
        proof {
            reveal_strlit("3");
            assert("3"@ =~= seq!['3']);
        }
        s.append("3");
    } else if d == 4 {
        proof {
            reveal_strlit("4");
            assert("4"@ =~= seq!['4']);
        }
        s.append("4");
    } else if d == 5 {
        proof {
            reveal_strlit("5");
            assert("5"@ =~= seq!['5']);
        }
        s.append("5");
    } else if d == 6 {
        proof {
            reveal_strlit("6");
            assert("6"@ =~= seq!['6']);
        }
        s.append("6");
    } else if d == 7 {
        proof {
            reveal_strlit("7");
            assert("7"@ =~= seq!['7']);
        }
        s.append("7");
    } else if d == 8 {
        proof {
            reveal_strlit("8");
            assert("8"@ =~= seq!['8']);
        }
        s.append("8");
    } else {
        proof {
            reveal_strlit("9");
            assert("9"@ =~= seq!['9']);
        }
        s.append("9");
    }
}

fn append_dec(s: &mut String, n: u64)
    ensures
        final(s)@ == old(s)@ + dec_digits(n as int),
    decreases n,
{
    if n < 10 {
        push_digit(s, n);
    } else {
        append_dec(s, n / 10);
        push_digit(s, n % 10);
        proof {
            lemma_concat_associative(
                old(s)@,
                dec_digits(n as int / 10),
                seq![digit_char(n as int % 10)],
            );
        }
    }
}

} // verus!
