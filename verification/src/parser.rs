//! The command block scanner: a two-state machine over the token stream that
//! collects the contents of `$command ... $end` spans, enforces an
//! at-most-once policy per command, tracks an approximate source line count
//! for diagnostics, and rejects malformed nesting.
//!
//! The line counter increments once per token that contains at least one
//! newline character; this token-counting approximation (rather than an exact
//! newline count) is deliberate and is part of the specification below.

use vstd::prelude::*;

use crate::error::LoadError;
use crate::tokens::split_tokens;
use crate::tokens::tokenize;
use crate::tokens::trim_spec;
use crate::tokens::trim_string;
use crate::tokens::lemma_token_count;
use crate::types::TimeScale;
use crate::types::spec_timescale;
use crate::types::spec_default_timescale;
use crate::vcd::VCD;

verus! {

/// A scan failure at the specification level: the line it was detected on and
/// the exact message reported.
pub ghost struct ScanError {
    pub line: int,
    pub message: Seq<char>,
}

/// The scanner's state after some prefix of the token stream: whether a block
/// is open, the content accumulated for it, the contents already collected,
/// the line counter, and the failure, if one was detected.
pub ghost struct ScanState {
    pub in_block: bool,
    pub acc: Seq<char>,
    pub results: Seq<Seq<char>>,
    pub line: int,
    pub failed: Option<ScanError>,
}

/// The message reported when a block is opened and never closed.
pub open spec fn missing_end_msg(cmd: Seq<char>) -> Seq<char> {
    cmd + " missing an $end"@
}

/// The message reported when a single-occurrence command opens a second block.
pub open spec fn multiple_msg(cmd: Seq<char>) -> Seq<char> {
    "Multiple "@ + cmd + " commands is invalid"@
}

/// A token with its newline characters removed, as the scanner inspects it.
pub open spec fn strip_nl(t: Seq<char>) -> Seq<char> {
    t.filter(|c: char| c != '\n')
}

/// The closing token of every command block.
pub open spec fn end_tok() -> Seq<char> {
    "$end"@
}

/// Whether a stripped token opens a command other than the target: it starts
/// with `$` but is neither the target command nor `$end`.
pub open spec fn is_foreign(w: Seq<char>, cmd: Seq<char>) -> bool {
    w.len() > 0 && w[0] == '$' && w != cmd && w != end_tok()
}

/// The scanner's initial state: idle, nothing accumulated, on line one.
pub open spec fn init_scan() -> ScanState {
    ScanState {
        in_block: false,
        acc: Seq::<char>::empty(),
        results: Seq::<Seq<char>>::empty(),
        line: 1,
        failed: None,
    }
}

/// One transition of the scanner on one raw token.  A failure is absorbing.
/// The transitions, in order: a foreign command inside an open block fails;
/// `$end` with non-empty accumulated content closes the block; any token
/// inside an open block is appended to the content; the target command opens
/// a block, or fails if one was already collected and the policy forbids a
/// second; anything else is ignored.  The line counter then increments if the
/// raw token contained a newline.
pub open spec fn step(st: ScanState, tok: Seq<char>, cmd: Seq<char>, enforce: bool) -> ScanState {
    if st.failed is Some {
        st
    } else {
        let w = strip_nl(tok);
        let nl: int = if tok.contains('\n') {
            1
        } else {
            0
        };
        if st.in_block && is_foreign(w, cmd) {
            ScanState {
                in_block: st.in_block,
                acc: st.acc,
                results: st.results,
                line: st.line,
                failed: Some(ScanError { line: st.line, message: missing_end_msg(cmd) }),
            }
        } else if w == end_tok() && st.acc.len() != 0 {
            ScanState {
                in_block: false,
                acc: Seq::<char>::empty(),
                results: st.results.push(trim_spec(st.acc)),
                line: st.line + nl,
                failed: None,
            }
        } else if st.in_block {
            ScanState {
                in_block: true,
                acc: st.acc + seq![' '] + w,
                results: st.results,
                line: st.line + nl,
                failed: None,
            }
        } else if w == cmd {
            if st.results.len() != 0 && enforce {
                ScanState {
                    in_block: st.in_block,
                    acc: st.acc,
                    results: st.results,
                    line: st.line,
                    failed: Some(ScanError { line: st.line, message: multiple_msg(cmd) }),
                }
            } else {
                ScanState {
                    in_block: true,
                    acc: st.acc,
                    results: st.results,
                    line: st.line + nl,
                    failed: None,
                }
            }
        } else {
            ScanState {
                in_block: st.in_block,
                acc: st.acc,
                results: st.results,
                line: st.line + nl,
                failed: None,
            }
        }
    }
}

/// The scanner's state after consuming `tokens`, starting from `st`.
pub open spec fn run_from(
    st: ScanState,
    tokens: Seq<Seq<char>>,
    cmd: Seq<char>,
    enforce: bool,
) -> ScanState
    decreases tokens.len(),
{
    if tokens.len() == 0 {
        st
    } else {
        step(run_from(st, tokens.drop_last(), cmd, enforce), tokens.last(), cmd, enforce)
    }
}

/// The outcome of a scan over a token stream: the collected block contents in
/// discovery order, or the first failure.  Reaching the end of the stream
/// with a block still open is the same failure as a foreign command
/// intruding: the command is missing an `$end`.
pub open spec fn scan_tokens_spec(
    tokens: Seq<Seq<char>>,
    cmd: Seq<char>,
    enforce: bool,
) -> Result<Seq<Seq<char>>, ScanError> {
    let st = run_from(init_scan(), tokens, cmd, enforce);
    if st.failed is Some {
        Err(st.failed->0)
    } else if st.in_block {
        Err(ScanError { line: st.line, message: missing_end_msg(cmd) })
    } else {
        Ok(st.results)
    }
}

/// The outcome of a scan over the raw input text.
pub open spec fn scan_spec(input: Seq<char>, cmd: Seq<char>, enforce: bool) -> Result<
    Seq<Seq<char>>,
    ScanError,
> {
    scan_tokens_spec(split_tokens(input), cmd, enforce)
}

/// Whether an executable scan result is exactly the specified outcome.
pub open spec fn matches_scan(
    r: Result<Vec<String>, LoadError>,
    sp: Result<Seq<Seq<char>>, ScanError>,
) -> bool {
    match r {
        Ok(v) => sp is Ok && v.deep_view() == sp->Ok_0,
        Err(e) => sp is Err && e.line as int == sp->Err_0.line && e.message@ == sp->Err_0.message,
    }
}

/// A failed state is absorbing: the rest of the token stream changes nothing.
pub proof fn lemma_failed_absorbs(
    st: ScanState,
    tokens: Seq<Seq<char>>,
    cmd: Seq<char>,
    enforce: bool,
)
    requires
        st.failed is Some,
    ensures
        run_from(st, tokens, cmd, enforce) == st,
    decreases tokens.len(),
{
    if tokens.len() > 0 {
        lemma_failed_absorbs(st, tokens.drop_last(), cmd, enforce);
    }
}

/// Running the scanner over a concatenation runs it over the parts in order.
pub proof fn lemma_run_from_concat(
    st: ScanState,
    t1: Seq<Seq<char>>,
    t2: Seq<Seq<char>>,
    cmd: Seq<char>,
    enforce: bool,
)
    ensures
        run_from(st, t1 + t2, cmd, enforce) == run_from(
            run_from(st, t1, cmd, enforce),
            t2,
            cmd,
            enforce,
        ),
    decreases t2.len(),
{
    if t2.len() == 0 {
        assert(t1 + t2 =~= t1);
    } else {
        lemma_run_from_concat(st, t1, t2.drop_last(), cmd, enforce);
        assert((t1 + t2).drop_last() =~= t1 + t2.drop_last());
        assert((t1 + t2).last() == t2.last());
    }
}

/// A token with its newlines removed, and whether it contained any newline.
fn strip_token(t: &String) -> (r: (String, bool))
    ensures
        r.0@ == strip_nl(t@),
        r.1 == t@.contains('\n'),
{
    let n = t.as_str().unicode_len();
    let mut out = String::new();
    let mut has_nl = false;
    let mut i: usize = 0;
    proof {
        reveal(Seq::filter);
        assert(t@.take(0) =~= Seq::<char>::empty());
    }
    while i < n
        invariant
            0 <= i <= n,
            n == t@.len(),
            out@ == strip_nl(t@.take(i as int)),
            has_nl == t@.take(i as int).contains('\n'),
        decreases n - i,
    {
        let c = t.as_str().get_char(i);
        proof {
            reveal(Seq::filter);
            assert(t@.take(i + 1).drop_last() =~= t@.take(i as int));
            assert(t@.take(i + 1).last() == t@[i as int]);
            lemma_contains_take_step(t@, i as int, '\n');
            if t@[i as int] != '\n' {
                assert(strip_nl(t@.take(i + 1)) == strip_nl(t@.take(i as int)).push(t@[i as int]));
            } else {
                assert(strip_nl(t@.take(i + 1)) == strip_nl(t@.take(i as int)));
            }
        }
        if c == '\n' {
            has_nl = true;
        } else {
            crate::tokens::push_char(&mut out, c);
        }
        i = i + 1;
    }
    proof {
        assert(t@.take(n as int) =~= t@);
    }
    (out, has_nl)
}

/// Extending a prefix by one character extends what it can contain.
proof fn lemma_contains_take_step(s: Seq<char>, i: int, c: char)
    requires
        0 <= i < s.len(),
    ensures
        s.take(i + 1).contains(c) == (s.take(i).contains(c) || s[i] == c),
{
    if s.take(i).contains(c) {
        let j = choose|j: int| 0 <= j < s.take(i).len() && s.take(i)[j] == c;
        assert(s.take(i + 1)[j] == c);
    }
    if s[i] == c {
        assert(s.take(i + 1)[i] == c);
    }
    let t1 = s.take(i + 1);
    if t1.contains(c) {
        let j = choose|j: int| 0 <= j < t1.len() && t1[j] == c;
        if j < i {
            assert(s.take(i)[j] == c);
        } else {
            assert(s[i] == c);
        }
    }
}

/// Scan a token stream for the blocks of one command.
fn scan_tokens(toks: &Vec<String>, cmd: &str, enforce: bool) -> (r: Result<Vec<String>, LoadError>)
    requires
        toks@.len() < usize::MAX,
    ensures
        matches_scan(r, scan_tokens_spec(toks.deep_view(), cmd@, enforce)),
{
    let cmd_s = String::from_str(cmd);
    let end_s = String::from_str("$end");
    let mut in_block = false;
    let mut acc = String::new();
    let mut results: Vec<String> = Vec::new();
    let mut line: usize = 1;
    let n = toks.len();
    let ghost tseq = toks.deep_view();
    proof {
        assert(tseq.take(0) =~= Seq::<Seq<char>>::empty());
        assert(results.deep_view() =~= Seq::<Seq<char>>::empty());
    }
    let mut i: usize = 0;
    while i < n
        invariant
            0 <= i <= n,
            n == toks@.len(),
            n < usize::MAX,
            toks.deep_view() == tseq,
            cmd_s@ == cmd@,
            end_s@ == end_tok(),
            line <= 1 + i,
            run_from(init_scan(), tseq.take(i as int), cmd@, enforce) == (ScanState {
                in_block: in_block,
                acc: acc@,
                results: results.deep_view(),
                line: line as int,
                failed: None,
            }),
        decreases n - i,
    {
        let ghost st = run_from(init_scan(), tseq.take(i as int), cmd@, enforce);
        let t = &toks[i];
        let (w, has_nl) = strip_token(t);
        proof {
            assert(tseq.take(i + 1).drop_last() =~= tseq.take(i as int));
            assert(tseq.take(i + 1).last() == tseq[i as int]);
            assert(tseq[i as int] == toks@[i as int]@);
        }
        let is_end_tok = w == end_s;
        let w_is_cmd = w == cmd_s;
        let foreign = if w.as_str().is_empty() {
            false
        } else {
            w.as_str().get_char(0) == '$' && !w_is_cmd && !is_end_tok
        };
        if in_block && foreign {
            let mut msg = String::from_str(cmd);
            msg.append(" missing an $end");
            proof {
                lemma_run_error(tseq, i as int, cmd@, enforce);
            }
            return Err(LoadError { line: line, message: msg });
        } else if is_end_tok && !acc.as_str().is_empty() {
            let trimmed = trim_string(&acc);
            let ghost prevres = results.deep_view();
            results.push(trimmed);
            acc = String::new();
            in_block = false;
            proof {
                assert(results.deep_view() =~= prevres.push(trim_spec(st.acc)));
            }
        } else if in_block {
            acc.append(" ");
            acc.append(w.as_str());
            proof {
                reveal_strlit(" ");
                assert(" "@ =~= seq![' ']);
            }
        } else if w_is_cmd {
            if results.len() != 0 && enforce {
                let mut msg = String::from_str("Multiple ");
                msg.append(cmd);
                msg.append(" commands is invalid");
                proof {
                    lemma_run_error(tseq, i as int, cmd@, enforce);
                }
                return Err(LoadError { line: line, message: msg });
            }
            in_block = true;
        }
        if has_nl {
            line = line + 1;
        }
        i = i + 1;
    }
    proof {
        assert(tseq.take(n as int) =~= tseq);
    }
    if in_block {
        let mut msg = String::from_str(cmd);
        msg.append(" missing an $end");
        return Err(LoadError { line: line, message: msg });
    }
    Ok(results)
}

/// If the step on token `i` fails, the whole scan reports that failure.
proof fn lemma_run_error(tseq: Seq<Seq<char>>, i: int, cmd: Seq<char>, enforce: bool)
    requires
        0 <= i < tseq.len(),
        step(
            run_from(init_scan(), tseq.take(i), cmd, enforce),
            tseq[i],
            cmd,
            enforce,
        ).failed is Some,
    ensures
        run_from(init_scan(), tseq, cmd, enforce) == step(
            run_from(init_scan(), tseq.take(i), cmd, enforce),
            tseq[i],
            cmd,
            enforce,
        ),
{
    let stp = step(run_from(init_scan(), tseq.take(i), cmd, enforce), tseq[i], cmd, enforce);
    assert(tseq.take(i + 1).drop_last() =~= tseq.take(i));
    assert(tseq.take(i + 1).last() == tseq[i]);
    assert(run_from(init_scan(), tseq.take(i + 1), cmd, enforce) == stp);
    lemma_run_from_concat(init_scan(), tseq.take(i + 1), tseq.skip(i + 1), cmd, enforce);
    assert(tseq.take(i + 1) + tseq.skip(i + 1) =~= tseq);
    lemma_failed_absorbs(stp, tseq.skip(i + 1), cmd, enforce);
}

/// A scanner configuration: the input text, the command whose blocks are
/// collected, and whether a second block for it is an error.  Configured by
/// chained setters, each consuming and returning the value.
pub struct CommandParser<'a> {
    pub lines: &'a str,
    pub command: &'a str,
    pub enforce_only_one_of_command: bool,
}

impl<'a> CommandParser<'a> {
    /// An empty configuration: empty input, empty command, no uniqueness.
    pub fn new() -> (r: CommandParser<'a>)
        ensures
            r.lines@ == Seq::<char>::empty(),
            r.command@ == Seq::<char>::empty(),
            r.enforce_only_one_of_command == false,
    {
        proof {
            reveal_strlit("");
            assert(""@ =~= Seq::<char>::empty());
        }
        CommandParser { lines: "", command: "", enforce_only_one_of_command: false }
    }

    /// The input text to scan.
    pub fn lines(self, lines: &'a str) -> (r: CommandParser<'a>)
        ensures
            r.lines@ == lines@,
            r.command@ == self.command@,
            r.enforce_only_one_of_command == self.enforce_only_one_of_command,
    {
        CommandParser {
            lines: lines,
            command: self.command,
            enforce_only_one_of_command: self.enforce_only_one_of_command,
        }
    }

    /// The command whose blocks are collected, e.g. `"$date"`.
    pub fn command(self, command_in: &'a str) -> (r: CommandParser<'a>)
        ensures
            r.lines@ == self.lines@,
            r.command@ == command_in@,
            r.enforce_only_one_of_command == self.enforce_only_one_of_command,
    {
        CommandParser {
            lines: self.lines,
            command: command_in,
            enforce_only_one_of_command: self.enforce_only_one_of_command,
        }
    }

    /// Whether a second block for the command fails the scan.
    pub fn enforce_only_one_of_command(self, enforcement: bool) -> (r: CommandParser<'a>)
        ensures
            r.lines@ == self.lines@,
            r.command@ == self.command@,
            r.enforce_only_one_of_command == enforcement,
    {
        CommandParser {
            lines: self.lines,
            command: self.command,
            enforce_only_one_of_command: enforcement,
        }
    }

    /// Scan the input for the configured command's blocks: the list of their
    /// contents in discovery order, possibly empty, or the first failure.
    pub fn parse_command(&self) -> (r: Result<Vec<String>, LoadError>)
        ensures
            matches_scan(r, scan_spec(self.lines@, self.command@, self.enforce_only_one_of_command)),
    {
        let toks = tokenize(self.lines);
        proof {
            lemma_token_count(self.lines@);
        }
        scan_tokens(&toks, self.command, self.enforce_only_one_of_command)
    }
}

/// The first element of a scan's results, or the empty content if the command
/// never appeared.
pub open spec fn first_or_empty(v: Seq<Seq<char>>) -> Seq<char> {
    if v.len() > 0 {
        v[0]
    } else {
        Seq::<char>::empty()
    }
}

/// The timescale a decoded content denotes, or the default when the content
/// does not decode (in particular when the command was absent).
pub open spec fn timescale_or_default(content: Seq<char>) -> TimeScale {
    match spec_timescale(content) {
        Some(t) => t,
        None => spec_default_timescale(),
    }
}

/// Whether all four header scans of `s` succeed.
pub open spec fn header_ok(s: Seq<char>) -> bool {
    &&& scan_spec(s, "$date"@, true) is Ok
    &&& scan_spec(s, "$version"@, true) is Ok
    &&& scan_spec(s, "$timescale"@, true) is Ok
    &&& scan_spec(s, "$comment"@, false) is Ok
}

/// The failure reported for `s`: the four extractors run in a fixed order and
/// the first failure wins.
pub open spec fn first_error(s: Seq<char>) -> ScanError {
    if scan_spec(s, "$date"@, true) is Err {
        scan_spec(s, "$date"@, true)->Err_0
    } else if scan_spec(s, "$version"@, true) is Err {
        scan_spec(s, "$version"@, true)->Err_0
    } else if scan_spec(s, "$timescale"@, true) is Err {
        scan_spec(s, "$timescale"@, true)->Err_0
    } else {
        scan_spec(s, "$comment"@, false)->Err_0
    }
}

/// Whether `v` is exactly the header record that `s` denotes.
pub open spec fn is_header_of(v: VCD, s: Seq<char>) -> bool {
    &&& v.date@ == first_or_empty(scan_spec(s, "$date"@, true)->Ok_0)
    &&& v.version@ == first_or_empty(scan_spec(s, "$version"@, true)->Ok_0)
    &&& v.timescale == timescale_or_default(
        first_or_empty(scan_spec(s, "$timescale"@, true)->Ok_0),
    )
    &&& v.comments.deep_view() == scan_spec(s, "$comment"@, false)->Ok_0
}

/// Parse the header record out of the input text: date, version, timescale
/// and comments, or the first failure in that fixed extractor order.  No
/// partial record is ever produced.
pub fn parse(s: &str) -> (r: Result<VCD, LoadError>)
    ensures
        r is Ok <==> header_ok(s@),
        r is Ok ==> is_header_of(r->Ok_0, s@),
        r is Err ==> r->Err_0.line as int == first_error(s@).line && r->Err_0.message@
            == first_error(s@).message,
{
    let date = match get_date_from_lines(s) {
        Ok(d) => d,
        Err(e) => {
            return Err(e);
        },
    };
    let version = match get_version_from_lines(s) {
        Ok(v) => v,
        Err(e) => {
            return Err(e);
        },
    };
    let timescale = match get_timescale_from_lines(s) {
        Ok(t) => t,
        Err(e) => {
            return Err(e);
        },
    };
    let comments = match get_comments_from_lines(s) {
        Ok(c) => c,
        Err(e) => {
            return Err(e);
        },
    };
    Ok(VCD { date: date, version: version, timescale: timescale, comments: comments })
}

/// The `$date` block's content; the empty string when the block is absent.
fn get_date_from_lines(lines: &str) -> (r: Result<String, LoadError>)
    ensures
        ({
            let sp = scan_spec(lines@, "$date"@, true);
            match r {
                Ok(s) => sp is Ok && s@ == first_or_empty(sp->Ok_0),
                Err(e) => sp is Err && e.line as int == sp->Err_0.line && e.message@
                    == sp->Err_0.message,
            }
        }),
{
    let parsed = match CommandParser::new().lines(lines).command(
        "$date",
    ).enforce_only_one_of_command(true).parse_command() {
        Ok(v) => v,
        Err(e) => {
            return Err(e);
        },
    };
    if parsed.len() > 0 {
        Ok(parsed[0].clone())
    } else {
        Ok(String::new())
    }
}

/// The `$version` block's content; the empty string when the block is absent.
fn get_version_from_lines(lines: &str) -> (r: Result<String, LoadError>)
    ensures
        ({
            let sp = scan_spec(lines@, "$version"@, true);
            match r {
                Ok(s) => sp is Ok && s@ == first_or_empty(sp->Ok_0),
                Err(e) => sp is Err && e.line as int == sp->Err_0.line && e.message@
                    == sp->Err_0.message,
            }
        }),
{
    let parsed = match CommandParser::new().lines(lines).command(
        "$version",
    ).enforce_only_one_of_command(true).parse_command() {
        Ok(v) => v,
        Err(e) => {
            return Err(e);
        },
    };
    if parsed.len() > 0 {
        Ok(parsed[0].clone())
    } else {
        Ok(String::new())
    }
}

/// The decoded `$timescale`; the default timescale when the block is absent
/// or its content does not decode.
fn get_timescale_from_lines(lines: &str) -> (r: Result<TimeScale, LoadError>)
    ensures
        ({
            let sp = scan_spec(lines@, "$timescale"@, true);
            match r {
                Ok(t) => sp is Ok && t == timescale_or_default(first_or_empty(sp->Ok_0)),
                Err(e) => sp is Err && e.line as int == sp->Err_0.line && e.message@
                    == sp->Err_0.message,
            }
        }),
{
    let parsed = match CommandParser::new().lines(lines).command(
        "$timescale",
    ).enforce_only_one_of_command(true).parse_command() {
        Ok(v) => v,
        Err(e) => {
            return Err(e);
        },
    };
    let content = if parsed.len() > 0 {
        parsed[0].clone()
    } else {
        String::new()
    };
    match TimeScale::load_from_str(content.as_str()) {
        Some(t) => Ok(t),
        None => Ok(TimeScale::new()),
    }
}

/// The contents of all `$comment` blocks, in order of appearance; empty when
/// there are none.
fn get_comments_from_lines(lines: &str) -> (r: Result<Vec<String>, LoadError>)
    ensures
        matches_scan(r, scan_spec(lines@, "$comment"@, false)),
{
    CommandParser::new().lines(lines).command("$comment").enforce_only_one_of_command(
        false,
    ).parse_command()
}

} // verus!
