//! General properties of the scanner, stated and proved once and for all
//! inputs: what a well-formed block extracts, how the two failure modes
//! arise, the at-most-once guarantee, and the order and normalization of
//! collected contents.

use vstd::prelude::*;

use crate::parser::ScanError;
use crate::parser::ScanState;
use crate::parser::end_tok;
use crate::parser::init_scan;
use crate::parser::is_foreign;
use crate::parser::lemma_failed_absorbs;
use crate::parser::lemma_run_from_concat;
use crate::parser::missing_end_msg;
use crate::parser::multiple_msg;
use crate::parser::run_from;
use crate::parser::scan_spec;
use crate::parser::step;
use crate::parser::strip_nl;
use crate::tokens::is_wsp;
use crate::tokens::lemma_tok_concat;
use crate::tokens::lemma_tok_nospace;
use crate::tokens::lemma_tokens_chars;
use crate::tokens::split_tokens;
use crate::tokens::tok_state;
use crate::tokens::trim_end;
use crate::tokens::trim_spec;
use crate::tokens::trim_start;

verus! {

/// The contents of a list of tokens, each preceded by a single space: the
/// shape in which the scanner accumulates a block's content.
pub open spec fn sp_join(ts: Seq<Seq<char>>) -> Seq<char>
    decreases ts.len(),
{
    if ts.len() == 0 {
        Seq::<char>::empty()
    } else {
        sp_join(ts.drop_last()) + seq![' '] + ts.last()
    }
}

/// `body` with its runs of spaces collapsed to single spaces and its leading
/// and trailing whitespace trimmed: exactly what the scanner extracts from a
/// well-formed block whose text between the markers is `body`.
pub open spec fn normalized(body: Seq<char>) -> Seq<char> {
    trim_spec(sp_join(split_tokens(body)))
}

/// A well-formed command name: it starts with `$`, is not the closing token,
/// and holds no space and no newline, so it is one token of the input.
pub open spec fn cmd_ok(cmd: Seq<char>) -> bool {
    &&& cmd.len() > 0
    &&& cmd[0] == '$'
    &&& cmd != end_tok()
    &&& !cmd.contains(' ')
    &&& !cmd.contains('\n')
}

/// Block text on a single line that opens no command of its own: no newline,
/// no `$`, and at least one token.
pub open spec fn body_ok(body: Seq<char>) -> bool {
    &&& !body.contains('\n')
    &&& !body.contains('$')
    &&& split_tokens(body).len() > 0
}

/// A token the scanner accumulates verbatim: no newline and no `$`.
pub open spec fn tok_clean(t: Seq<char>) -> bool {
    !t.contains('\n') && !t.contains('$')
}

/// The input `"<cmd> <body> $end"`.
pub open spec fn one_block_input(cmd: Seq<char>, body: Seq<char>) -> Seq<char> {
    cmd + seq![' '] + body + seq![' '] + end_tok()
}

/// The input `"<cmd> <b1> $end <cmd> <b2> $end"`.
pub open spec fn two_block_input(cmd: Seq<char>, b1: Seq<char>, b2: Seq<char>) -> Seq<char> {
    cmd + seq![' '] + b1 + seq![' '] + end_tok() + seq![' '] + cmd + seq![' '] + b2 + seq![' ']
        + end_tok()
}

/// The characters of the closing token.
proof fn end_tok_facts()
    ensures
        end_tok().len() == 4,
        end_tok()[0] == '$',
        !end_tok().contains(' '),
        !end_tok().contains('\n'),
{
    reveal_strlit("$end");
    assert forall|j: int| 0 <= j < end_tok().len() implies end_tok()[j] != ' ' && end_tok()[j]
        != '\n' by {
        if j == 0 {
        } else if j == 1 {
        } else if j == 2 {
        } else {
            assert(j == 3);
        }
    }
}

/// A character array without `c` stays without `c` when its last element is
/// dropped.
proof fn lemma_drop_last_no_char(s: Seq<char>, c: char)
    requires
        !s.contains(c),
        s.len() > 0,
    ensures
        !s.drop_last().contains(c),
{
    if s.drop_last().contains(c) {
        let j = choose|j: int| 0 <= j < s.drop_last().len() && s.drop_last()[j] == c;
        assert(s[j] == c);
    }
}

/// Stripping newlines from a token without newlines changes nothing.
proof fn lemma_strip_id(t: Seq<char>)
    requires
        !t.contains('\n'),
    ensures
        strip_nl(t) == t,
    decreases t.len(),
{
    reveal(Seq::filter);
    if t.len() > 0 {
        lemma_drop_last_no_char(t, '\n');
        lemma_strip_id(t.drop_last());
        assert(t.last() != '\n');
        assert(t.drop_last().push(t.last()) =~= t);
    } else {
        assert(strip_nl(t) =~= t);
    }
}

/// What `strip_nl` leaves never contains a newline.
proof fn lemma_strip_no_nl(t: Seq<char>)
    ensures
        !strip_nl(t).contains('\n'),
    decreases t.len(),
{
    reveal(Seq::filter);
    if t.len() == 0 {
    } else {
        lemma_strip_no_nl(t.drop_last());
        if t.last() != '\n' {
            let w = strip_nl(t.drop_last()).push(t.last());
            assert(strip_nl(t) == w);
            if w.contains('\n') {
                let j = choose|j: int| 0 <= j < w.len() && w[j] == '\n';
                if j < strip_nl(t.drop_last()).len() {
                    assert(strip_nl(t.drop_last())[j] == '\n');
                }
            }
        }
    }
}

/// A concatenation of arrays without `c` is without `c`.
proof fn lemma_concat_no_char(a: Seq<char>, b: Seq<char>, c: char)
    requires
        !a.contains(c),
        !b.contains(c),
    ensures
        !(a + b).contains(c),
{
    if (a + b).contains(c) {
        let j = choose|j: int| 0 <= j < (a + b).len() && (a + b)[j] == c;
        if j < a.len() {
            assert(a[j] == c);
        } else {
            assert(b[j - a.len()] == c);
        }
    }
}

/// Trimming an array without `c` leaves an array without `c`.
proof fn lemma_trim_start_no_char(s: Seq<char>, c: char)
    requires
        !s.contains(c),
    ensures
        !trim_start(s).contains(c),
    decreases s.len(),
{
    if s.len() > 0 && is_wsp(s[0]) {
        assert(!s.drop_first().contains(c)) by {
            if s.drop_first().contains(c) {
                let j = choose|j: int| 0 <= j < s.drop_first().len() && s.drop_first()[j] == c;
                assert(s[j + 1] == c);
            }
        }
        lemma_trim_start_no_char(s.drop_first(), c);
    }
}

proof fn lemma_trim_end_no_char(s: Seq<char>, c: char)
    requires
        !s.contains(c),
    ensures
        !trim_end(s).contains(c),
    decreases s.len(),
{
    if s.len() > 0 && is_wsp(s.last()) {
        lemma_drop_last_no_char(s, c);
        lemma_trim_end_no_char(s.drop_last(), c);
    }
}

proof fn lemma_trim_no_char(s: Seq<char>, c: char)
    requires
        !s.contains(c),
    ensures
        !trim_spec(s).contains(c),
{
    lemma_trim_start_no_char(s, c);
    lemma_trim_end_no_char(trim_start(s), c);
}

/// The tokens of `"<cmd> <body> <tail>"` for space-free `cmd` and `tail`:
/// the command, the body's tokens, and the tail token.
proof fn lemma_cmd_body_tail_split(cmd: Seq<char>, body: Seq<char>, tail: Seq<char>)
    requires
        cmd.len() > 0,
        !cmd.contains(' '),
        tail.len() > 0,
        !tail.contains(' '),
    ensures
        split_tokens(cmd + seq![' '] + body + seq![' '] + tail) == seq![cmd] + split_tokens(body)
            + seq![tail],
{
    let a = cmd + seq![' '];
    let body2 = body + seq![' '];
    lemma_tok_nospace(cmd);
    assert(a.drop_last() =~= cmd);
    assert(a.last() == ' ');
    assert(tok_state(a).0 =~= seq![cmd]);
    assert(tok_state(a).1 =~= Seq::<char>::empty());
    assert(body2.drop_last() =~= body);
    assert(body2.last() == ' ');
    assert(tok_state(body2).0 =~= split_tokens(body));
    assert(tok_state(body2).1 =~= Seq::<char>::empty());
    lemma_tok_concat(a, body2);
    let ab = a + body2;
    assert(tok_state(ab).0 =~= seq![cmd] + split_tokens(body));
    assert(tok_state(ab).1 =~= Seq::<char>::empty());
    lemma_tok_concat(ab, tail);
    lemma_tok_nospace(tail);
    assert(cmd + seq![' '] + body + seq![' '] + tail =~= ab + tail);
    assert(tok_state(ab + tail).0 =~= seq![cmd] + split_tokens(body));
    assert(tok_state(ab + tail).1 =~= tail);
    assert(split_tokens(ab + tail) =~= (seq![cmd] + split_tokens(body)).push(tail));
    assert((seq![cmd] + split_tokens(body)).push(tail) =~= seq![cmd] + split_tokens(body) + seq![
        tail,
    ]);
}

/// The tokens of `"<cmd> <body> $end"`: the command, the body's tokens, and
/// the closing token.
proof fn lemma_block_split(cmd: Seq<char>, body: Seq<char>)
    requires
        cmd_ok(cmd),
    ensures
        split_tokens(one_block_input(cmd, body)) == seq![cmd] + split_tokens(body) + seq![
            end_tok(),
        ],
{
    end_tok_facts();
    lemma_cmd_body_tail_split(cmd, body, end_tok());
}

/// Opening the target command from an idle, unfailed state.
proof fn lemma_open_step(st: ScanState, cmd: Seq<char>, enforce: bool)
    requires
        st.failed is None,
        !st.in_block,
        cmd_ok(cmd),
        !(st.results.len() != 0 && enforce),
    ensures
        step(st, cmd, cmd, enforce) == (ScanState {
            in_block: true,
            acc: st.acc,
            results: st.results,
            line: st.line,
            failed: None,
        }),
{
    end_tok_facts();
    lemma_strip_id(cmd);
}

/// Consuming clean tokens inside an open block appends each of them, with a
/// single space before each, to the accumulated content.
proof fn lemma_body_steps(st: ScanState, bts: Seq<Seq<char>>, cmd: Seq<char>, enforce: bool)
    requires
        st.failed is None,
        st.in_block,
        forall|i: int| 0 <= i < bts.len() ==> tok_clean(#[trigger] bts[i]),
    ensures
        run_from(st, bts, cmd, enforce) == (ScanState {
            in_block: true,
            acc: st.acc + sp_join(bts),
            results: st.results,
            line: st.line,
            failed: None,
        }),
    decreases bts.len(),
{
    end_tok_facts();
    if bts.len() == 0 {
        assert(st.acc + sp_join(bts) =~= st.acc);
    } else {
        lemma_body_steps(st, bts.drop_last(), cmd, enforce);
        let prev = run_from(st, bts.drop_last(), cmd, enforce);
        let t = bts.last();
        assert(tok_clean(t));
        lemma_strip_id(t);
        assert(!is_foreign(t, cmd)) by {
            if t.len() > 0 {
                assert(t[0] != '$');
            }
        }
        assert(t != end_tok()) by {
            if t == end_tok() {
                assert(t[0] == '$');
            }
        }
        assert(step(prev, t, cmd, enforce).acc =~= st.acc + sp_join(bts)) by {
            assert(prev.acc + seq![' '] + t =~= st.acc + (sp_join(bts.drop_last()) + seq![' ']
                + t));
        }
    }
}

/// Closing an open block with non-empty accumulated content.
proof fn lemma_close_step(st: ScanState, cmd: Seq<char>, enforce: bool)
    requires
        st.failed is None,
        st.acc.len() != 0,
    ensures
        step(st, end_tok(), cmd, enforce) == (ScanState {
            in_block: false,
            acc: Seq::<char>::empty(),
            results: st.results.push(trim_spec(st.acc)),
            line: st.line,
            failed: None,
        }),
{
    end_tok_facts();
    lemma_strip_id(end_tok());
}

/// Scanning one whole well-formed block from an idle state collects exactly
/// the normalized body and returns to the idle state, on the same line.
proof fn lemma_scan_block(st: ScanState, cmd: Seq<char>, body: Seq<char>, enforce: bool)
    requires
        st.failed is None,
        !st.in_block,
        st.acc == Seq::<char>::empty(),
        cmd_ok(cmd),
        body_ok(body),
        !(st.results.len() != 0 && enforce),
    ensures
        run_from(st, seq![cmd] + split_tokens(body) + seq![end_tok()], cmd, enforce)
            == (ScanState {
            in_block: false,
            acc: Seq::<char>::empty(),
            results: st.results.push(normalized(body)),
            line: st.line,
            failed: None,
        }),
{
    let bts = split_tokens(body);
    let toks = seq![cmd] + bts + seq![end_tok()];
    lemma_tokens_chars(body, '\n');
    lemma_tokens_chars(body, '$');
    lemma_run_from_concat(st, seq![cmd], bts, cmd, enforce);
    lemma_run_from_concat(st, seq![cmd] + bts, seq![end_tok()], cmd, enforce);
    assert(toks =~= (seq![cmd] + bts) + seq![end_tok()]);
    assert(seq![cmd].drop_last() =~= Seq::<Seq<char>>::empty());
    assert(seq![cmd].last() == cmd);
    assert(run_from(st, Seq::<Seq<char>>::empty(), cmd, enforce) == st);
    assert(run_from(st, seq![cmd], cmd, enforce) == step(st, cmd, cmd, enforce));
    lemma_open_step(st, cmd, enforce);
    let opened = step(st, cmd, cmd, enforce);
    lemma_body_steps(opened, bts, cmd, enforce);
    let filled = run_from(opened, bts, cmd, enforce);
    assert(filled.acc =~= sp_join(bts)) by {
        assert(st.acc + sp_join(bts) =~= sp_join(bts));
    }
    assert(sp_join(bts).len() != 0);
    assert(seq![end_tok()].drop_last() =~= Seq::<Seq<char>>::empty());
    assert(seq![end_tok()].last() == end_tok());
    assert(run_from(filled, Seq::<Seq<char>>::empty(), cmd, enforce) == filled);
    assert(run_from(filled, seq![end_tok()], cmd, enforce) == step(
        filled,
        end_tok(),
        cmd,
        enforce,
    ));
    lemma_close_step(filled, cmd, enforce);
}

/// One well-formed command block on a single line extracts exactly its body,
/// with runs of spaces collapsed to single spaces and the ends trimmed, under
/// either uniqueness policy.
pub proof fn lemma_single_block_extracts(cmd: Seq<char>, body: Seq<char>, enforce: bool)
    requires
        cmd_ok(cmd),
        body_ok(body),
    ensures
        scan_spec(one_block_input(cmd, body), cmd, enforce) == Ok::<_, ScanError>(seq![
            normalized(body),
        ]),
{
    lemma_block_split(cmd, body);
    lemma_scan_block(init_scan(), cmd, body, enforce);
    let fin = run_from(init_scan(), seq![cmd] + split_tokens(body) + seq![end_tok()], cmd, enforce);
    assert(fin.results =~= seq![normalized(body)]);
}

/// An opened command that never sees its `$end` fails with exactly the
/// missing-`$end` message, whatever (newline-free, command-free) text
/// follows the opening; the error carries line one.
pub proof fn lemma_missing_end_fails(cmd: Seq<char>, body: Seq<char>, enforce: bool)
    requires
        cmd_ok(cmd),
        !body.contains('\n'),
        !body.contains('$'),
    ensures
        scan_spec(cmd + seq![' '] + body, cmd, enforce) == Err::<Seq<Seq<char>>, _>(ScanError {
            line: 1,
            message: missing_end_msg(cmd),
        }),
{
    let a = cmd + seq![' '];
    lemma_tok_nospace(cmd);
    assert(a.drop_last() =~= cmd);
    assert(a.last() == ' ');
    assert(tok_state(a).0 =~= seq![cmd]);
    assert(tok_state(a).1 =~= Seq::<char>::empty());
    lemma_tok_concat(a, body);
    assert(cmd + seq![' '] + body =~= a + body);
    let bts = split_tokens(body);
    assert(split_tokens(a + body) =~= seq![cmd] + bts) by {
        if tok_state(body).1.len() > 0 {
            assert(tok_state(a + body).1 =~= tok_state(body).1);
            assert((seq![cmd] + tok_state(body).0).push(tok_state(body).1) =~= seq![cmd]
                + tok_state(body).0.push(tok_state(body).1));
        }
    }
    lemma_tokens_chars(body, '\n');
    lemma_tokens_chars(body, '$');
    lemma_run_from_concat(init_scan(), seq![cmd], bts, cmd, enforce);
    assert(seq![cmd] + bts =~= split_tokens(a + body));
    assert(seq![cmd].drop_last() =~= Seq::<Seq<char>>::empty());
    assert(seq![cmd].last() == cmd);
    assert(run_from(init_scan(), Seq::<Seq<char>>::empty(), cmd, enforce) == init_scan());
    assert(run_from(init_scan(), seq![cmd], cmd, enforce) == step(init_scan(), cmd, cmd, enforce));
    lemma_open_step(init_scan(), cmd, enforce);
    let opened = step(init_scan(), cmd, cmd, enforce);
    lemma_body_steps(opened, bts, cmd, enforce);
}

/// The tokens of `"<cmd> <b1> $end <cmd> <b2> $end"`.
proof fn lemma_two_block_split(cmd: Seq<char>, b1: Seq<char>, b2: Seq<char>)
    requires
        cmd_ok(cmd),
    ensures
        split_tokens(two_block_input(cmd, b1, b2)) == seq![cmd] + split_tokens(b1) + seq![
            end_tok(),
            cmd,
        ] + split_tokens(b2) + seq![end_tok()],
{
    end_tok_facts();
    let p = cmd + seq![' '];
    let q1 = b1 + seq![' '];
    let r = end_tok() + seq![' '];
    let q2 = b2 + seq![' '];
    lemma_tok_nospace(cmd);
    assert(p.drop_last() =~= cmd);
    assert(p.last() == ' ');
    assert(tok_state(p).0 =~= seq![cmd]);
    assert(tok_state(p).1 =~= Seq::<char>::empty());
    assert(q1.drop_last() =~= b1);
    assert(q1.last() == ' ');
    assert(tok_state(q1).0 =~= split_tokens(b1));
    assert(tok_state(q1).1 =~= Seq::<char>::empty());
    assert(q2.drop_last() =~= b2);
    assert(q2.last() == ' ');
    assert(tok_state(q2).0 =~= split_tokens(b2));
    assert(tok_state(q2).1 =~= Seq::<char>::empty());
    lemma_tok_nospace(end_tok());
    assert(r.drop_last() =~= end_tok());
    assert(r.last() == ' ');
    assert(tok_state(r).0 =~= seq![end_tok()]);
    assert(tok_state(r).1 =~= Seq::<char>::empty());
    lemma_tok_concat(p, q1);
    let s1 = p + q1;
    assert(tok_state(s1).0 =~= seq![cmd] + split_tokens(b1));
    assert(tok_state(s1).1 =~= Seq::<char>::empty());
    lemma_tok_concat(s1, r);
    let s2 = s1 + r;
    assert(tok_state(s2).0 =~= seq![cmd] + split_tokens(b1) + seq![end_tok()]);
    assert(tok_state(s2).1 =~= Seq::<char>::empty());
    lemma_tok_concat(s2, p);
    let s3 = s2 + p;
    assert(tok_state(s3).0 =~= seq![cmd] + split_tokens(b1) + seq![end_tok()] + seq![cmd]);
    assert(tok_state(s3).1 =~= Seq::<char>::empty());
    lemma_tok_concat(s3, q2);
    let s4 = s3 + q2;
    assert(tok_state(s4).0 =~= seq![cmd] + split_tokens(b1) + seq![end_tok()] + seq![cmd]
        + split_tokens(b2));
    assert(tok_state(s4).1 =~= Seq::<char>::empty());
    lemma_tok_concat(s4, end_tok());
    let s5 = s4 + end_tok();
    assert(two_block_input(cmd, b1, b2) =~= s5);
    assert(tok_state(s5).1 =~= end_tok());
    assert(split_tokens(s5) =~= tok_state(s5).0.push(end_tok()));
    assert(tok_state(s5).0.push(end_tok()) =~= seq![cmd] + split_tokens(b1) + seq![
        end_tok(),
        cmd,
    ] + split_tokens(b2) + seq![end_tok()]);
}

/// Two complete blocks of a single-occurrence command fail at the second
/// opening with exactly the multiple-commands message, before any of the
/// second block's content is read; the error carries line one.
pub proof fn lemma_second_block_rejected(cmd: Seq<char>, b1: Seq<char>, b2: Seq<char>)
    requires
        cmd_ok(cmd),
        body_ok(b1),
        body_ok(b2),
    ensures
        scan_spec(two_block_input(cmd, b1, b2), cmd, true) == Err::<Seq<Seq<char>>, _>(ScanError {
            line: 1,
            message: multiple_msg(cmd),
        }),
{
    lemma_two_block_split(cmd, b1, b2);
    end_tok_facts();
    let t1 = seq![cmd] + split_tokens(b1) + seq![end_tok()];
    let rest2 = split_tokens(b2) + seq![end_tok()];
    let full = split_tokens(two_block_input(cmd, b1, b2));
    assert(full =~= (t1 + seq![cmd]) + rest2);
    lemma_run_from_concat(init_scan(), t1 + seq![cmd], rest2, cmd, true);
    lemma_run_from_concat(init_scan(), t1, seq![cmd], cmd, true);
    lemma_scan_block(init_scan(), cmd, b1, true);
    let st1 = run_from(init_scan(), t1, cmd, true);
    assert(seq![cmd].drop_last() =~= Seq::<Seq<char>>::empty());
    assert(seq![cmd].last() == cmd);
    assert(run_from(st1, Seq::<Seq<char>>::empty(), cmd, true) == st1);
    assert(run_from(st1, seq![cmd], cmd, true) == step(st1, cmd, cmd, true));
    lemma_strip_id(cmd);
    let failed_st = step(st1, cmd, cmd, true);
    assert(failed_st.failed == Some(ScanError { line: 1, message: multiple_msg(cmd) }));
    lemma_failed_absorbs(failed_st, rest2, cmd, true);
}

/// Two complete blocks of a command without the uniqueness policy are both
/// collected, in their order of appearance.
pub proof fn lemma_two_blocks_in_order(cmd: Seq<char>, b1: Seq<char>, b2: Seq<char>)
    requires
        cmd_ok(cmd),
        body_ok(b1),
        body_ok(b2),
    ensures
        scan_spec(two_block_input(cmd, b1, b2), cmd, false) == Ok::<_, ScanError>(seq![
            normalized(b1),
            normalized(b2),
        ]),
{
    lemma_two_block_split(cmd, b1, b2);
    let t1 = seq![cmd] + split_tokens(b1) + seq![end_tok()];
    let t2 = seq![cmd] + split_tokens(b2) + seq![end_tok()];
    let full = split_tokens(two_block_input(cmd, b1, b2));
    assert(full =~= t1 + t2);
    lemma_run_from_concat(init_scan(), t1, t2, cmd, false);
    lemma_scan_block(init_scan(), cmd, b1, false);
    let st1 = run_from(init_scan(), t1, cmd, false);
    lemma_scan_block(st1, cmd, b2, false);
    let st2 = run_from(st1, t2, cmd, false);
    assert(st2.results =~= seq![normalized(b1), normalized(b2)]);
}

/// The scanner's inductive invariant under the uniqueness policy: the
/// accumulator is empty while idle, at most one content is ever collected,
/// and none while a block is open.
proof fn lemma_enforce_inv(tokens: Seq<Seq<char>>, cmd: Seq<char>)
    ensures
        ({
            let st = run_from(init_scan(), tokens, cmd, true);
            st.failed is None ==> {
                &&& !st.in_block ==> st.acc.len() == 0
                &&& st.results.len() <= 1
                &&& st.in_block ==> st.results.len() == 0
            }
        }),
    decreases tokens.len(),
{
    if tokens.len() > 0 {
        lemma_enforce_inv(tokens.drop_last(), cmd);
    }
}

/// Under the uniqueness policy a successful scan collects at most one
/// content.
pub proof fn lemma_enforce_at_most_one(input: Seq<char>, cmd: Seq<char>)
    ensures
        scan_spec(input, cmd, true) is Ok ==> scan_spec(input, cmd, true)->Ok_0.len() <= 1,
{
    lemma_enforce_inv(split_tokens(input), cmd);
}

/// Without the uniqueness policy the multiple-commands failure cannot arise.
proof fn lemma_unenforced_inv(tokens: Seq<Seq<char>>, cmd: Seq<char>)
    ensures
        ({
            let st = run_from(init_scan(), tokens, cmd, false);
            st.failed is Some ==> st.failed->0.message == missing_end_msg(cmd)
        }),
    decreases tokens.len(),
{
    if tokens.len() > 0 {
        lemma_unenforced_inv(tokens.drop_last(), cmd);
    }
}

/// Any number of blocks of an unenforced command is accepted: the only
/// failure such a scan can report is a missing `$end`.
pub proof fn lemma_unenforced_error_is_missing_end(input: Seq<char>, cmd: Seq<char>)
    ensures
        scan_spec(input, cmd, false) is Err ==> scan_spec(input, cmd, false)->Err_0.message
            == missing_end_msg(cmd),
{
    lemma_unenforced_inv(split_tokens(input), cmd);
}

/// Newlines never survive into the accumulator or the collected contents.
proof fn lemma_newline_free_inv(tokens: Seq<Seq<char>>, cmd: Seq<char>, enforce: bool)
    ensures
        ({
            let st = run_from(init_scan(), tokens, cmd, enforce);
            st.failed is None ==> !st.acc.contains('\n') && (forall|i: int|
                0 <= i < st.results.len() ==> !(#[trigger] st.results[i]).contains('\n'))
        }),
    decreases tokens.len(),
{
    if tokens.len() > 0 {
        lemma_newline_free_inv(tokens.drop_last(), cmd, enforce);
        let prev = run_from(init_scan(), tokens.drop_last(), cmd, enforce);
        let st = run_from(init_scan(), tokens, cmd, enforce);
        if prev.failed is None {
            let t = tokens.last();
            let w = strip_nl(t);
            lemma_strip_no_nl(t);
            if w == end_tok() && prev.acc.len() != 0 {
                lemma_trim_no_char(prev.acc, '\n');
                assert forall|i: int|
                    0 <= i < st.results.len() implies !(#[trigger] st.results[i]).contains(
                    '\n',
                ) by {
                    if i < prev.results.len() {
                        assert(st.results[i] == prev.results[i]);
                    } else {
                        assert(st.results[i] == trim_spec(prev.acc));
                    }
                }
            } else if prev.in_block && !is_foreign(w, cmd) {
                assert(!seq![' '].contains('\n')) by {
                    if seq![' '].contains('\n') {
                        let j = choose|j: int| 0 <= j < 1 && seq![' '][j] == '\n';
                        assert(seq![' '][0] == ' ');
                    }
                }
                lemma_concat_no_char(prev.acc, seq![' '], '\n');
                lemma_concat_no_char(prev.acc + seq![' '], w, '\n');
            }
        }
    }
}

/// A collected content never contains a newline: a block whose raw text held
/// a newline (or surrounding whitespace) is not reproduced byte for byte,
/// only in its normalized form.
pub proof fn lemma_contents_have_no_newline(input: Seq<char>, cmd: Seq<char>, enforce: bool)
    ensures
        scan_spec(input, cmd, enforce) is Ok ==> forall|i: int|
            0 <= i < scan_spec(input, cmd, enforce)->Ok_0.len() ==> !(#[trigger] scan_spec(
                input,
                cmd,
                enforce,
            )->Ok_0[i]).contains('\n'),
{
    lemma_newline_free_inv(split_tokens(input), cmd, enforce);
}

/// A different command that begins while a block is still open fails the
/// scan at that token with exactly the missing-`$end` message, whatever the
/// (newline-free, command-free) text of the open block was; the error
/// carries line one.
pub proof fn lemma_foreign_intrusion_fails(
    cmd: Seq<char>,
    body: Seq<char>,
    other: Seq<char>,
    enforce: bool,
)
    requires
        cmd_ok(cmd),
        cmd_ok(other),
        other != cmd,
        !body.contains('\n'),
        !body.contains('$'),
    ensures
        scan_spec(cmd + seq![' '] + body + seq![' '] + other, cmd, enforce) == Err::<
            Seq<Seq<char>>,
            _,
        >(ScanError { line: 1, message: missing_end_msg(cmd) }),
{
    lemma_cmd_body_tail_split(cmd, body, other);
    let bts = split_tokens(body);
    let toks = seq![cmd] + bts + seq![other];
    lemma_tokens_chars(body, '\n');
    lemma_tokens_chars(body, '$');
    lemma_run_from_concat(init_scan(), seq![cmd], bts, cmd, enforce);
    lemma_run_from_concat(init_scan(), seq![cmd] + bts, seq![other], cmd, enforce);
    assert(toks =~= (seq![cmd] + bts) + seq![other]);
    assert(seq![cmd].drop_last() =~= Seq::<Seq<char>>::empty());
    assert(seq![cmd].last() == cmd);
    assert(run_from(init_scan(), Seq::<Seq<char>>::empty(), cmd, enforce) == init_scan());
    assert(run_from(init_scan(), seq![cmd], cmd, enforce) == step(init_scan(), cmd, cmd, enforce));
    lemma_open_step(init_scan(), cmd, enforce);
    let opened = step(init_scan(), cmd, cmd, enforce);
    lemma_body_steps(opened, bts, cmd, enforce);
    let filled = run_from(opened, bts, cmd, enforce);
    assert(seq![other].drop_last() =~= Seq::<Seq<char>>::empty());
    assert(seq![other].last() == other);
    assert(run_from(filled, Seq::<Seq<char>>::empty(), cmd, enforce) == filled);
    assert(run_from(filled, seq![other], cmd, enforce) == step(filled, other, cmd, enforce));
    lemma_strip_id(other);
    assert(is_foreign(other, cmd));
}

/// A non-empty result of `trim_start` begins with a non-whitespace character.
proof fn lemma_trim_start_first(s: Seq<char>)
    ensures
        trim_start(s).len() > 0 ==> !is_wsp(trim_start(s)[0]),
    decreases s.len(),
{
    if s.len() > 0 && is_wsp(s[0]) {
        lemma_trim_start_first(s.drop_first());
    }
}

/// A non-empty result of `trim_end` ends with a non-whitespace character.
proof fn lemma_trim_end_last(s: Seq<char>)
    ensures
        trim_end(s).len() > 0 ==> !is_wsp(trim_end(s).last()),
    decreases s.len(),
{
    if s.len() > 0 && is_wsp(s.last()) {
        lemma_trim_end_last(s.drop_last());
    }
}

/// `trim_end` keeps the first character of a text it leaves non-empty.
proof fn lemma_trim_end_first(s: Seq<char>)
    ensures
        trim_end(s).len() > 0 ==> trim_end(s)[0] == s[0],
    decreases s.len(),
{
    if s.len() > 0 && is_wsp(s.last()) {
        lemma_trim_end_first(s.drop_last());
    }
}

/// Trimming is idempotent.
proof fn lemma_trim_idempotent(s: Seq<char>)
    ensures
        trim_spec(trim_spec(s)) == trim_spec(s),
{
    let z = trim_start(s);
    let y = trim_end(z);
    if y.len() == 0 {
    } else {
        lemma_trim_start_first(s);
        lemma_trim_end_first(z);
        lemma_trim_end_last(z);
        assert(!is_wsp(y[0]));
        assert(trim_start(y) == y);
        assert(!is_wsp(y.last()));
        assert(trim_end(y) == y);
    }
}

/// Every collected content is already trimmed: trimming it again changes
/// nothing.
proof fn lemma_trimmed_inv(tokens: Seq<Seq<char>>, cmd: Seq<char>, enforce: bool)
    ensures
        ({
            let st = run_from(init_scan(), tokens, cmd, enforce);
            st.failed is None ==> forall|i: int|
                0 <= i < st.results.len() ==> trim_spec(#[trigger] st.results[i]) == st.results[i]
        }),
    decreases tokens.len(),
{
    if tokens.len() > 0 {
        lemma_trimmed_inv(tokens.drop_last(), cmd, enforce);
        let prev = run_from(init_scan(), tokens.drop_last(), cmd, enforce);
        let st = run_from(init_scan(), tokens, cmd, enforce);
        if prev.failed is None {
            let w = strip_nl(tokens.last());
            if w == end_tok() && prev.acc.len() != 0 {
                lemma_trim_idempotent(prev.acc);
                assert forall|i: int|
                    0 <= i < st.results.len() implies trim_spec(#[trigger] st.results[i])
                    == st.results[i] by {
                    if i < prev.results.len() {
                        assert(st.results[i] == prev.results[i]);
                    } else {
                        assert(st.results[i] == trim_spec(prev.acc));
                    }
                }
            }
        }
    }
}

/// A collected content carries no leading or trailing whitespace: together
/// with the absence of newlines, a block whose raw text held surrounding
/// whitespace or a newline is never reproduced byte for byte.
pub proof fn lemma_contents_are_trimmed(input: Seq<char>, cmd: Seq<char>, enforce: bool)
    ensures
        scan_spec(input, cmd, enforce) is Ok ==> forall|i: int|
            0 <= i < scan_spec(input, cmd, enforce)->Ok_0.len() ==> trim_spec(
                #[trigger] scan_spec(input, cmd, enforce)->Ok_0[i],
            ) == scan_spec(input, cmd, enforce)->Ok_0[i],
{
    lemma_trimmed_inv(split_tokens(input), cmd, enforce);
}

} // verus!
