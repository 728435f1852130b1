//! Tokenization of the raw input: the text is split into non-empty tokens on
//! the literal space character (and on no other character), in order.  A token
//! keeps any embedded newline characters until the scanner inspects it.

use vstd::prelude::*;

verus! {

/// The state of splitting a prefix of the input on the space character:
/// the tokens already finished, and the token currently being built.
pub open spec fn tok_state(s: Seq<char>) -> (Seq<Seq<char>>, Seq<char>)
    decreases s.len(),
{
    if s.len() == 0 {
        (Seq::<Seq<char>>::empty(), Seq::<char>::empty())
    } else {
        let prev = tok_state(s.drop_last());
        if s.last() == ' ' {
            if prev.1.len() > 0 {
                (prev.0.push(prev.1), Seq::<char>::empty())
            } else {
                (prev.0, Seq::<char>::empty())
            }
        } else {
            (prev.0, prev.1.push(s.last()))
        }
    }
}

/// The non-empty tokens of `s`, split on the space character, in order.
pub open spec fn split_tokens(s: Seq<char>) -> Seq<Seq<char>> {
    let st = tok_state(s);
    if st.1.len() > 0 {
        st.0.push(st.1)
    } else {
        st.0
    }
}

/// Whether `c` counts as whitespace when block content is trimmed.
pub open spec fn is_wsp(c: char) -> bool {
    c == ' ' || c == '\n' || c == '\t' || c == '\r'
}

/// `s` without its leading whitespace characters.
pub open spec fn trim_start(s: Seq<char>) -> Seq<char>
    decreases s.len(),
{
    if s.len() > 0 && is_wsp(s[0]) {
        trim_start(s.drop_first())
    } else {
        s
    }
}

/// `s` without its trailing whitespace characters.
pub open spec fn trim_end(s: Seq<char>) -> Seq<char>
    decreases s.len(),
{
    if s.len() > 0 && is_wsp(s.last()) {
        trim_end(s.drop_last())
    } else {
        s
    }
}

/// `s` without leading and trailing whitespace characters.
pub open spec fn trim_spec(s: Seq<char>) -> Seq<char> {
    trim_end(trim_start(s))
}

/// Relies on `String::push` of std: it appends exactly the one character.
#[verifier::external_body]
pub(crate) fn push_char(s: &mut String, c: char)
    ensures
        final(s)@ == old(s)@.push(c),
{
    s.push(c);
}

/// Split `s` into its non-empty tokens, on the space character only.
pub fn tokenize(s: &str) -> (r: Vec<String>)
    ensures
        r.deep_view() == split_tokens(s@),
        s@.len() <= usize::MAX,
{
    let n = s.unicode_len();
    let mut toks: Vec<String> = Vec::new();
    let mut cur = String::new();
    let mut i: usize = 0;
    proof {
        assert(s@.take(0) =~= Seq::<char>::empty());
        assert(toks.deep_view() =~= Seq::<Seq<char>>::empty());
    }
    while i < n
        invariant
            0 <= i <= n,
            n == s@.len(),
            tok_state(s@.take(i as int)).0 == toks.deep_view(),
            tok_state(s@.take(i as int)).1 == cur@,
        decreases n - i,
    {
        let c = s.get_char(i);
        proof {
            assert(s@.take(i + 1).drop_last() =~= s@.take(i as int));
            assert(s@.take(i + 1).last() == s@[i as int]);
        }
        if c == ' ' {
            if !cur.as_str().is_empty() {
                let ghost prev = toks.deep_view();
                toks.push(cur);
                cur = String::new();
                proof {
                    assert(toks.deep_view() =~= prev.push(tok_state(s@.take(i as int)).1));
                }
            }
        } else {
            push_char(&mut cur, c);
        }
        i = i + 1;
    }
    proof {
        assert(s@.take(n as int) =~= s@);
    }
    if !cur.as_str().is_empty() {
        let ghost prev = toks.deep_view();
        let ghost curv = cur@;
        toks.push(cur);
        proof {
            assert(toks.deep_view() =~= prev.push(curv));
        }
    }
    toks
}

/// Remove leading and trailing whitespace characters from `s`.
pub fn trim_string(s: &String) -> (r: String)
    ensures
        r@ == trim_spec(s@),
{
    let n = s.as_str().unicode_len();
    let mut lo: usize = 0;
    while lo < n && is_wsp_exec(s.as_str().get_char(lo))
        invariant
            0 <= lo <= n,
            n == s@.len(),
            forall|j: int| 0 <= j < lo ==> is_wsp(s@[j]),
        decreases n - lo,
    {
        lo = lo + 1;
    }
    if lo == n {
        proof {
            lemma_trim_start_skip(s@, n as int);
            assert(s@.skip(n as int) =~= Seq::<char>::empty());
        }
        return String::new();
    }
    let mut hi: usize = n;
    while hi > lo && is_wsp_exec(s.as_str().get_char(hi - 1))
        invariant
            lo <= hi <= n,
            lo < n,
            n == s@.len(),
            !is_wsp(s@[lo as int]),
            forall|j: int| hi <= j < n ==> is_wsp(s@[j]),
        decreases hi,
    {
        hi = hi - 1;
    }
    assert(hi > lo) by {
        if hi == lo {
            assert(is_wsp(s@[lo as int]));
        }
    }
    let sub = s.as_str().substring_char(lo, hi);
    proof {
        lemma_trim_parts(s@, lo as int, hi as int);
    }
    String::from_str(sub)
}

/// Whether `c` counts as whitespace when block content is trimmed.
pub(crate) fn is_wsp_exec(c: char) -> (r: bool)
    ensures
        r == is_wsp(c),
{
    c == ' ' || c == '\n' || c == '\t' || c == '\r'
}

/// Dropping a whitespace prefix does not change what `trim_start` leaves.
proof fn lemma_trim_start_skip(s: Seq<char>, lo: int)
    requires
        0 <= lo <= s.len(),
        forall|j: int| 0 <= j < lo ==> is_wsp(s[j]),
    ensures
        trim_start(s) == trim_start(s.skip(lo)),
    decreases lo,
{
    if lo == 0 {
        assert(s.skip(0) =~= s);
    } else {
        assert(is_wsp(s[0]));
        lemma_trim_start_skip(s.drop_first(), lo - 1);
        assert(s.drop_first().skip(lo - 1) =~= s.skip(lo));
    }
}

/// With only whitespace from index `k` on, and a non-whitespace character just
/// before `k`, `trim_end` keeps exactly the first `k` characters.
proof fn lemma_trim_end_take(t: Seq<char>, k: int)
    requires
        0 <= k <= t.len(),
        forall|j: int| k <= j < t.len() ==> is_wsp(t[j]),
        k > 0 ==> !is_wsp(t[k - 1]),
    ensures
        trim_end(t) == t.take(k),
    decreases t.len(),
{
    if t.len() == k {
        if k == 0 {
            assert(t.take(0) =~= t);
        } else {
            assert(!is_wsp(t.last()));
            assert(t.take(k) =~= t);
        }
    } else {
        assert(is_wsp(t.last()));
        lemma_trim_end_take(t.drop_last(), k);
        assert(t.drop_last().take(k) =~= t.take(k));
    }
}

/// Trimming keeps exactly the span from the first to the last non-whitespace
/// character.
proof fn lemma_trim_parts(s: Seq<char>, lo: int, hi: int)
    requires
        0 <= lo < hi <= s.len(),
        forall|j: int| 0 <= j < lo ==> is_wsp(s[j]),
        !is_wsp(s[lo]),
        forall|j: int| hi <= j < s.len() ==> is_wsp(s[j]),
        !is_wsp(s[hi - 1]),
    ensures
        trim_spec(s) == s.subrange(lo, hi),
{
    lemma_trim_start_skip(s, lo);
    let t = s.skip(lo);
    assert(!is_wsp(t[0]));
    assert(trim_start(t) == t);
    lemma_trim_end_take(t, hi - lo);
    assert(t.take(hi - lo) =~= s.subrange(lo, hi));
}

/// At most every other character can end a token, so the token count is
/// bounded by half the input length.
pub proof fn lemma_token_count(s: Seq<char>)
    ensures
        2 * split_tokens(s).len() <= s.len() + 1,
{
    lemma_tok_state_count(s);
}

proof fn lemma_tok_state_count(s: Seq<char>)
    ensures
        2 * tok_state(s).0.len() + (if tok_state(s).1.len() > 0 {
            1int
        } else {
            0int
        }) <= s.len(),
    decreases s.len(),
{
    if s.len() > 0 {
        lemma_tok_state_count(s.drop_last());
    }
}

/// A token holds only characters of the input: a character absent from the
/// input is absent from every token.
pub proof fn lemma_tokens_chars(s: Seq<char>, c: char)
    requires
        !s.contains(c),
    ensures
        forall|i: int|
            0 <= i < split_tokens(s).len() ==> !(#[trigger] split_tokens(s)[i]).contains(c),
{
    lemma_tok_state_chars(s, c);
}

proof fn lemma_tok_state_chars(s: Seq<char>, c: char)
    requires
        !s.contains(c),
    ensures
        forall|i: int|
            0 <= i < tok_state(s).0.len() ==> !(#[trigger] tok_state(s).0[i]).contains(c),
        !tok_state(s).1.contains(c),
    decreases s.len(),
{
    if s.len() > 0 {
        assert(!s.drop_last().contains(c)) by {
            if s.drop_last().contains(c) {
                let j = choose|j: int| 0 <= j < s.drop_last().len() && s.drop_last()[j] == c;
                assert(s[j] == c);
            }
        }
        lemma_tok_state_chars(s.drop_last(), c);
        assert(s.last() != c);
        let prev = tok_state(s.drop_last());
        if s.last() == ' ' {
        } else {
            assert(!prev.1.push(s.last()).contains(c)) by {
                if prev.1.push(s.last()).contains(c) {
                    let j = choose|j: int|
                        0 <= j < prev.1.push(s.last()).len() && prev.1.push(s.last())[j] == c;
                    if j < prev.1.len() {
                        assert(prev.1[j] == c);
                    }
                }
            }
        }
    }
}

/// Text without a space character forms a single unfinished token.
pub proof fn lemma_tok_nospace(s: Seq<char>)
    requires
        !s.contains(' '),
    ensures
        tok_state(s).0 == Seq::<Seq<char>>::empty(),
        tok_state(s).1 == s,
    decreases s.len(),
{
    if s.len() > 0 {
        assert(s.last() != ' ');
        assert(!s.drop_last().contains(' ')) by {
            if s.drop_last().contains(' ') {
                let j = choose|j: int| 0 <= j < s.drop_last().len() && s.drop_last()[j] == ' ';
                assert(s[j] == ' ');
            }
        }
        lemma_tok_nospace(s.drop_last());
        assert(s.drop_last().push(s.last()) =~= s);
    }
}

/// Tokenization of a concatenation, when the first part ends with a finished
/// token boundary: the token lists concatenate.
pub proof fn lemma_tok_concat(a: Seq<char>, b: Seq<char>)
    requires
        tok_state(a).1 == Seq::<char>::empty(),
    ensures
        tok_state(a + b).0 == tok_state(a).0 + tok_state(b).0,
        tok_state(a + b).1 == tok_state(b).1,
    decreases b.len(),
{
    if b.len() == 0 {
        assert(a + b =~= a);
        assert(tok_state(b).0 =~= Seq::<Seq<char>>::empty());
        assert(tok_state(a).0 + tok_state(b).0 =~= tok_state(a).0);
    } else {
        lemma_tok_concat(a, b.drop_last());
        assert((a + b).drop_last() =~= a + b.drop_last());
        assert((a + b).last() == b.last());
        let prev = tok_state(a + b.drop_last());
        let prevb = tok_state(b.drop_last());
        if b.last() == ' ' {
            if prevb.1.len() > 0 {
                assert(tok_state(a).0 + prevb.0.push(prevb.1) =~= (tok_state(a).0
                    + prevb.0).push(prevb.1));
            }
        }
    }
}

} // verus!
