//! The timescale of a VCD header: a magnitude and a time unit, decoded from a
//! single token of the form `<digits><unit>`, e.g. `"1ps"`.

use vstd::prelude::*;

verus! {

/// The six time units a VCD timescale may name, from femtoseconds to seconds.
#[derive(Debug, Clone, Copy, PartialEq, Eq, Structural)]
pub enum TimeUnit {
    FS,
    PS,
    NS,
    US,
    MS,
    S,
}

/// A simulation time resolution: `value` counts of `unit`.
#[derive(Debug, Clone, Copy, PartialEq, Eq, Structural)]
pub struct TimeScale {
    pub value: u64,
    pub unit: TimeUnit,
}

/// Whether `c` is an ASCII decimal digit.
pub open spec fn is_digit(c: char) -> bool {
    48 <= c as u32 <= 57
}

/// The numeric value of `c` as a decimal digit.
pub open spec fn digit_of(c: char) -> int {
    c as u32 - 48
}

/// The length of the maximal leading run of decimal digits in `s`.
pub open spec fn digit_run_len(s: Seq<char>) -> int
    decreases s.len(),
{
    if s.len() > 0 && is_digit(s[0]) {
        1 + digit_run_len(s.drop_first())
    } else {
        0
    }
}

/// The integer denoted by a sequence of decimal digits, most significant
/// digit first.
pub open spec fn digits_val(s: Seq<char>) -> int
    decreases s.len(),
{
    if s.len() == 0 {
        0
    } else {
        10 * digits_val(s.drop_last()) + digit_of(s.last())
    }
}

/// The unit denoted by one of the six case-sensitive unit names, if any.
pub open spec fn spec_unit(u: Seq<char>) -> Option<TimeUnit> {
    if u == "fs"@ {
        Some(TimeUnit::FS)
    } else if u == "ps"@ {
        Some(TimeUnit::PS)
    } else if u == "ns"@ {
        Some(TimeUnit::NS)
    } else if u == "us"@ {
        Some(TimeUnit::US)
    } else if u == "ms"@ {
        Some(TimeUnit::MS)
    } else if u == "s"@ {
        Some(TimeUnit::S)
    } else {
        None
    }
}

/// The decoding of a timescale token: a non-empty maximal leading digit run
/// whose value fits in a `u64`, followed immediately by a valid unit name.
/// Anything else does not decode.
pub open spec fn spec_timescale(s: Seq<char>) -> Option<TimeScale> {
    let k = digit_run_len(s);
    if k == 0 {
        None
    } else if digits_val(s.take(k)) > u64::MAX {
        None
    } else {
        match spec_unit(s.skip(k)) {
            Some(u) => Some(TimeScale { value: digits_val(s.take(k)) as u64, unit: u }),
            None => None,
        }
    }
}

/// The timescale a header carries before a `$timescale` block is decoded.
pub open spec fn spec_default_timescale() -> TimeScale {
    TimeScale { value: 0, unit: TimeUnit::S }
}

impl TimeScale {
    /// The default timescale: zero seconds.
    pub fn new() -> (r: TimeScale)
        ensures
            r == spec_default_timescale(),
    {
        TimeScale { value: 0, unit: TimeUnit::S }
    }

    /// Decode a single extracted timescale token such as `"1ps"`.
    pub fn load_from_str(s: &str) -> (r: Option<TimeScale>)
        ensures
            r == spec_timescale(s@),
    {
        let n = s.unicode_len();
        let mut k: usize = 0;
        while k < n && is_digit_exec(s.get_char(k))
            invariant
                0 <= k <= n,
                n == s@.len(),
                forall|j: int| 0 <= j < k ==> is_digit(s@[j]),
            decreases n - k,
        {
            k = k + 1;
        }
        proof {
            lemma_digit_run(s@, k as int);
        }
        if k == 0 {
            return None;
        }
        let mut val: u64 = 0;
        let mut j: usize = 0;
        while j < k
            invariant
                0 <= j <= k <= n,
                1 <= k,
                n == s@.len(),
                digit_run_len(s@) == k as int,
                forall|jj: int| 0 <= jj < k ==> is_digit(s@[jj]),
                val == digits_val(s@.take(j as int)),
            decreases k - j,
        {
            let c = s.get_char(j);
            let d: u64 = (c as u32 - 48) as u64;
            proof {
                assert(s@.take(j + 1).drop_last() =~= s@.take(j as int));
                assert(s@.take(j + 1).last() == s@[j as int]);
            }
            if val > (u64::MAX - d) / 10 {
                proof {
                    assert(digits_val(s@.take(j + 1)) == 10 * val + d);
                    assert(10 * val + d > u64::MAX) by (nonlinear_arith)
                        requires
                            val > (u64::MAX - d) / 10,
                            d <= 9,
                    ;
                    lemma_digits_val_mono(s@.take(k as int), j + 1);
                    assert(s@.take(k as int).take(j + 1) =~= s@.take(j + 1));
                }
                return None;
            }
            proof {
                assert(val * 10 + d <= u64::MAX) by (nonlinear_arith)
                    requires
                        val <= (u64::MAX - d) / 10,
                        d <= 9,
                ;
            }
            val = val * 10 + d;
            j = j + 1;
        }
        assert(s@.take(k as int) =~= s@.take(digit_run_len(s@)));
        let unit_str = s.substring_char(k, n);
        assert(unit_str@ =~= s@.skip(k as int));
        let unit = unit_of_exec(unit_str);
        match unit {
            Some(u) => Some(TimeScale { value: val, unit: u }),
            None => None,
        }
    }
}

/// Whether `c` is an ASCII decimal digit.
fn is_digit_exec(c: char) -> (r: bool)
    ensures
        r == is_digit(c),
{
    let v: u32 = c as u32;
    48 <= v && v <= 57
}

/// Match a unit name against the six valid unit strings.
fn unit_of_exec(u: &str) -> (r: Option<TimeUnit>)
    ensures
        r == spec_unit(u@),
{
    let us = String::from_str(u);
    if us == String::from_str("fs") {
        Some(TimeUnit::FS)
    } else if us == String::from_str("ps") {
        Some(TimeUnit::PS)
    } else if us == String::from_str("ns") {
        Some(TimeUnit::NS)
    } else if us == String::from_str("us") {
        Some(TimeUnit::US)
    } else if us == String::from_str("ms") {
        Some(TimeUnit::MS)
    } else if us == String::from_str("s") {
        Some(TimeUnit::S)
    } else {
        None
    }
}

/// A maximal run of `k` leading digits pins `digit_run_len` to `k`.
proof fn lemma_digit_run(s: Seq<char>, k: int)
    requires
        0 <= k <= s.len(),
        forall|j: int| 0 <= j < k ==> is_digit(s[j]),
        k < s.len() ==> !is_digit(s[k]),
    ensures
        digit_run_len(s) == k,
    decreases k,
{
    if k == 0 {
    } else {
        assert(is_digit(s[0]));
        lemma_digit_run(s.drop_first(), k - 1);
    }
}

/// The digits of a prefix denote no more than the digits of the whole run.
proof fn lemma_digits_val_mono(s: Seq<char>, j: int)
    requires
        0 <= j <= s.len(),
        forall|i: int| 0 <= i < s.len() ==> is_digit(s[i]),
    ensures
        0 <= digits_val(s.take(j)) <= digits_val(s),
    decreases s.len(),
{
    if s.len() == 0 {
        assert(s.take(j) =~= s);
    } else if j == s.len() {
        assert(s.take(j) =~= s);
        lemma_digits_val_mono(s.drop_last(), s.len() - 1);
        assert(s.drop_last().take(s.len() - 1) =~= s.drop_last());
    } else {
        lemma_digits_val_mono(s.drop_last(), j);
        assert(s.drop_last().take(j) =~= s.take(j));
        lemma_digits_val_mono(s.drop_last(), s.len() - 1);
        assert(s.drop_last().take(s.len() - 1) =~= s.drop_last());
    }
}

} // verus!
