//! Timestamps and timespans: a timestamp is a signed count of milliseconds,
//! a timespan is a pair of bounds used both as a subtitle's display interval
//! and as a selection range for placement rules.

use vstd::prelude::*;
use crate::error::SubError;
use crate::text::{
    all_digits, dec_digits, digit_char, digit_char_x, digit_val, digit_val_x, digits_end,
    digits_end_x, digits_to_val, digits_val, chars_to_string, is_digit, is_digit_x, is_ws,
    is_ws_x, leading_ws, leading_zeros, lemma_dec_digits, lemma_digits_end,
    lemma_digits_val_bound, lemma_digits_val_concat,
    lemma_leading_ws_is, lemma_leading_zeros_is, lemma_pow10_adds, lemma_pow10_mono,
    lemma_all_digits_range, lemma_dec_digits_len, lemma_digits_end_is,
    lemma_digits_val_single, lemma_digits_val_zeros,
    lemma_leading_zeros_bounds, lemma_trailing_ws_is, lemma_trailing_zeros_bounds,
    lemma_trailing_zeros_is, pow10, push_dec_u64, str_to_chars, trailing_ws, trailing_zeros,
    trim_ws,
};

verus! {

/// The value in milliseconds of a fractional digit string, by decimal
/// truncation: strip zeros from both ends, read the rest as an integer `v`
/// of length `l` and take `v * 1000 / 10^l`, then divide by ten once for
/// every leading zero of the original string.
pub open spec fn dp_val(s: Seq<char>) -> nat {
    let lz = leading_zeros(s);
    let tz = trailing_zeros(s);
    if lz == s.len() {
        0
    } else {
        let core = s.subrange(lz, s.len() - tz);
        (digits_val(core) * 1000 / pow10(core.len())) / pow10(lz as nat)
    }
}

/// The shape of a timestamp expression: `[[hh:]mm:]ss[.,frac]`, a bare
/// `.frac`, or nothing valid; an optional leading minus negates the value.
pub ghost enum TsForm {
    Invalid,
    FracOnly { neg: bool, frac: Seq<char> },
    Clock {
        neg: bool,
        hours: Option<Seq<char>>,
        minutes: Option<Seq<char>>,
        seconds: Seq<char>,
        frac: Option<Seq<char>>,
    },
}

/// Deterministic decomposition of a candidate timestamp (whitespace already
/// trimmed). Each component is a nonempty digit run; colons may introduce a
/// minutes and an hours component, and a comma or period a fractional part.
pub open spec fn ts_form(s: Seq<char>) -> TsForm {
    let b: int = if s.len() > 0 && s[0] == '-' {
        1
    } else {
        0
    };
    let neg = b == 1;
    if s.len() <= b {
        TsForm::Invalid
    } else if s[b] == '.' {
        if b + 1 < s.len() && all_digits(s.subrange(b + 1, s.len() as int)) {
            TsForm::FracOnly { neg, frac: s.subrange(b + 1, s.len() as int) }
        } else {
            TsForm::Invalid
        }
    } else {
        let e1 = digits_end(s, b);
        if e1 == b {
            TsForm::Invalid
        } else if e1 == s.len() {
            TsForm::Clock {
                neg,
                hours: None,
                minutes: None,
                seconds: s.subrange(b, e1),
                frac: None,
            }
        } else if s[e1] == '.' || s[e1] == ',' {
            let e2 = digits_end(s, e1 + 1);
            if e2 == s.len() && e2 > e1 + 1 {
                TsForm::Clock {
                    neg,
                    hours: None,
                    minutes: None,
                    seconds: s.subrange(b, e1),
                    frac: Some(s.subrange(e1 + 1, e2)),
                }
            } else {
                TsForm::Invalid
            }
        } else if s[e1] == ':' {
            let e2 = digits_end(s, e1 + 1);
            if e2 == e1 + 1 {
                TsForm::Invalid
            } else if e2 == s.len() {
                TsForm::Clock {
                    neg,
                    hours: None,
                    minutes: Some(s.subrange(b, e1)),
                    seconds: s.subrange(e1 + 1, e2),
                    frac: None,
                }
            } else if s[e2] == '.' || s[e2] == ',' {
                let e3 = digits_end(s, e2 + 1);
                if e3 == s.len() && e3 > e2 + 1 {
                    TsForm::Clock {
                        neg,
                        hours: None,
                        minutes: Some(s.subrange(b, e1)),
                        seconds: s.subrange(e1 + 1, e2),
                        frac: Some(s.subrange(e2 + 1, e3)),
                    }
                } else {
                    TsForm::Invalid
                }
            } else if s[e2] == ':' {
                let e3 = digits_end(s, e2 + 1);
                if e3 == e2 + 1 {
                    TsForm::Invalid
                } else if e3 == s.len() {
                    TsForm::Clock {
                        neg,
                        hours: Some(s.subrange(b, e1)),
                        minutes: Some(s.subrange(e1 + 1, e2)),
                        seconds: s.subrange(e2 + 1, e3),
                        frac: None,
                    }
                } else if s[e3] == '.' || s[e3] == ',' {
                    let e4 = digits_end(s, e3 + 1);
                    if e4 == s.len() && e4 > e3 + 1 {
                        TsForm::Clock {
                            neg,
                            hours: Some(s.subrange(b, e1)),
                            minutes: Some(s.subrange(e1 + 1, e2)),
                            seconds: s.subrange(e2 + 1, e3),
                            frac: Some(s.subrange(e3 + 1, e4)),
                        }
                    } else {
                        TsForm::Invalid
                    }
                } else {
                    TsForm::Invalid
                }
            } else {
                TsForm::Invalid
            }
        } else {
            TsForm::Invalid
        }
    }
}

/// The minutes/seconds validation: when a minutes (and possibly hours)
/// component is written, minutes and seconds must not exceed sixty. A bare
/// seconds count is unrestricted.
pub open spec fn ts_bounds_ok(f: TsForm) -> bool {
    match f {
        TsForm::Invalid => false,
        TsForm::FracOnly { .. } => true,
        TsForm::Clock { minutes, seconds, .. } => match minutes {
            Some(m) => digits_val(m) <= 60 && digits_val(seconds) <= 60,
            None => true,
        },
    }
}

/// The magnitude in milliseconds described by a valid form.
pub open spec fn ts_abs(f: TsForm) -> nat {
    match f {
        TsForm::Invalid => 0,
        TsForm::FracOnly { frac, .. } => dp_val(frac),
        TsForm::Clock { hours, minutes, seconds, frac, .. } => {
            let hv = match hours {
                Some(h) => digits_val(h),
                None => 0,
            };
            let mv = match minutes {
                Some(m) => digits_val(m),
                None => 0,
            };
            let fv = match frac {
                Some(fr) => dp_val(fr),
                None => 0,
            };
            fv + 1000 * (digits_val(seconds) + 60 * (mv + 60 * hv))
        },
    }
}

/// Whether a form is negated.
pub open spec fn ts_neg(f: TsForm) -> bool {
    match f {
        TsForm::Invalid => false,
        TsForm::FracOnly { neg, .. } => neg,
        TsForm::Clock { neg, .. } => neg,
    }
}

/// The signed millisecond count of an exact (untrimmed) timestamp
/// expression, or nothing when it does not match the grammar, a minutes or
/// seconds component is out of range, or the value does not fit a signed
/// 64-bit count.
pub open spec fn ts_value_opt(t: Seq<char>) -> Option<int> {
    let f = ts_form(t);
    if f is Invalid {
        None
    } else if ts_bounds_ok(f) && ts_abs(f) <= i64::MAX {
        if ts_neg(f) {
            Some(-(ts_abs(f) as int))
        } else {
            Some(ts_abs(f) as int)
        }
    } else {
        None
    }
}

/// What parsing a timestamp returns: the value of the text with surrounding
/// whitespace removed.
pub open spec fn parse_ms_spec(s: Seq<char>) -> Option<int> {
    ts_value_opt(trim_ws(s))
}

/// A millisecond interval. When parsed from timespan syntax the start is
/// strictly below the end; an absent bound is represented by the minimum or
/// maximum representable timestamp.
#[derive(Debug, Clone, Copy, PartialEq, Eq)]
pub struct TimeSpan {
    pub start_ms: i64,
    pub end_ms: i64,
}

/// The mathematical image of an interval.
pub ghost struct SpanM {
    pub start_ms: int,
    pub end_ms: int,
}

impl View for TimeSpan {
    type V = SpanM;

    open spec fn view(&self) -> SpanM {
        SpanM { start_ms: self.start_ms as int, end_ms: self.end_ms as int }
    }
}

impl TimeSpan {
    pub fn new(start_ms: i64, end_ms: i64) -> (r: Self)
        ensures
            r.start_ms == start_ms,
            r.end_ms == end_ms,
    {
        Self { start_ms, end_ms }
    }

    /// Check whether a time lies within this interval, both ends included.
    pub fn contains(&self, ms: i64) -> (r: bool)
        ensures
            r == (self.start_ms <= ms <= self.end_ms),
    {
        ms >= self.start_ms && ms <= self.end_ms
    }
}

/// The fractional digits `s[from..to]` as milliseconds, by decimal
/// truncation.
#[verifier::rlimit(100)]
fn dp_val_x(s: &Vec<char>, from: usize, to: usize) -> (r: u64)
    requires
        from <= to <= s@.len(),
        all_digits(s@.subrange(from as int, to as int)),
    ensures
        r as nat == dp_val(s@.subrange(from as int, to as int)),
        r < 1000,
{
    let ghost seg = s@.subrange(from as int, to as int);
    let mut lz: usize = 0;
    while from + lz < to && s[from + lz] == '0'
        invariant
            from + lz <= to <= s@.len(),
            seg == s@.subrange(from as int, to as int),
            forall|j: int| 0 <= j < lz ==> #[trigger] seg[j] == '0',
        decreases to - from - lz,
    {
        assert(seg[lz as int] == s@[from + lz]);
        lz = lz + 1;
    }
    assert(lz < to - from ==> seg[lz as int] != '0') by {
        if from + lz < to {
            assert(seg[lz as int] == s@[from + lz]);
        }
    }
    proof {
        lemma_leading_zeros_is(seg, lz as int);
    }
    if from + lz == to {
        return 0;
    }
    let mut tz: usize = 0;
    while s[to - 1 - tz] == '0'
        invariant
            from + lz < to <= s@.len(),
            tz <= to - from - lz - 1,
            seg == s@.subrange(from as int, to as int),
            leading_zeros(seg) == lz,
            seg[lz as int] != '0',
            forall|j: int| seg.len() - tz <= j < seg.len() ==> #[trigger] seg[j] == '0',
        decreases to - from - tz,
    {
        assert(seg[to - from - 1 - tz] == s@[to - 1 - tz]);
        assert(to - 1 - tz > from + lz) by {
            if to - 1 - tz == from + lz {
                assert(seg[lz as int] == s@[from + lz]);
            }
        }
        tz = tz + 1;
    }
    assert(seg[seg.len() - tz - 1] == s@[to - 1 - tz]);
    proof {
        lemma_trailing_zeros_is(seg, tz as int);
    }
    let c0 = from + lz;
    let c1 = to - tz;
    let ghost core = seg.subrange(lz as int, seg.len() - tz);
    proof {
        assert(core =~= s@.subrange(c0 as int, c1 as int));
        assert(all_digits(core)) by {
            assert(forall|k: int|
                0 <= k < core.len() ==> core[k] == #[trigger] seg[lz + k]);
        }
        lemma_digits_val_bound(core);
    }
    let ghost v = digits_val(core);
    let ghost el = core.len() as nat;
    assert(is_digit(s@[c0 as int]) && (c0 + 1 < c1 ==> is_digit(s@[c0 + 1])) && (c0 + 2 < c1
        ==> is_digit(s@[c0 + 2]))) by {
        assert(core[0] == s@[c0 as int]);
        if c0 + 1 < c1 {
            assert(core[1] == s@[c0 + 1]);
        }
        if c0 + 2 < c1 {
            assert(core[2] == s@[c0 + 2]);
        }
    }
    proof {
        assert(pow10(0) == 1);
        assert(pow10(1) == 10);
        assert(pow10(2) == 100);
        assert(pow10(3) == 1000);
    }
    let d0 = digit_val_x(s[c0]) as u64;
    let r0: u64;
    if c1 - c0 == 1 {
        r0 = d0 * 100;
        proof {
            assert(core.drop_last() =~= Seq::<char>::empty());
            assert(core.last() == s@[c0 as int]);
            assert(v == d0 as nat);
            vstd::arithmetic::div_mod::lemma_div_multiples_vanish((v * 100) as int, 10);
            assert(v * 1000 == 10 * (v * 100)) by (nonlinear_arith);
            assert(v * 1000 / pow10(el) == v * 100);
        }
    } else {
        let d1 = digit_val_x(s[c0 + 1]) as u64;
        if c1 - c0 == 2 {
            r0 = d0 * 100 + d1 * 10;
            proof {
                assert(core[0] == s@[c0 as int]);
                assert(core[1] == s@[c0 + 1]);
                assert(core.drop_last() =~= core.subrange(0, 1));
                assert(core.subrange(0, 1).drop_last() =~= Seq::<char>::empty());
                assert(core.subrange(0, 1).last() == core[0]);
                assert(core.last() == core[1]);
                assert(digits_val(core.subrange(0, 1)) == digit_val(core[0]));
                assert(v == d0 * 10 + d1);
                vstd::arithmetic::div_mod::lemma_div_multiples_vanish((v * 10) as int, 100);
                assert(v * 1000 == 100 * (v * 10)) by (nonlinear_arith);
                assert(v * 1000 / pow10(el) == v * 10);
                assert((d0 * 10 + d1) * 10 == d0 * 100 + d1 * 10) by (nonlinear_arith);
            }
        } else {
            let d2 = digit_val_x(s[c0 + 2]) as u64;
            r0 = d0 * 100 + d1 * 10 + d2;
            proof {
                let t3 = core.subrange(0, 3);
                let rest = core.subrange(3, core.len() as int);
                assert(core[0] == s@[c0 as int]);
                assert(core[1] == s@[c0 + 1]);
                assert(core[2] == s@[c0 + 2]);
                assert(t3.drop_last() =~= core.subrange(0, 2));
                assert(core.subrange(0, 2).drop_last() =~= core.subrange(0, 1));
                assert(core.subrange(0, 1).drop_last() =~= Seq::<char>::empty());
                assert(core.subrange(0, 1).last() == core[0]);
                assert(core.subrange(0, 2).last() == core[1]);
                assert(t3.last() == core[2]);
                let a3 = digits_val(t3);
                assert(digits_val(Seq::<char>::empty()) == 0);
                assert(digits_val(core.subrange(0, 1)) == digit_val(core[0]));
                assert(digits_val(core.subrange(0, 2)) == digit_val(core[0]) * 10 + digit_val(
                    core[1],
                ));
                assert(a3 == (d0 * 100 + d1 * 10 + d2) as nat);
                assert(core =~= t3 + rest);
                lemma_digits_val_concat(t3, rest);
                assert(all_digits(rest)) by {
                    assert(forall|k: int|
                        0 <= k < rest.len() ==> rest[k] == #[trigger] core[3 + k]);
                }
                lemma_digits_val_bound(rest);
                let b2 = digits_val(rest);
                let p3 = pow10((el - 3) as nat);
                assert(v == a3 * p3 + b2);
                assert(b2 < p3);
                lemma_pow10_adds(3, (el - 3) as nat);
                assert(pow10(el) == 1000 * p3);
                assert(v * 1000 == a3 * (1000 * p3) + 1000 * b2) by (nonlinear_arith)
                    requires
                        v == a3 * p3 + b2,
                ;
                assert(0 <= 1000 * b2 < 1000 * p3) by (nonlinear_arith)
                    requires
                        b2 < p3,
                        b2 >= 0,
                ;
                vstd::arithmetic::div_mod::lemma_fundamental_div_mod_converse(
                    (v * 1000) as int,
                    (1000 * p3) as int,
                    a3 as int,
                    (1000 * b2) as int,
                );
                assert(v * 1000 / pow10(el) == a3);
            }
        }
    }
    assert(r0 as nat == v * 1000 / pow10(el));
    assert(r0 <= 999);
    let r: u64;
    if lz == 0 {
        r = r0;
        proof {
            vstd::arithmetic::div_mod::lemma_div_basics(r0 as int);
        }
    } else if lz == 1 {
        r = r0 / 10;
    } else if lz == 2 {
        r = r0 / 100;
    } else {
        r = 0;
        proof {
            lemma_pow10_mono(3, lz as nat);
            vstd::arithmetic::div_mod::lemma_basic_div(r0 as int, pow10(lz as nat) as int);
        }
    }
    proof {
        vstd::arithmetic::div_mod::lemma_div_is_ordered(r as int, 999, 10);
        assert(dp_val(seg) == (v * 1000 / pow10(el)) / pow10(lz as nat));
    }
    assert(r < 1000);
    r
}

/// The digit value of an optional component range (absent: zero).
pub open spec fn range_val(s: Seq<char>, r: Option<(usize, usize)>) -> nat {
    match r {
        Some((a, b)) => digits_val(s.subrange(a as int, b as int)),
        None => 0,
    }
}

/// The fractional value of an optional component range (absent: zero).
pub open spec fn range_dp(s: Seq<char>, r: Option<(usize, usize)>) -> nat {
    match r {
        Some((a, b)) => dp_val(s.subrange(a as int, b as int)),
        None => 0,
    }
}

/// A component range lies within `s` and holds only digits.
pub open spec fn range_ok(s: Seq<char>, r: Option<(usize, usize)>) -> bool {
    match r {
        Some((a, b)) => a <= b <= s.len() && all_digits(s.subrange(a as int, b as int)),
        None => true,
    }
}

/// The common tail of timestamp parsing: combine the component digit runs
/// of a clock form into the signed millisecond count, applying the minutes
/// and seconds validation and the signed 64-bit range check.
#[verifier::rlimit(100)]
fn clock_value(
    t: &Vec<char>,
    neg: bool,
    hours_r: Option<(usize, usize)>,
    minutes_r: Option<(usize, usize)>,
    seconds_r: (usize, usize),
    frac_r: Option<(usize, usize)>,
) -> (r: Option<i64>)
    requires
        range_ok(t@, hours_r),
        range_ok(t@, minutes_r),
        range_ok(t@, Some(seconds_r)),
        range_ok(t@, frac_r),
    ensures
        ({
            let hv = range_val(t@, hours_r);
            let mv = range_val(t@, minutes_r);
            let sv = range_val(t@, Some(seconds_r));
            let fv = range_dp(t@, frac_r);
            let abs = fv + 1000 * sv + 60000 * mv + 3600000 * hv;
            let bounds = minutes_r is Some ==> (mv <= 60 && sv <= 60);
            match r {
                Some(v) => bounds && abs <= i64::MAX && v as int == (if neg {
                    -(abs as int)
                } else {
                    abs as int
                }),
                None => !(bounds && abs <= i64::MAX),
            }
        }),
{
    let cap: u64 = 0x7fff_ffff_ffff_ffff;
    let hv_o: Option<u64> = match hours_r {
        Some((a, b)) => digits_to_val(t, a, b, cap),
        None => Some(0),
    };
    let mv_o: Option<u64> = match minutes_r {
        Some((a, b)) => digits_to_val(t, a, b, cap),
        None => Some(0),
    };
    let sv_o: Option<u64> = digits_to_val(t, seconds_r.0, seconds_r.1, cap);
    let fv: u64 = match frac_r {
        Some((a, b)) => dp_val_x(t, a, b),
        None => 0,
    };
    let hv: u64;
    let mv: u64;
    let sv: u64;
    match (hv_o, mv_o, sv_o) {
        (Some(h), Some(m), Some(s2)) => {
            hv = h;
            mv = m;
            sv = s2;
        },
        _ => {
            return None;
        },
    }
    if minutes_r.is_some() && (mv > 60 || sv > 60) {
        return None;
    }
    let total: u128 = fv as u128 + 1000 * (sv as u128) + 60000 * (mv as u128) + 3600000 * (
    hv as u128);
    if total > cap as u128 {
        return None;
    }
    let tot = total as i64;
    if neg {
        Some(-tot)
    } else {
        Some(tot)
    }
}

/// Parse `[[hh:]mm:]ss[,frac]`, `ss.frac` or `.frac`, with an optional
/// leading minus and tolerated surrounding whitespace, into signed
/// milliseconds. Fails exactly when the text does not match the grammar,
/// a written minutes or seconds component exceeds sixty, or the value does
/// not fit a signed 64-bit count.
#[verifier::rlimit(100)]
pub fn parse_ms(input: &str) -> (r: Result<i64, SubError>)
    ensures
        (r matches Ok(v) ==> parse_ms_spec(input@) == Some(v as int)),
        (r matches Err(e) ==> parse_ms_spec(input@) is None && e is TimestampSyntax),
{
    let cs = str_to_chars(input);
    let n = cs.len();
    let mut lo: usize = 0;
    while lo < n && is_ws_x(cs[lo])
        invariant
            lo <= n == cs@.len(),
            forall|j: int| 0 <= j < lo ==> is_ws(#[trigger] cs@[j]),
        decreases n - lo,
    {
        lo = lo + 1;
    }
    proof {
        lemma_leading_ws_is(cs@, lo as int);
    }
    if lo == n {
        proof {
            assert(trim_ws(cs@) =~= Seq::<char>::empty());
        }
        return Err(SubError::TimestampSyntax(input.to_owned()));
    }
    let mut hi: usize = n;
    while hi > lo && is_ws_x(cs[hi - 1])
        invariant
            lo < n == cs@.len(),
            lo < hi <= n,
            !is_ws(cs@[lo as int]),
            forall|j: int| hi <= j < n ==> is_ws(#[trigger] cs@[j]),
        decreases hi,
    {
        assert(hi - 1 > lo) by {
            if hi - 1 == lo {
            }
        }
        hi = hi - 1;
    }
    assert(hi > lo);
    proof {
        lemma_trailing_ws_is(cs@, (n - hi) as int);
    }
    let mut t: Vec<char> = Vec::new();
    let mut k: usize = lo;
    while k < hi
        invariant
            lo <= k <= hi <= cs@.len(),
            t@ == cs@.subrange(lo as int, k as int),
        decreases hi - k,
    {
        t.push(cs[k]);
        assert(t@ =~= cs@.subrange(lo as int, k + 1));
        k = k + 1;
    }
    proof {
        assert(t@ == trim_ws(cs@));
    }
    match parse_ms_vec(&t) {
        Some(v) => Ok(v),
        None => Err(SubError::TimestampSyntax(input.to_owned())),
    }
}

/// The value of an exact timestamp expression held in a character vector.
#[verifier::rlimit(100)]
pub(crate) fn parse_ms_vec(t: &Vec<char>) -> (r: Option<i64>)
    ensures
        match r {
            Some(v) => ts_value_opt(t@) == Some(v as int),
            None => ts_value_opt(t@) is None,
        },
{
    let ghost w = t@;
    let m = t.len();
    if m == 0 {
        assert(ts_form(w) is Invalid);
        return None;
    }
    let neg = t[0] == '-';
    let b: usize = if neg {
        1
    } else {
        0
    };
    if m <= b {
        assert(ts_form(w) is Invalid);
        return None;
    }
    let value: Option<i64>;
    if t[b] == '.' {
        let e = digits_end_x(&t, b + 1);
        proof {
            lemma_digits_end(w, b + 1);
        }
        if e == m && e > b + 1 {
            assert(all_digits(w.subrange(b + 1, m as int)));
            assert(ts_form(w) matches TsForm::FracOnly { neg: n2, frac }
                && n2 == neg && frac == w.subrange(b + 1, m as int));
            let ms = dp_val_x(&t, b + 1, m);
            let v: i64 = if neg {
                -(ms as i64)
            } else {
                ms as i64
            };
            assert(ts_value_opt(w) == Some(v as int));
            return Some(v);
        } else {
            assert(ts_form(w) is Invalid) by {
                if e != m {
                    assert(!is_digit(w[digits_end(w, b + 1)]));
                    assert(!all_digits(w.subrange(b + 1, m as int))) by {
                        assert(w.subrange(b + 1, m as int)[digits_end(w, b + 1) - b - 1] == w[
                            digits_end(w, b + 1)]);
                    }
                }
            }
            return None;
        }
    }
    let e1 = digits_end_x(&t, b);
    if e1 == b {
        assert(ts_form(w) is Invalid);
        return None;
    }
    proof {
        lemma_digits_end(w, b as int);
    }
    if e1 == m {
        value = clock_value(&t, neg, None, None, (b, e1), None);
    } else if t[e1] == '.' || t[e1] == ',' {
        let e2 = digits_end_x(&t, e1 + 1);
        proof {
            lemma_digits_end(w, e1 + 1);
        }
        if e2 == m && e2 > e1 + 1 {
            value = clock_value(&t, neg, None, None, (b, e1), Some((e1 + 1, e2)));
        } else {
            assert(ts_form(w) is Invalid);
            return None;
        }
    } else if t[e1] == ':' {
        let e2 = digits_end_x(&t, e1 + 1);
        proof {
            lemma_digits_end(w, e1 + 1);
        }
        if e2 == e1 + 1 {
            assert(ts_form(w) is Invalid);
            return None;
        }
        if e2 == m {
            value = clock_value(&t, neg, None, Some((b, e1)), (e1 + 1, e2), None);
        } else if t[e2] == '.' || t[e2] == ',' {
            let e3 = digits_end_x(&t, e2 + 1);
            proof {
                lemma_digits_end(w, e2 + 1);
            }
            if e3 == m && e3 > e2 + 1 {
                value = clock_value(&t, neg, None, Some((b, e1)), (e1 + 1, e2), Some((e2 + 1, e3)));
            } else {
                assert(ts_form(w) is Invalid);
                return None;
            }
        } else if t[e2] == ':' {
            let e3 = digits_end_x(&t, e2 + 1);
            proof {
                lemma_digits_end(w, e2 + 1);
            }
            if e3 == e2 + 1 {
                assert(ts_form(w) is Invalid);
                return None;
            }
            if e3 == m {
                value = clock_value(&t, neg, Some((b, e1)), Some((e1 + 1, e2)), (e2 + 1, e3), None);
            } else if t[e3] == '.' || t[e3] == ',' {
                let e4 = digits_end_x(&t, e3 + 1);
                proof {
                    lemma_digits_end(w, e3 + 1);
                }
                if e4 == m && e4 > e3 + 1 {
                    value = clock_value(
                        &t,
                        neg,
                        Some((b, e1)),
                        Some((e1 + 1, e2)),
                        (e2 + 1, e3),
                        Some((e3 + 1, e4)),
                    );
                } else {
                    assert(ts_form(w) is Invalid);
                    return None;
                }
            } else {
                assert(ts_form(w) is Invalid);
                return None;
            }
        } else {
            assert(ts_form(w) is Invalid);
            return None;
        }
    } else {
        assert(ts_form(w) is Invalid);
        return None;
    }
    match value {
        Some(v) => {
            assert(ts_value_opt(w) == Some(v as int));
        },
        None => {
            assert(ts_value_opt(w) is None);
        },
    }
    value
}

/// Whether index `i` can be the range separator of `A?-B?`: it holds a
/// minus, what stands before it is empty or a timestamp that parses, and
/// what stands after it is empty or a timestamp that parses.
pub open spec fn span_split_ok(s: Seq<char>, i: int) -> bool {
    &&& 0 <= i < s.len()
    &&& s[i] == '-'
    &&& (i == 0 || ts_value_opt(s.subrange(0, i)) is Some)
    &&& (i + 1 == s.len() || ts_value_opt(s.subrange(i + 1, s.len() as int)) is Some)
}

/// The rightmost workable separator at or below `i`. A leading minus inside
/// a bound is a sign, the separator is the rightmost minus that still lets
/// both sides parse: the start expression is matched greedily.
pub open spec fn span_split_before(s: Seq<char>, i: int) -> Option<int>
    decreases i + 1,
{
    if i < 0 {
        None
    } else if span_split_ok(s, i) {
        Some(i)
    } else {
        span_split_before(s, i - 1)
    }
}

/// The chosen separator of a timespan, if any.
pub open spec fn span_split(s: Seq<char>) -> Option<int> {
    span_split_before(s, s.len() - 1)
}

/// What parsing a timespan can yield.
pub ghost enum TsParse {
    /// A well-formed interval.
    Span { start: int, end: int },
    /// No decomposition into two timestamp expressions exists.
    Syntax,
    /// Both sides parse but the end does not come strictly after the start.
    Range,
}

/// What parsing `A?-B?` returns: the minimum representable timestamp for an
/// absent start, the maximum for an absent end, and a range failure when
/// the resolved start does not lie strictly below the end.
pub open spec fn parse_timespan_spec(s: Seq<char>) -> TsParse {
    match span_split(s) {
        None => TsParse::Syntax,
        Some(i) => {
            let av = if i == 0 {
                Some(i64::MIN as int)
            } else {
                ts_value_opt(s.subrange(0, i))
            };
            let bv = if i + 1 == s.len() {
                Some(i64::MAX as int)
            } else {
                ts_value_opt(s.subrange(i + 1, s.len() as int))
            };
            match (av, bv) {
                (Some(a), Some(b)) => if a >= b {
                    TsParse::Range
                } else {
                    TsParse::Span { start: a, end: b }
                },
                _ => TsParse::Syntax,
            }
        },
    }
}

proof fn lemma_split_before_none(s: Seq<char>, k: int)
    requires
        forall|j: int| 0 <= j <= k ==> !span_split_ok(s, j),
    ensures
        span_split_before(s, k) is None,
    decreases k + 1,
{
    if k >= 0 {
        lemma_split_before_none(s, k - 1);
    }
}

proof fn lemma_split_before_at(s: Seq<char>, i: int, k: int)
    requires
        0 <= i <= k,
        span_split_ok(s, i),
        forall|j: int| i < j <= k ==> !span_split_ok(s, j),
    ensures
        span_split_before(s, k) == Some(i),
    decreases k,
{
    if k > i {
        lemma_split_before_at(s, i, k - 1);
    }
}

/// A copy of `s[from..to]`.
pub(crate) fn subvec(s: &Vec<char>, from: usize, to: usize) -> (v: Vec<char>)
    requires
        from <= to <= s@.len(),
    ensures
        v@ == s@.subrange(from as int, to as int),
{
    let mut v: Vec<char> = Vec::new();
    let mut k = from;
    while k < to
        invariant
            from <= k <= to <= s@.len(),
            v@ == s@.subrange(from as int, k as int),
        decreases to - k,
    {
        v.push(s[k]);
        assert(v@ =~= s@.subrange(from as int, k + 1));
        k = k + 1;
    }
    v
}

/// Parse an interval `A?-B?` where `A` and `B` are timestamp expressions,
/// an absent `A` means the minimum representable timestamp and an absent
/// `B` the maximum. Fails with a range error when the resolved start does
/// not lie strictly below the end, and with a syntax error when no
/// decomposition works.
pub fn parse_timespan(input: &str) -> (r: Result<TimeSpan, SubError>)
    ensures
        (r matches Ok(ts) ==> parse_timespan_spec(input@) == (TsParse::Span {
            start: ts.start_ms as int,
            end: ts.end_ms as int,
        })),
        (r matches Err(e) ==> match e {
            SubError::TimestampSyntax(_) => parse_timespan_spec(input@) is Syntax,
            SubError::TimespanRange(_) => parse_timespan_spec(input@) is Range,
            _ => false,
        }),
{
    let cs = str_to_chars(input);
    let m = cs.len();
    let mut i: usize = m;
    while i > 0
        invariant
            i <= m == cs@.len(),
            cs@ == input@,
            forall|j: int| i <= j < m ==> !span_split_ok(cs@, j),
        decreases i,
    {
        let idx = i - 1;
        if cs[idx] == '-' {
            let av: Option<i64>;
            if idx == 0 {
                av = Some(i64::MIN);
            } else {
                let va = subvec(&cs, 0, idx);
                av = parse_ms_vec(&va);
            }
            let bv: Option<i64>;
            if idx + 1 == m {
                bv = Some(i64::MAX);
            } else {
                let vb = subvec(&cs, idx + 1, m);
                bv = parse_ms_vec(&vb);
            }
            if av.is_some() && bv.is_some() {
                assert(span_split_ok(cs@, idx as int));
                proof {
                    lemma_split_before_at(cs@, idx as int, m - 1);
                }
                let a = av.unwrap();
                let b = bv.unwrap();
                proof {
                    let ghost sav = if idx == 0 {
                        Some(i64::MIN as int)
                    } else {
                        ts_value_opt(cs@.subrange(0, idx as int))
                    };
                    let ghost sbv = if idx + 1 == m {
                        Some(i64::MAX as int)
                    } else {
                        ts_value_opt(cs@.subrange(idx + 1, cs@.len() as int))
                    };
                    assert(span_split(cs@) == Some(idx as int));
                    assert(sav == Some(a as int));
                    assert(sbv == Some(b as int));
                }
                if a >= b {
                    assert(parse_timespan_spec(input@) is Range);
                    return Err(SubError::TimespanRange(input.to_owned()));
                }
                return Ok(TimeSpan::new(a, b));
            }
            assert(!span_split_ok(cs@, idx as int));
        }
        i = idx;
    }
    proof {
        lemma_split_before_none(cs@, m - 1);
    }
    Err(SubError::TimestampSyntax(input.to_owned()))
}

/// Parse a timestamp expression held in a character vector, whitespace
/// around it tolerated.
pub(crate) fn parse_ms_chars(v: &Vec<char>) -> (r: Option<i64>)
    ensures
        match r {
            Some(x) => parse_ms_spec(v@) == Some(x as int),
            None => parse_ms_spec(v@) is None,
        },
{
    let bounds = crate::text::trim_range(v);
    let t = subvec(v, bounds.0, bounds.1);
    parse_ms_vec(&t)
}

/// A number zero-padded to at least two digits.
pub open spec fn pad2(n: nat) -> Seq<char> {
    if n < 10 {
        seq!['0'] + dec_digits(n)
    } else {
        dec_digits(n)
    }
}

/// A number zero-padded to at least three digits.
pub open spec fn pad3(n: nat) -> Seq<char> {
    if n < 10 {
        seq!['0', '0'] + dec_digits(n)
    } else if n < 100 {
        seq!['0'] + dec_digits(n)
    } else {
        dec_digits(n)
    }
}

/// The canonical rendering of a millisecond count: `[-]hh:mm:ss,mmm`, each
/// field the decomposition of the absolute value, hours growing beyond two
/// digits when needed.
pub open spec fn fmt_ms_spec(v: int) -> Seq<char> {
    let a = (if v < 0 {
        -v
    } else {
        v
    }) as nat;
    let sign: Seq<char> = if v < 0 {
        seq!['-']
    } else {
        Seq::empty()
    };
    let h = a / 3600000;
    let r1 = a % 3600000;
    let mi = r1 / 60000;
    let r2 = r1 % 60000;
    let sec = r2 / 1000;
    let msr = r2 % 1000;
    sign + pad2(h) + seq![':'] + pad2(mi) + seq![':'] + pad2(sec) + seq![','] + pad3(msr)
}

/// The rendering of a timespan: the two bounds joined by an arrow.
pub open spec fn fmt_timespan_spec(start: int, end: int) -> Seq<char> {
    fmt_ms_spec(start) + seq![' ', '-', '-', '>', ' '] + fmt_ms_spec(end)
}

fn push_pad2(buf: &mut Vec<char>, n: u64)
    ensures
        final(buf)@ == old(buf)@ + pad2(n as nat),
{
    if n < 10 {
        buf.push('0');
    }
    push_dec_u64(buf, n);
    assert(buf@ =~= old(buf)@ + pad2(n as nat));
}

fn push_pad3(buf: &mut Vec<char>, n: u64)
    ensures
        final(buf)@ == old(buf)@ + pad3(n as nat),
{
    if n < 100 {
        buf.push('0');
    }
    if n < 10 {
        buf.push('0');
    }
    push_dec_u64(buf, n);
    assert(buf@ =~= old(buf)@ + pad3(n as nat));
}

/// Append the canonical rendering of a millisecond count.
pub(crate) fn push_ms(buf: &mut Vec<char>, ms: i64)
    ensures
        final(buf)@ == old(buf)@ + fmt_ms_spec(ms as int),
{
    let a: u64 = if ms < 0 {
        (-(ms as i128)) as u64
    } else {
        ms as u64
    };
    if ms < 0 {
        buf.push('-');
    }
    let h = a / 3600000;
    let r1 = a % 3600000;
    let mi = r1 / 60000;
    let r2 = r1 % 60000;
    let sec = r2 / 1000;
    let msr = r2 % 1000;
    push_pad2(buf, h);
    buf.push(':');
    push_pad2(buf, mi);
    buf.push(':');
    push_pad2(buf, sec);
    buf.push(',');
    push_pad3(buf, msr);
    assert(buf@ =~= old(buf)@ + fmt_ms_spec(ms as int));
}

/// Render a signed millisecond count as `[-]hh:mm:ss,mmm`.
pub fn format_ms(ms: i64) -> (r: String)
    ensures
        r@ == fmt_ms_spec(ms as int),
{
    let mut buf: Vec<char> = Vec::new();
    push_ms(&mut buf, ms);
    assert(buf@ =~= fmt_ms_spec(ms as int));
    chars_to_string(&buf)
}

impl TimeSpan {
    /// Render this interval as `hh:mm:ss,mmm --> hh:mm:ss,mmm`.
    pub fn format(&self) -> (r: String)
        ensures
            r@ == fmt_timespan_spec(self.start_ms as int, self.end_ms as int),
    {
        let mut buf: Vec<char> = Vec::new();
        self.push_format(&mut buf);
        chars_to_string(&buf)
    }

    /// Append the rendering of this interval.
    pub(crate) fn push_format(&self, buf: &mut Vec<char>)
        ensures
            final(buf)@ == old(buf)@ + fmt_timespan_spec(
                self.start_ms as int,
                self.end_ms as int,
            ),
    {
        push_ms(buf, self.start_ms);
        buf.push(' ');
        buf.push('-');
        buf.push('-');
        buf.push('>');
        buf.push(' ');
        push_ms(buf, self.end_ms);
        assert(buf@ =~= old(buf)@ + fmt_timespan_spec(
            self.start_ms as int,
            self.end_ms as int,
        ));
    }
}

pub proof fn lemma_pad2(n: nat)
    ensures
        all_digits(pad2(n)),
        pad2(n).len() >= 2,
        digits_val(pad2(n)) == n,
{
    lemma_dec_digits(n);
    if n < 10 {
        let w = pad2(n);
        assert(w == seq!['0'] + dec_digits(n));
        assert forall|i: int| 0 <= i < w.len() implies is_digit(#[trigger] w[i]) by {
            if i > 0 {
                assert(w[i] == dec_digits(n)[i - 1]);
            }
        }
        lemma_digits_val_concat(seq!['0'], dec_digits(n));
        lemma_digits_val_single('0');
        assert(w[0] == '0');
        assert(w.len() == 2);
        assert(digits_val(w) == digits_val(seq!['0']) * pow10(1) + digits_val(dec_digits(n)));
        assert(pow10(0) == 1);
        assert(pow10(1) == 10);
        assert(digits_val(w) == n);
    } else {
        assert(dec_digits(n).len() >= 2) by {
            assert(dec_digits(n) == dec_digits(n / 10).push(digit_char(n % 10)));
            lemma_dec_digits(n / 10);
        }
    }
}

pub proof fn lemma_pad3(n: nat)
    ensures
        all_digits(pad3(n)),
        pad3(n).len() >= 3,
        n < 1000 ==> pad3(n).len() == 3,
        digits_val(pad3(n)) == n,
{
    lemma_dec_digits(n);
    lemma_dec_digits_len(n);
    let w = pad3(n);
    if n < 10 {
        assert(w == seq!['0', '0'] + dec_digits(n));
        assert forall|i: int| 0 <= i < w.len() implies is_digit(#[trigger] w[i]) by {
            if i > 1 {
                assert(w[i] == dec_digits(n)[i - 2]);
            }
        }
        lemma_digits_val_concat(seq!['0', '0'], dec_digits(n));
        lemma_digits_val_zeros(seq!['0', '0']);
        assert(w[0] == '0');
        assert(w[1] == '0');
        assert(w.len() == 3);
        assert(pow10(0) == 1);
        assert(pow10(1) == 10);
        assert(digits_val(w) == digits_val(seq!['0', '0']) * pow10(1) + digits_val(
            dec_digits(n),
        ));
        assert(digits_val(w) == n);
    } else if n < 100 {
        assert(w == seq!['0'] + dec_digits(n));
        assert forall|i: int| 0 <= i < w.len() implies is_digit(#[trigger] w[i]) by {
            if i > 0 {
                assert(w[i] == dec_digits(n)[i - 1]);
            }
        }
        lemma_digits_val_concat(seq!['0'], dec_digits(n));
        lemma_digits_val_single('0');
        assert(w[0] == '0');
        assert(w.len() == 3);
        let d = dec_digits(n);
        assert(digits_val(w) == digits_val(seq!['0']) * pow10(d.len()) + digits_val(d));
        assert(digits_val(seq!['0']) * pow10(d.len()) == 0) by (nonlinear_arith)
            requires
                digits_val(seq!['0']) == 0,
        ;
        assert(digits_val(w) == n);
    } else {
        assert(dec_digits(n).len() >= 3) by {
            if n < 1000 {
            } else {
                assert(dec_digits(n) == dec_digits(n / 10).push(digit_char(n % 10)));
                assert(dec_digits(n / 10) == dec_digits(n / 10 / 10).push(
                    digit_char(n / 10 % 10),
                ));
                lemma_dec_digits(n / 10 / 10);
            }
        }
    }
}

/// Reading a three-digit zero-padded fraction back through decimal
/// truncation recovers the number.
pub proof fn lemma_dp_val_pad3(m: nat)
    requires
        m < 1000,
    ensures
        dp_val(pad3(m)) == m,
{
    lemma_pad3(m);
    let w = pad3(m);
    lemma_leading_zeros_bounds(w);
    let lz = leading_zeros(w);
    if lz == 3 {
        lemma_digits_val_zeros(w);
    } else {
        lemma_trailing_zeros_bounds(w);
        let tz = trailing_zeros(w);
        assert(lz < 3 - tz) by {
            if lz >= 3 - tz {
                assert(w[lz] == '0');
            }
        }
        let pre = w.subrange(0, lz);
        let core = w.subrange(lz, 3 - tz);
        let post = w.subrange(3 - tz, 3);
        let el = core.len() as nat;
        assert(w =~= (pre + core) + post);
        lemma_digits_val_concat(pre + core, post);
        lemma_digits_val_concat(pre, core);
        lemma_digits_val_zeros(post);
        lemma_digits_val_zeros(pre);
        let cv = digits_val(core);
        assert(digits_val(pre + core) == cv) by {
            assert(digits_val(pre) * pow10(core.len()) == 0) by (nonlinear_arith)
                requires
                    digits_val(pre) == 0,
            ;
        }
        assert(m == cv * pow10(tz as nat));
        lemma_pow10_adds(el, (lz + tz) as nat);
        lemma_pow10_adds(lz as nat, tz as nat);
        assert(pow10(0) == 1);
        assert(pow10(1) == 10);
        assert(pow10(2) == 100);
        assert(pow10(3) == 1000);
        let x = cv * pow10((lz + tz) as nat);
        assert(cv * 1000 == pow10(el) * x) by (nonlinear_arith)
            requires
                pow10(3) == 1000,
                pow10(el) * pow10((lz + tz) as nat) == pow10((el + lz + tz) as nat),
                el + lz + tz == 3,
                x == cv * pow10((lz + tz) as nat),
        ;
        vstd::arithmetic::div_mod::lemma_div_multiples_vanish(x as int, pow10(el) as int);
        assert(cv * 1000 / pow10(el) == x);
        let y = cv * pow10(tz as nat);
        assert(x == pow10(lz as nat) * y) by (nonlinear_arith)
            requires
                x == cv * pow10((lz + tz) as nat),
                pow10((lz + tz) as nat) == pow10(lz as nat) * pow10(tz as nat),
                y == cv * pow10(tz as nat),
        ;
        vstd::arithmetic::div_mod::lemma_div_multiples_vanish(y as int, pow10(lz as nat) as int);
        assert(x / pow10(lz as nat) == y);
        assert(dp_val(w) == y);
    }
}

/// Where each zero-padded field stands inside the canonical rendering.
#[verifier::rlimit(100)]
pub(crate) proof fn lemma_fmt_ms_pieces(v: int)
    ensures
        ({
            let a = (if v < 0 {
                -v
            } else {
                v
            }) as nat;
            let p1 = pad2(a / 3600000);
            let p2 = pad2(a % 3600000 / 60000);
            let p3 = pad2(a % 3600000 % 60000 / 1000);
            let p4 = pad3(a % 3600000 % 60000 % 1000);
            let w = fmt_ms_spec(v);
            let b: int = if v < 0 {
                1
            } else {
                0
            };
            let o1 = b + p1.len();
            let o3 = o1 + 1 + p2.len();
            let o5 = o3 + 1 + p3.len();
            let o7 = o5 + 1 + p4.len();
            &&& w.len() == o7
            &&& w.subrange(b, o1) == p1
            &&& w.subrange(o1 + 1, o3) == p2
            &&& w.subrange(o3 + 1, o5) == p3
            &&& w.subrange(o5 + 1, o7) == p4
            &&& w[o1] == ':'
            &&& w[o3] == ':'
            &&& w[o5] == ','
            &&& (v < 0 ==> w[0] == '-')
            &&& (v >= 0 ==> w[0] == p1[0])
            &&& w[w.len() - 1] == p4[p4.len() - 1]
        }),
{
    let a = (if v < 0 {
        -v
    } else {
        v
    }) as nat;
    let sign: Seq<char> = if v < 0 {
        seq!['-']
    } else {
        Seq::empty()
    };
    let p1 = pad2(a / 3600000);
    let p2 = pad2(a % 3600000 / 60000);
    let p3 = pad2(a % 3600000 % 60000 / 1000);
    let p4 = pad3(a % 3600000 % 60000 % 1000);
    let w = fmt_ms_spec(v);
    assert(w == sign + p1 + seq![':'] + p2 + seq![':'] + p3 + seq![','] + p4);
    lemma_pad2(a / 3600000);
    lemma_pad3(a % 3600000 % 60000 % 1000);
    let b: int = sign.len() as int;
    let o1 = b + p1.len();
    let o3 = o1 + 1 + p2.len();
    let o5 = o3 + 1 + p3.len();
    let o7 = o5 + 1 + p4.len();
    assert(w.subrange(b, o1) =~= p1);
    assert(w.subrange(o1 + 1, o3) =~= p2);
    assert(w.subrange(o3 + 1, o5) =~= p3);
    assert(w.subrange(o5 + 1, o7) =~= p4);
}

/// The canonical rendering of a timestamp decomposes under the grammar
/// into exactly its four zero-padded fields, and carries no surrounding
/// whitespace.
#[verifier::rlimit(100)]
proof fn lemma_fmt_ms_structure(v: int)
    ensures
        ({
            let a = (if v < 0 {
                -v
            } else {
                v
            }) as nat;
            let f = ts_form(fmt_ms_spec(v));
            trim_ws(fmt_ms_spec(v)) == fmt_ms_spec(v) && f == (TsForm::Clock {
                neg: v < 0,
                hours: Some(pad2(a / 3600000)),
                minutes: Some(pad2(a % 3600000 / 60000)),
                seconds: pad2(a % 3600000 % 60000 / 1000),
                frac: Some(pad3(a % 3600000 % 60000 % 1000)),
            })
        }),
{
    let a = (if v < 0 {
        -v
    } else {
        v
    }) as nat;
    let sign: Seq<char> = if v < 0 {
        seq!['-']
    } else {
        Seq::empty()
    };
    let h = a / 3600000;
    let r1 = a % 3600000;
    let mi = r1 / 60000;
    let r2 = r1 % 60000;
    let sec = r2 / 1000;
    let msr = r2 % 1000;
    let p1 = pad2(h);
    let p2 = pad2(mi);
    let p3 = pad2(sec);
    let p4 = pad3(msr);
    let w = fmt_ms_spec(v);
    assert(w == sign + p1 + seq![':'] + p2 + seq![':'] + p3 + seq![','] + p4);
    lemma_pad2(h);
    lemma_pad2(mi);
    lemma_pad2(sec);
    lemma_pad3(msr);
    let b: int = sign.len() as int;
    let o1 = b + p1.len();
    let o2 = o1 + 1;
    let o3 = o2 + p2.len();
    let o4 = o3 + 1;
    let o5 = o4 + p3.len();
    let o6 = o5 + 1;
    let o7 = o6 + p4.len();
    assert(w.len() == o7);
    lemma_fmt_ms_pieces(v);
    lemma_all_digits_range(w, b, o1);
    lemma_all_digits_range(w, o2, o3);
    lemma_all_digits_range(w, o4, o5);
    lemma_all_digits_range(w, o6, o7);
    assert(w[o1] == ':');
    assert(w[o3] == ':');
    assert(w[o5] == ',');
    if v < 0 {
        assert(w[0] == '-');
    } else {
        assert(w[0] == p1[0]);
        assert(is_digit(w[0]));
    }
    assert(!is_ws(w[0]));
    assert(w[w.len() - 1] == p4[p4.len() - 1]);
    assert(is_digit(w[w.len() - 1]));
    assert(!is_ws(w[w.len() - 1]));
    lemma_leading_ws_is(w, 0);
    lemma_trailing_ws_is(w, 0);
    assert(trim_ws(w) =~= w);
    lemma_digits_end_is(w, b, o1);
    lemma_digits_end_is(w, o2, o3);
    lemma_digits_end_is(w, o4, o5);
    lemma_digits_end_is(w, o6, o7);
    assert(ts_form(w) == (TsForm::Clock {
        neg: v < 0,
        hours: Some(p1),
        minutes: Some(p2),
        seconds: p3,
        frac: Some(p4),
    }));
}

/// A character that can stand in a rendered timestamp.
pub open spec fn ts_char(c: char) -> bool {
    is_digit(c) || c == ':' || c == ',' || c == '-'
}

/// Every character of a rendered timestamp is a digit or one of its three
/// separators; in particular none is a space, an angle bracket or
/// whitespace.
pub(crate) proof fn lemma_fmt_ms_chars(v: int)
    ensures
        forall|k: int|
            0 <= k < fmt_ms_spec(v).len() ==> ts_char(#[trigger] fmt_ms_spec(v)[k]),
        fmt_ms_spec(v).len() >= 12,
{
    let a = (if v < 0 {
        -v
    } else {
        v
    }) as nat;
    let p1 = pad2(a / 3600000);
    let p2 = pad2(a % 3600000 / 60000);
    let p3 = pad2(a % 3600000 % 60000 / 1000);
    let p4 = pad3(a % 3600000 % 60000 % 1000);
    let w = fmt_ms_spec(v);
    let b: int = if v < 0 {
        1
    } else {
        0
    };
    let o1 = b + p1.len();
    let o3 = o1 + 1 + p2.len();
    let o5 = o3 + 1 + p3.len();
    let o7 = o5 + 1 + p4.len();
    lemma_fmt_ms_pieces(v);
    lemma_pad2(a / 3600000);
    lemma_pad2(a % 3600000 / 60000);
    lemma_pad2(a % 3600000 % 60000 / 1000);
    lemma_pad3(a % 3600000 % 60000 % 1000);
    assert forall|k: int| 0 <= k < w.len() implies ts_char(#[trigger] w[k]) by {
        if k < b {
            assert(w[k] == '-');
        } else if k < o1 {
            assert(w[k] == w.subrange(b, o1)[k - b]);
        } else if k == o1 {
        } else if k < o3 {
            assert(w[k] == w.subrange(o1 + 1, o3)[k - o1 - 1]);
        } else if k == o3 {
        } else if k < o5 {
            assert(w[k] == w.subrange(o3 + 1, o5)[k - o3 - 1]);
        } else if k == o5 {
        } else {
            assert(w[k] == w.subrange(o5 + 1, o7)[k - o5 - 1]);
        }
    }
}

/// Rendering any representable timestamp and parsing the result recovers
/// the same millisecond count: the canonical form is faithful. (The one
/// value below every representable rendering magnitude, the minimum of the
/// signed 64-bit range, has no such rendering.)
#[verifier::rlimit(100)]
pub proof fn lemma_format_parse_roundtrip(v: i64)
    requires
        v > i64::MIN,
    ensures
        parse_ms_spec(fmt_ms_spec(v as int)) == Some(v as int),
{
    let a = (if (v as int) < 0 {
        -(v as int)
    } else {
        v as int
    }) as nat;
    let sign: Seq<char> = if v < 0 {
        seq!['-']
    } else {
        Seq::empty()
    };
    let h = a / 3600000;
    let r1 = a % 3600000;
    let mi = r1 / 60000;
    let r2 = r1 % 60000;
    let sec = r2 / 1000;
    let msr = r2 % 1000;
    let p1 = pad2(h);
    let p2 = pad2(mi);
    let p3 = pad2(sec);
    let p4 = pad3(msr);
    let w = fmt_ms_spec(v as int);
    assert(w == sign + p1 + seq![':'] + p2 + seq![':'] + p3 + seq![','] + p4);
    lemma_pad2(h);
    lemma_pad2(mi);
    lemma_pad2(sec);
    lemma_pad3(msr);
    assert(mi <= 59 && sec <= 59 && msr <= 999 && r1 < 3600000 && r2 < 60000);
    lemma_dp_val_pad3(msr);
    lemma_fmt_ms_structure(v as int);
    let f = ts_form(w);
    assert(ts_bounds_ok(f));
    vstd::arithmetic::div_mod::lemma_fundamental_div_mod(a as int, 3600000);
    vstd::arithmetic::div_mod::lemma_fundamental_div_mod(r1 as int, 60000);
    vstd::arithmetic::div_mod::lemma_fundamental_div_mod(r2 as int, 1000);
    assert(ts_abs(f) == msr + 1000 * (sec + 60 * (mi + 60 * h)));
    assert(ts_abs(f) == a);
    assert(ts_abs(f) <= i64::MAX);
    assert(ts_neg(f) == (v < 0));
    assert(parse_ms_spec(w) == Some(v as int));
}

/// The digits written after a fractional separator, read as milliseconds:
/// "050" means 50 ms, "5" means 500 ms, digits beyond the third are
/// truncated away.
pub fn parse_decimal_part(n: &str) -> (r: u64)
    requires
        all_digits(n@),
    ensures
        r as nat == dp_val(n@),
        r < 1000,
{
    let cs = str_to_chars(n);
    let len = cs.len();
    proof {
        assert(cs@.subrange(0, cs@.len() as int) =~= cs@);
    }
    dp_val_x(&cs, 0, len)
}

} // verus!
