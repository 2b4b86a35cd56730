//! The transformation engine: renumbering, forced top/bottom placement, and
//! the timing adjustment of offset followed by rational scaling with
//! truncation toward zero.

use vstd::prelude::*;
use vstd::pervasive::VecAdditionalExecFns;
use crate::doc::{DocM, PosM, Position, SubData, SubtitleM, Subtitle, subs_view};
use crate::error::SubError;
use crate::text::{
    chars_to_string, digits_end, is_digit, lemma_digits_end, str_to_chars,
};
use crate::time::{SpanM, TimeSpan};

verus! {

/// A scale factor as an exact rational: `num / den`, with `den` positive.
#[derive(Debug, Clone, Copy)]
pub struct Scale {
    pub num: i64,
    pub den: i64,
}

/// The mathematical image of a scale factor.
pub ghost struct ScaleM {
    pub num: int,
    pub den: int,
}

impl View for Scale {
    type V = ScaleM;

    open spec fn view(&self) -> ScaleM {
        ScaleM { num: self.num as int, den: self.den as int }
    }
}

/// The fully resolved configuration the engine consumes: every mutually
/// exclusive choice already settled by the caller.
#[derive(Debug, Clone)]
pub struct OptFinal {
    pub scale: Option<Scale>,
    pub scale_pivot: Option<i64>,
    pub offset_ms: i64,
    pub offset_start_ms: i64,
    pub renumber_offset: bool,
    pub to_top: Vec<TimeSpan>,
    pub to_bottom: Vec<TimeSpan>,
}

/// The mathematical image of a configuration.
pub ghost struct OptM {
    pub scale: Option<ScaleM>,
    pub scale_pivot: Option<int>,
    pub offset_ms: int,
    pub offset_start_ms: int,
    pub renumber: bool,
    pub to_top: Seq<SpanM>,
    pub to_bottom: Seq<SpanM>,
}

impl View for OptFinal {
    type V = OptM;

    open spec fn view(&self) -> OptM {
        OptM {
            scale: match self.scale {
                Some(s) => Some(s@),
                None => None,
            },
            scale_pivot: match self.scale_pivot {
                Some(p) => Some(p as int),
                None => None,
            },
            offset_ms: self.offset_ms as int,
            offset_start_ms: self.offset_start_ms as int,
            renumber: self.renumber_offset,
            to_top: self.to_top@.map_values(|t: TimeSpan| t@),
            to_bottom: self.to_bottom@.map_values(|t: TimeSpan| t@),
        }
    }
}

/// A time lies within one of the intervals, both ends included.
pub open spec fn in_spans(spans: Seq<SpanM>, ms: int) -> bool {
    exists|j: int|
        0 <= j < spans.len() && (#[trigger] spans[j]).start_ms <= ms <= spans[j].end_ms
}

/// The length of a leading position-override tag `{\an<digits>}`, zero when
/// none stands at the front.
pub open spec fn tag_len(l: Seq<char>) -> int {
    if l.len() >= 4 && l[0] == '{' && l[1] == '\\' && l[2] == 'a' && l[3] == 'n' {
        let e = digits_end(l, 4);
        if e > 4 && e < l.len() && l[e] == '}' {
            e + 1
        } else {
            0
        }
    } else {
        0
    }
}

/// The tag that forces a subtitle to the top of the frame.
pub open spec fn top_tag() -> Seq<char> {
    seq!['{', '\\', 'a', 'n', '8', '}']
}

/// The first line with the top-forcing tag at its front, replacing any tag
/// already there.
pub open spec fn retag_top(l: Seq<char>) -> Seq<char> {
    top_tag() + l.skip(tag_len(l))
}

/// The first line with a leading position-override tag removed.
pub open spec fn strip_tag(l: Seq<char>) -> Seq<char> {
    l.skip(tag_len(l))
}

/// Integer division truncating toward zero.
pub open spec fn trunc_div(a: int, b: int) -> int {
    if a >= 0 {
        a / b
    } else {
        -((-a) / b)
    }
}

/// The pivot of a configuration: zero when none is given.
pub open spec fn opt_pivot(o: OptM) -> int {
    match o.scale_pivot {
        Some(p) => p,
        None => 0,
    }
}

/// A bound scaled about the pivot, truncating toward zero.
pub open spec fn scale_bound(b: int, sc: ScaleM, pivot: int) -> int {
    pivot + trunc_div((b - pivot) * sc.num, sc.den)
}

/// A bound after the timing adjustment: shifted by the offset, then, when a
/// scale is configured, scaled about the fixed pivot.
pub open spec fn adj_bound(b: int, o: OptM) -> int {
    let shifted = b + o.offset_ms;
    match o.scale {
        Some(sc) => scale_bound(shifted, sc, opt_pivot(o)),
        None => shifted,
    }
}

/// The record's original start falls in a forced-top interval.
pub open spec fn rec_top(r: SubtitleM, o: OptM) -> bool {
    in_spans(o.to_top, r.start_ms)
}

/// The record's original start falls in a forced-bottom interval (and not
/// a forced-top one).
pub open spec fn rec_bottom(r: SubtitleM, o: OptM) -> bool {
    !rec_top(r, o) && in_spans(o.to_bottom, r.start_ms)
}

/// Forced-top placement collides with a hard-coded pixel position.
pub open spec fn rec_conflict(r: SubtitleM, o: OptM) -> bool {
    rec_top(r, o) && r.position is Some
}

/// One record after the whole transformation, at position `i` in document
/// order: renumbering, placement by the original start time, then the
/// timing adjustment when the original start qualifies.
pub open spec fn modify_rec(r: SubtitleM, i: int, o: OptM) -> SubtitleM {
    let number = if o.renumber {
        i + 1
    } else {
        r.number
    };
    let position = if rec_bottom(r, o) {
        None
    } else {
        r.position
    };
    let lines = if rec_top(r, o) {
        r.lines.update(0, retag_top(r.lines[0]))
    } else if rec_bottom(r, o) {
        r.lines.update(0, strip_tag(r.lines[0]))
    } else {
        r.lines
    };
    if r.start_ms >= o.offset_start_ms {
        SubtitleM {
            number,
            start_ms: adj_bound(r.start_ms, o),
            end_ms: adj_bound(r.end_ms, o),
            position,
            lines,
        }
    } else {
        SubtitleM { number, start_ms: r.start_ms, end_ms: r.end_ms, position, lines }
    }
}

/// A configured scale has a positive denominator.
pub open spec fn scale_wf(o: OptM) -> bool {
    match o.scale {
        Some(sc) => 0 < sc.den <= i64::MAX,
        None => true,
    }
}

/// The adjusted value of a bound stays representable: the shifted bound
/// fits a signed 64-bit count, the scale product fits a signed 128-bit
/// count, and the scaled result fits a signed 64-bit count again.
pub open spec fn span_fits(b: int, o: OptM) -> bool {
    let shifted = b + o.offset_ms;
    &&& i64::MIN <= shifted <= i64::MAX
    &&& match o.scale {
        Some(sc) => {
            let prod = (shifted - opt_pivot(o)) * sc.num;
            &&& -(i128::MAX as int) <= prod <= i128::MAX
            &&& i64::MIN <= scale_bound(shifted, sc, opt_pivot(o)) <= i64::MAX
        },
        None => true,
    }
}

/// The whole transformation stays within machine bounds on this document:
/// no shifted or scaled bound overflows, renumbering stays countable, and
/// a record whose placement is forced has a first line to carry the tag.
pub open spec fn modify_ok(d: DocM, o: OptM) -> bool {
    &&& scale_wf(o)
    &&& (o.renumber ==> d.subs.len() <= i64::MAX)
    &&& forall|i: int|
        0 <= i < d.subs.len() ==> {
            let r = #[trigger] d.subs[i];
            &&& ((rec_top(r, o) || rec_bottom(r, o)) ==> r.lines.len() >= 1)
            &&& (r.start_ms >= o.offset_start_ms ==> span_fits(r.start_ms, o) && span_fits(
                r.end_ms,
                o,
            ))
        }
}

/// A record whose original start lies outside every forced-top interval
/// can never raise a position conflict, whatever the forced-bottom
/// intervals say: only forced-top placement collides with a hard-coded
/// position.
pub proof fn lemma_no_conflict_outside_top(r: SubtitleM, o: OptM)
    requires
        !in_spans(o.to_top, r.start_ms),
    ensures
        !rec_conflict(r, o),
{
}

/// An offset of zero together with a scale of one (or none) leaves every
/// record's timestamps exactly as they were: the transformation is the
/// identity on timing.
pub proof fn lemma_identity_timing(r: SubtitleM, i: int, o: OptM)
    requires
        o.offset_ms == 0,
        match o.scale {
            Some(sc) => sc.num == sc.den && sc.den > 0,
            None => true,
        },
    ensures
        modify_rec(r, i, o).start_ms == r.start_ms,
        modify_rec(r, i, o).end_ms == r.end_ms,
{
    assert forall|b: int| adj_bound(b, o) == b by {
        match o.scale {
            Some(sc) => {
                let p = opt_pivot(o);
                let d = b - p;
                assert(d * sc.num == sc.den * d) by (nonlinear_arith)
                    requires
                        sc.num == sc.den,
                ;
                if d >= 0 {
                    vstd::arithmetic::div_mod::lemma_div_multiples_vanish(d, sc.den);
                    assert(trunc_div(d * sc.num, sc.den) == d);
                } else {
                    assert(-(d * sc.num) == sc.den * (-d)) by (nonlinear_arith)
                        requires
                            sc.num == sc.den,
                    ;
                    vstd::arithmetic::div_mod::lemma_div_multiples_vanish(-d, sc.den);
                    assert(trunc_div(d * sc.num, sc.den) == -(-d) == d);
                }
            },
            None => {},
        }
    }
}

/// Offset-by-zero with scale-by-one (or no scale), applied to any
/// document, is the identity transformation on every record's timestamps.
pub proof fn lemma_identity_document(d: DocM, o: OptM)
    requires
        o.offset_ms == 0,
        match o.scale {
            Some(sc) => sc.num == sc.den && sc.den > 0,
            None => true,
        },
    ensures
        forall|i: int|
            0 <= i < d.subs.len() ==> modify_rec(#[trigger] d.subs[i], i, o).start_ms
                == d.subs[i].start_ms && modify_rec(d.subs[i], i, o).end_ms == d.subs[i].end_ms,
{
    assert forall|i: int|
        0 <= i < d.subs.len() implies modify_rec(#[trigger] d.subs[i], i, o).start_ms
        == d.subs[i].start_ms && modify_rec(d.subs[i], i, o).end_ms == d.subs[i].end_ms by {
        lemma_identity_timing(d.subs[i], i, o);
    }
}

/// Renumbering gives record `i` (in document order, counted from zero) the
/// number `i + 1`, whatever number it carried before.
pub proof fn lemma_renumber(r: SubtitleM, i: int, o: OptM)
    requires
        o.renumber,
    ensures
        modify_rec(r, i, o).number == i + 1,
{
}

/// Whether some forced-top interval touches some forced-bottom interval:
/// an endpoint of one lies inside the other. The caller that assembles a
/// configuration rejects it when this holds.
pub open spec fn spans_overlap(a: Seq<SpanM>, b: Seq<SpanM>) -> bool {
    exists|i: int, j: int|
        0 <= i < a.len() && 0 <= j < b.len() && span_pair_overlaps(
            #[trigger] a[i],
            #[trigger] b[j],
        )
}

/// Check whether the forced-top and forced-bottom interval lists touch.
pub fn placement_overlaps(to_top: &Vec<TimeSpan>, to_bottom: &Vec<TimeSpan>) -> (r: bool)
    ensures
        r == spans_overlap(
            to_top@.map_values(|t: TimeSpan| t@),
            to_bottom@.map_values(|t: TimeSpan| t@),
        ),
{
    let ghost ga = to_top@.map_values(|t: TimeSpan| t@);
    let ghost gb = to_bottom@.map_values(|t: TimeSpan| t@);
    let n = to_top.len();
    let m = to_bottom.len();
    let mut i: usize = 0;
    while i < n
        invariant
            i <= n == to_top@.len(),
            m == to_bottom@.len(),
            ga == to_top@.map_values(|t: TimeSpan| t@),
            gb == to_bottom@.map_values(|t: TimeSpan| t@),
            forall|x: int, y: int|
                0 <= x < i && 0 <= y < m ==> !span_pair_overlaps(ga[x], gb[y]),
        decreases n - i,
    {
        let mut j: usize = 0;
        while j < m
            invariant
                i < n == to_top@.len(),
                j <= m == to_bottom@.len(),
                ga == to_top@.map_values(|t: TimeSpan| t@),
                gb == to_bottom@.map_values(|t: TimeSpan| t@),
                forall|x: int, y: int|
                    0 <= x < i && 0 <= y < m ==> !span_pair_overlaps(ga[x], gb[y]),
                forall|y: int| 0 <= y < j ==> !span_pair_overlaps(ga[i as int], gb[y]),
            decreases m - j,
        {
            let a = &to_top[i];
            let b = &to_bottom[j];
            if a.contains(b.start_ms) || a.contains(b.end_ms) || b.contains(a.start_ms)
                || b.contains(a.end_ms) {
                assert(span_pair_overlaps(ga[i as int], gb[j as int]));
                return true;
            }
            assert(!span_pair_overlaps(ga[i as int], gb[j as int]));
            j = j + 1;
        }
        i = i + 1;
    }
    assert(!spans_overlap(ga, gb)) by {
        assert(forall|x: int, y: int|
            0 <= x < ga.len() && 0 <= y < gb.len() ==> !span_pair_overlaps(
                #[trigger] ga[x],
                #[trigger] gb[y],
            ));
    }
    false
}

/// One forced-top interval touches one forced-bottom interval.
pub open spec fn span_pair_overlaps(x: SpanM, y: SpanM) -> bool {
    ||| x.start_ms <= y.start_ms <= x.end_ms
    ||| x.start_ms <= y.end_ms <= x.end_ms
    ||| y.start_ms <= x.start_ms <= y.end_ms
    ||| y.start_ms <= x.end_ms <= y.end_ms
}

/// Whether a time lies in one of the intervals, executably.
fn in_spans_x(spans: &Vec<TimeSpan>, ms: i64) -> (b: bool)
    ensures
        b == in_spans(spans@.map_values(|t: TimeSpan| t@), ms as int),
{
    let ghost gs = spans@.map_values(|t: TimeSpan| t@);
    let n = spans.len();
    let mut i: usize = 0;
    while i < n
        invariant
            i <= n == spans@.len(),
            gs == spans@.map_values(|t: TimeSpan| t@),
            forall|j: int|
                0 <= j < i ==> !((#[trigger] gs[j]).start_ms <= ms <= gs[j].end_ms),
        decreases n - i,
    {
        if spans[i].contains(ms) {
            assert(gs[i as int].start_ms <= ms <= gs[i as int].end_ms);
            return true;
        }
        i = i + 1;
    }
    false
}

/// The length of a leading position-override tag, executably.
fn tag_len_x(v: &Vec<char>) -> (r: usize)
    ensures
        r as int == tag_len(v@),
        r <= v@.len(),
{
    let n = v.len();
    if n >= 4 && v[0] == '{' && v[1] == '\\' && v[2] == 'a' && v[3] == 'n' {
        let e = crate::text::digits_end_x(v, 4);
        proof {
            lemma_digits_end(v@, 4);
        }
        if e > 4 && e < n && v[e] == '}' {
            return e + 1;
        }
    }
    0
}

/// The first line of a record with the top-forcing tag put at its front.
fn retag_top_x(s: &str) -> (r: String)
    ensures
        r@ == retag_top(s@),
{
    let v = str_to_chars(s);
    let tl = tag_len_x(&v);
    let mut buf: Vec<char> = Vec::new();
    buf.push('{');
    buf.push('\\');
    buf.push('a');
    buf.push('n');
    buf.push('8');
    buf.push('}');
    let n = v.len();
    let mut i = tl;
    while i < n
        invariant
            tl <= i <= n == v@.len(),
            buf@ == top_tag() + v@.subrange(tl as int, i as int),
        decreases n - i,
    {
        buf.push(v[i]);
        assert(buf@ =~= top_tag() + v@.subrange(tl as int, i + 1));
        i = i + 1;
    }
    proof {
        assert(v@.subrange(tl as int, n as int) =~= v@.skip(tl as int));
    }
    chars_to_string(&buf)
}

/// The first line of a record with a leading position-override tag
/// removed.
fn strip_tag_x(s: &str) -> (r: String)
    ensures
        r@ == strip_tag(s@),
{
    let v = str_to_chars(s);
    let tl = tag_len_x(&v);
    let n = v.len();
    let mut buf: Vec<char> = Vec::new();
    let mut i = tl;
    while i < n
        invariant
            tl <= i <= n == v@.len(),
            buf@ == v@.subrange(tl as int, i as int),
        decreases n - i,
    {
        buf.push(v[i]);
        assert(buf@ =~= v@.subrange(tl as int, i + 1));
        i = i + 1;
    }
    proof {
        assert(v@.subrange(tl as int, n as int) =~= v@.skip(tl as int));
    }
    chars_to_string(&buf)
}

/// A copy of a record's text lines.
fn clone_lines(v: &Vec<String>) -> (r: Vec<String>)
    ensures
        r.deep_view() == v.deep_view(),
        r@.len() == v@.len(),
{
    let n = v.len();
    let mut r: Vec<String> = Vec::new();
    proof {
        assert(r.deep_view() =~= v.deep_view().take(0));
    }
    let mut i: usize = 0;
    while i < n
        invariant
            i <= n == v@.len(),
            r@.len() == i,
            r.deep_view() == v.deep_view().take(i as int),
        decreases n - i,
    {
        let c = v[i].clone();
        assert(c@ == v@[i as int]@);
        r.push(c);
        assert(r.deep_view() =~= v.deep_view().take(i + 1));
        i = i + 1;
    }
    assert(v.deep_view().take(n as int) =~= v.deep_view());
    r
}

/// One bound through the timing adjustment, or nothing where a step would
/// overflow.
#[verifier::rlimit(100)]
fn adj_bound_x(b: i64, opt: &OptFinal) -> (r: Option<i64>)
    requires
        scale_wf(opt@),
    ensures
        match r {
            Some(v) => span_fits(b as int, opt@) && v as int == adj_bound(b as int, opt@),
            None => !span_fits(b as int, opt@),
        },
{
    let shifted_w: i128 = b as i128 + opt.offset_ms as i128;
    if shifted_w > i64::MAX as i128 || shifted_w < i64::MIN as i128 {
        return None;
    }
    let shifted = shifted_w as i64;
    match opt.scale {
        None => Some(shifted),
        Some(sc) => {
            let pivot: i64 = match opt.scale_pivot {
                Some(p) => p,
                None => 0,
            };
            let diff: i128 = shifted as i128 - pivot as i128;
            let ghost prod = (shifted as int - pivot as int) * sc.num as int;
            let neg = (diff < 0) != (sc.num < 0);
            let ad: u128 = if diff < 0 {
                (-diff) as u128
            } else {
                diff as u128
            };
            let an: u128 = if sc.num < 0 {
                (-(sc.num as i128)) as u128
            } else {
                sc.num as u128
            };
            proof {
                assert(prod == diff as int * sc.num as int);
                if diff < 0 {
                    if sc.num < 0 {
                        assert(prod == ad * an) by (nonlinear_arith)
                            requires
                                prod == diff as int * sc.num as int,
                                ad == -(diff as int),
                                an == -(sc.num as int),
                        ;
                    } else {
                        assert(prod == -(ad * an)) by (nonlinear_arith)
                            requires
                                prod == diff as int * sc.num as int,
                                ad == -(diff as int),
                                an == sc.num as int,
                        ;
                    }
                } else {
                    if sc.num < 0 {
                        assert(prod == -(ad * an)) by (nonlinear_arith)
                            requires
                                prod == diff as int * sc.num as int,
                                ad == diff as int,
                                an == -(sc.num as int),
                        ;
                    } else {
                        assert(prod == ad * an) by (nonlinear_arith)
                            requires
                                prod == diff as int * sc.num as int,
                                ad == diff as int,
                                an == sc.num as int,
                        ;
                    }
                }
            }
            let capm: u128 = i128::MAX as u128;
            if an != 0 && ad > capm / an {
                proof {
                    let k = capm / an;
                    vstd::arithmetic::div_mod::lemma_fundamental_div_mod(capm as int, an as int);
                    vstd::arithmetic::div_mod::lemma_mod_bound(capm as int, an as int);
                    assert(capm as int == (an as int) * k + (capm as int) % (an as int));
                    assert((capm as int) % (an as int) < an as int);
                    assert(ad * an >= (k + 1) * an) by (nonlinear_arith)
                        requires
                            ad >= k + 1,
                            an >= 1,
                    ;
                    assert((k + 1) * an == an * k + an) by (nonlinear_arith);
                    assert(ad * an > capm);
                }
                return None;
            }
            proof {
                if an != 0 {
                    let k = capm / an;
                    vstd::arithmetic::div_mod::lemma_fundamental_div_mod(capm as int, an as int);
                    vstd::arithmetic::div_mod::lemma_mod_bound(capm as int, an as int);
                    assert(capm as int == (an as int) * k + (capm as int) % (an as int));
                    assert(ad * an <= k * an) by (nonlinear_arith)
                        requires
                            ad <= k,
                            an >= 0,
                    ;
                    assert(k * an == (an as int) * k) by (nonlinear_arith);
                    assert(k * an <= capm);
                } else {
                    assert(ad * an == 0) by (nonlinear_arith)
                        requires
                            an == 0,
                    ;
                }
            }
            let pm: u128 = ad * an;
            let q: u128 = pm / (sc.den as u128);
            proof {
                vstd::arithmetic::div_mod::lemma_div_is_ordered(
                    q as int,
                    pm as int,
                    1,
                );
                vstd::arithmetic::div_mod::lemma_div_nonincreasing(pm as int, sc.den as int);
                assert(q <= pm);
                if neg {
                    assert(prod == -(pm as int) || pm == 0);
                    assert(trunc_div(prod, sc.den as int) == -(q as int) || (pm == 0
                        && trunc_div(prod, sc.den as int) == 0 && q == 0)) by {
                        if pm == 0 {
                            vstd::arithmetic::div_mod::lemma_div_of0(sc.den as int);
                        }
                    }
                } else {
                    assert(prod == pm);
                    assert(trunc_div(prod, sc.den as int) == q);
                }
            }
            let hi: i128 = i64::MAX as i128 - pivot as i128;
            let lo_m: i128 = pivot as i128 - (i64::MIN as i128);
            if neg {
                if q > lo_m as u128 {
                    return None;
                }
                let res: i128 = pivot as i128 - q as i128;
                Some(res as i64)
            } else {
                if q > hi as u128 {
                    return None;
                }
                let res: i128 = pivot as i128 + q as i128;
                Some(res as i64)
            }
        },
    }
}

/// Check every machine-bounds condition the transformation needs on this
/// document, so that a caller can test before calling [`modify`].
pub fn modify_ok_check(data: &SubData, opt: &OptFinal) -> (b: bool)
    ensures
        b == modify_ok(data@, opt@),
{
    match opt.scale {
        Some(sc) => {
            if !(sc.den > 0) {
                return false;
            }
        },
        None => {},
    }
    if opt.renumber_offset && !(data.subs.len() as u64 <= i64::MAX as u64) {
        return false;
    }
    let n = data.subs.len();
    let mut i: usize = 0;
    while i < n
        invariant
            i <= n == data.subs@.len(),
            scale_wf(opt@),
            opt@.renumber ==> data@.subs.len() <= i64::MAX,
            data@.subs == subs_view(data.subs@),
            forall|k: int|
                0 <= k < i ==> {
                    let r = #[trigger] data@.subs[k];
                    &&& ((rec_top(r, opt@) || rec_bottom(r, opt@)) ==> r.lines.len() >= 1)
                    &&& (r.start_ms >= opt@.offset_start_ms ==> span_fits(r.start_ms, opt@)
                        && span_fits(r.end_ms, opt@))
                },
        decreases n - i,
    {
        let sub = &data.subs[i];
        let ghost r = data@.subs[i as int];
        proof {
            assert(r == sub@);
        }
        let start = sub.time_span.start_ms;
        let top = in_spans_x(&opt.to_top, start);
        let bottom = !top && in_spans_x(&opt.to_bottom, start);
        if (top || bottom) && sub.lines.len() == 0 {
            assert(r.lines.len() == 0);
            return false;
        }
        if start >= opt.offset_start_ms {
            if adj_bound_x(start, opt).is_none() {
                return false;
            }
            if adj_bound_x(sub.time_span.end_ms, opt).is_none() {
                return false;
            }
        }
        proof {
            assert(r.lines == sub.lines.deep_view());
        }
        i = i + 1;
    }
    true
}

/// Apply the validated configuration to every record in document order:
/// renumber when asked, force placement by the original start time, then
/// shift and scale the timestamps of qualifying records. Fails with a
/// position conflict, leaving nothing written, exactly when some record in
/// a forced-top interval carries a hard-coded position.
#[verifier::rlimit(100)]
pub fn modify(data: &mut SubData, opt: &OptFinal) -> (r: Result<(), SubError>)
    requires
        modify_ok(old(data)@, opt@),
    ensures
        final(data)@.line_ending == old(data)@.line_ending,
        (r matches Ok(_) ==> {
            &&& final(data)@.subs.len() == old(data)@.subs.len()
            &&& forall|i: int|
                0 <= i < old(data)@.subs.len() ==> final(data)@.subs[i] == modify_rec(
                    old(data)@.subs[i],
                    i,
                    opt@,
                )
            &&& forall|i: int|
                0 <= i < old(data)@.subs.len() ==> !rec_conflict(old(data)@.subs[i], opt@)
        }),
        (r matches Err(e) ==> e is PositionOverrideConflict && exists|i: int|
            0 <= i < old(data)@.subs.len() && rec_conflict(old(data)@.subs[i], opt@)),
{
    let n = data.subs.len();
    let mut out: Vec<Subtitle> = Vec::new();
    proof {
        assert(subs_view(out@) =~= Seq::<SubtitleM>::empty());
    }
    let mut i: usize = 0;
    while i < n
        invariant
            i <= n == data.subs@.len(),
            modify_ok(data@, opt@),
            data@ == old(data)@,
            subs_view(out@).len() == i as int,
            forall|k: int|
                0 <= k < i ==> subs_view(out@)[k] == modify_rec(data@.subs[k], k, opt@),
            forall|k: int| 0 <= k < i ==> !rec_conflict(data@.subs[k], opt@),
        decreases n - i,
    {
        let sub = &data.subs[i];
        let ghost r = data@.subs[i as int];
        proof {
            assert(r == sub@);
            assert(r.lines == sub.lines.deep_view());
        }
        let start = sub.time_span.start_ms;
        let number: i64 = if opt.renumber_offset {
            (i as i64) + 1
        } else {
            sub.number
        };
        let top = in_spans_x(&opt.to_top, start);
        let bottom = !top && in_spans_x(&opt.to_bottom, start);
        if top && sub.position.is_some() {
            assert(rec_conflict(r, opt@));
            return Err(SubError::PositionOverrideConflict(start));
        }
        let position: Option<Position> = if bottom {
            None
        } else {
            sub.position
        };
        let mut lines: Vec<String>;
        if top {
            lines = clone_lines(&sub.lines);
            let first = retag_top_x(sub.lines[0].as_str());
            lines.set(0, first);
            proof {
                assert(lines.deep_view() =~= r.lines.update(0, retag_top(r.lines[0])));
            }
        } else if bottom {
            lines = clone_lines(&sub.lines);
            let first = strip_tag_x(sub.lines[0].as_str());
            lines.set(0, first);
            proof {
                assert(lines.deep_view() =~= r.lines.update(0, strip_tag(r.lines[0])));
            }
        } else {
            lines = clone_lines(&sub.lines);
        }
        let span: TimeSpan;
        if start >= opt.offset_start_ms {
            let s2 = match adj_bound_x(start, opt) {
                Some(v) => v,
                None => {
                    proof {
                        assert(false);
                    }
                    0
                },
            };
            let e2 = match adj_bound_x(sub.time_span.end_ms, opt) {
                Some(v) => v,
                None => {
                    proof {
                        assert(false);
                    }
                    0
                },
            };
            span = TimeSpan::new(s2, e2);
        } else {
            span = sub.time_span;
        }
        let new_sub = Subtitle { number, time_span: span, position, lines };
        let ghost prev = subs_view(out@);
        out.push(new_sub);
        proof {
            assert(subs_view(out@) =~= prev.push(new_sub@));
            assert(new_sub@ == modify_rec(r, i as int, opt@));
        }
        i = i + 1;
    }
    let le = data.line_ending.clone();
    *data = SubData { subs: out, line_ending: le };
    Ok(())
}

} // verus!
