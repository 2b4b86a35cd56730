//! The record model of a subtitle document, its line-oriented parser and
//! its formatter.

use vstd::prelude::*;
use crate::error::SubError;
use crate::text::{
    all_digits, chars_to_string, dec_digits, digits_end, digits_val, fmt_signed, is_blank,
    is_digit, is_ws, lemma_leading_ws_is, push_signed, push_signed32,
    push_str, str_to_chars, trim_range, trim_ws,
};
use crate::time::{
    fmt_timespan_spec, parse_ms_spec, parse_ms_vec, push_ms, ts_value_opt, TimeSpan,
};

verus! {

/// A hard-coded pixel box: left, right, top, bottom. Distinct from the
/// position-override tag carried in a record's text.
#[derive(Debug, Clone, Copy, PartialEq, Eq)]
pub struct Position {
    pub x1: i32,
    pub x2: i32,
    pub y1: i32,
    pub y2: i32,
}

/// One subtitle entry: serial number, display interval, optional pixel
/// position, and text lines kept verbatim, each with the terminator it was
/// read with.
#[derive(Debug)]
pub struct Subtitle {
    pub number: i64,
    pub time_span: TimeSpan,
    pub position: Option<Position>,
    pub lines: Vec<String>,
}

/// A whole document: its records in order and the document-wide line
/// terminator, fixed from the first line read.
#[derive(Debug)]
pub struct SubData {
    pub subs: Vec<Subtitle>,
    pub line_ending: String,
}

/// The mathematical image of a pixel position.
pub ghost struct PosM {
    pub x1: int,
    pub x2: int,
    pub y1: int,
    pub y2: int,
}

/// The mathematical image of a record.
pub ghost struct SubtitleM {
    pub number: int,
    pub start_ms: int,
    pub end_ms: int,
    pub position: Option<PosM>,
    pub lines: Seq<Seq<char>>,
}

/// The mathematical image of a document.
pub ghost struct DocM {
    pub subs: Seq<SubtitleM>,
    pub line_ending: Seq<char>,
}

impl View for Position {
    type V = PosM;

    open spec fn view(&self) -> PosM {
        PosM { x1: self.x1 as int, x2: self.x2 as int, y1: self.y1 as int, y2: self.y2 as int }
    }
}

impl View for Subtitle {
    type V = SubtitleM;

    open spec fn view(&self) -> SubtitleM {
        SubtitleM {
            number: self.number as int,
            start_ms: self.time_span.start_ms as int,
            end_ms: self.time_span.end_ms as int,
            position: match self.position {
                Some(p) => Some(p@),
                None => None,
            },
            lines: self.lines.deep_view(),
        }
    }
}

/// The images of a record vector.
pub open spec fn subs_view(v: Seq<Subtitle>) -> Seq<SubtitleM> {
    v.map_values(|s: Subtitle| s@)
}

impl View for SubData {
    type V = DocM;

    open spec fn view(&self) -> DocM {
        DocM { subs: subs_view(self.subs@), line_ending: self.line_ending@ }
    }
}

/// The rendering of a pixel position: `X1:<x1> X2:<x2> Y1:<y1> Y2:<y2>`.
pub open spec fn fmt_pos_spec(p: PosM) -> Seq<char> {
    seq!['X', '1', ':'] + fmt_signed(p.x1) + seq![' ', 'X', '2', ':'] + fmt_signed(p.x2)
        + seq![' ', 'Y', '1', ':'] + fmt_signed(p.y1) + seq![' ', 'Y', '2', ':'] + fmt_signed(
        p.y2,
    )
}

/// The timespan line of a record: the interval, then, when a position is
/// present, two spaces and the position, then the terminator.
pub open spec fn time_line_spec(r: SubtitleM, le: Seq<char>) -> Seq<char> {
    fmt_timespan_spec(r.start_ms, r.end_ms) + (match r.position {
        Some(p) => seq![' ', ' '] + fmt_pos_spec(p),
        None => Seq::<char>::empty(),
    }) + le
}

/// All the text lines of a record, joined.
pub open spec fn lines_text(ls: Seq<Seq<char>>) -> Seq<char>
    decreases ls.len(),
{
    if ls.len() == 0 {
        Seq::empty()
    } else {
        lines_text(ls.drop_last()) + ls.last()
    }
}

/// The full rendering of one record: number line, timespan line, the text
/// lines verbatim, and one blank separator line.
pub open spec fn record_text(r: SubtitleM, le: Seq<char>) -> Seq<char> {
    fmt_signed(r.number) + le + time_line_spec(r, le) + lines_text(r.lines) + le
}

/// The rendering of a record sequence.
pub open spec fn subs_text(subs: Seq<SubtitleM>, le: Seq<char>) -> Seq<char>
    decreases subs.len(),
{
    if subs.len() == 0 {
        Seq::empty()
    } else {
        subs_text(subs.drop_last(), le) + record_text(subs.last(), le)
    }
}

/// The rendering of a whole document.
pub open spec fn doc_text(d: DocM) -> Seq<char> {
    subs_text(d.subs, d.line_ending)
}

/// What parsing a record-number line returns: an optional sign, digits, a
/// value in the signed 64-bit range, whitespace around it tolerated.
pub open spec fn parse_i64_spec(s: Seq<char>) -> Option<int> {
    let t = trim_ws(s);
    if t.len() == 0 {
        None
    } else {
        let sgn: int = if t[0] == '-' {
            -1
        } else {
            1
        };
        let body = if t[0] == '-' || t[0] == '+' {
            t.skip(1)
        } else {
            t
        };
        if body.len() == 0 || !all_digits(body) {
            None
        } else {
            let v = sgn * digits_val(body);
            if i64::MIN <= v <= i64::MAX {
                Some(v)
            } else {
                None
            }
        }
    }
}

/// Where the run of spaces starting at `i` ends.
pub open spec fn spaces_end(s: Seq<char>, i: int) -> int
    decreases s.len() - i,
{
    if i < 0 || i >= s.len() || s[i] != ' ' {
        i
    } else {
        spaces_end(s, i + 1)
    }
}

/// Three literal characters at `i`.
pub open spec fn lit3(s: Seq<char>, i: int, a: char, b: char, c: char) -> bool {
    0 <= i && i + 3 <= s.len() && s[i] == a && s[i + 1] == b && s[i + 2] == c
}

/// Where the digits of a signed integer at `i` begin (after a minus sign,
/// if one stands there).
pub open spec fn pos_int_start(s: Seq<char>, i: int) -> int {
    if 0 <= i < s.len() && s[i] == '-' {
        i + 1
    } else {
        i
    }
}

/// A signed integer (minus sign and digits) starts at `i`.
pub open spec fn pos_int_ok(s: Seq<char>, i: int) -> bool {
    digits_end(s, pos_int_start(s, i)) > pos_int_start(s, i)
}

/// Where that integer ends.
pub open spec fn pos_int_end(s: Seq<char>, i: int) -> int {
    digits_end(s, pos_int_start(s, i))
}

/// Its value.
pub open spec fn pos_int_val(s: Seq<char>, i: int) -> int {
    let v = digits_val(s.subrange(pos_int_start(s, i), pos_int_end(s, i))) as int;
    if 0 <= i < s.len() && s[i] == '-' {
        -v
    } else {
        v
    }
}

/// A value a 32-bit signed integer can hold.
pub open spec fn in_i32(v: int) -> bool {
    i32::MIN <= v <= i32::MAX
}

/// The position suffix read at `j`: two or more spaces, then
/// `X1:<int> X2:<int> Y1:<int> Y2:<int>` with single spaces between the
/// fields, then nothing but whitespace. Out-of-range values do not match.
pub open spec fn pos_suffix(s: Seq<char>, j: int) -> Option<PosM> {
    let k = spaces_end(s, j);
    if !(0 <= j && k - j >= 2 && lit3(s, k, 'X', '1', ':')) {
        None
    } else {
        let i1 = k + 3;
        if !pos_int_ok(s, i1) {
            None
        } else {
            let e1 = pos_int_end(s, i1);
            let v1 = pos_int_val(s, i1);
            if !(e1 < s.len() && s[e1] == ' ' && lit3(s, e1 + 1, 'X', '2', ':')) {
                None
            } else {
                let i2 = e1 + 4;
                if !pos_int_ok(s, i2) {
                    None
                } else {
                    let e2 = pos_int_end(s, i2);
                    let v2 = pos_int_val(s, i2);
                    if !(e2 < s.len() && s[e2] == ' ' && lit3(s, e2 + 1, 'Y', '1', ':')) {
                        None
                    } else {
                        let i3 = e2 + 4;
                        if !pos_int_ok(s, i3) {
                            None
                        } else {
                            let e3 = pos_int_end(s, i3);
                            let v3 = pos_int_val(s, i3);
                            if !(e3 < s.len() && s[e3] == ' ' && lit3(s, e3 + 1, 'Y', '2', ':')) {
                                None
                            } else {
                                let i4 = e3 + 4;
                                if !pos_int_ok(s, i4) {
                                    None
                                } else {
                                    let e4 = pos_int_end(s, i4);
                                    let v4 = pos_int_val(s, i4);
                                    if is_blank(s.subrange(e4, s.len() as int)) && in_i32(v1)
                                        && in_i32(v2) && in_i32(v3) && in_i32(v4) {
                                        Some(PosM { x1: v1, x2: v2, y1: v3, y2: v4 })
                                    } else {
                                        None
                                    }
                                }
                            }
                        }
                    }
                }
            }
        }
    }
}

/// The first index at or after `j` where a position suffix matches.
pub open spec fn first_pos_from(s: Seq<char>, j: int) -> Option<int>
    decreases s.len() - j,
{
    if j < 0 || j >= s.len() {
        None
    } else if pos_suffix(s, j) is Some {
        Some(j)
    } else {
        first_pos_from(s, j + 1)
    }
}

/// An arrow separator ` --> ` stands at `i`.
pub open spec fn arrow_at(s: Seq<char>, i: int) -> bool {
    0 <= i && i + 5 <= s.len() && s[i] == ' ' && s[i + 1] == '-' && s[i + 2] == '-' && s[i + 3]
        == '>' && s[i + 4] == ' '
}

/// The rightmost arrow at or below `i`.
pub open spec fn arrow_before(s: Seq<char>, i: int) -> Option<int>
    decreases i + 1,
{
    if i < 0 {
        None
    } else if arrow_at(s, i) {
        Some(i)
    } else {
        arrow_before(s, i - 1)
    }
}

/// The rightmost arrow of a line: the start time is matched greedily.
pub open spec fn last_arrow(s: Seq<char>) -> Option<int> {
    arrow_before(s, s.len() - 5)
}

/// What parsing a timespan line returns: the start and end timestamps
/// around the rightmost arrow, and the position when its suffix follows
/// the end timestamp.
pub open spec fn parse_time_line(l: Seq<char>) -> Option<((int, int), Option<PosM>)> {
    match last_arrow(l) {
        None => None,
        Some(i) => {
            let rest = l.subrange(i + 5, l.len() as int);
            let endseq = match first_pos_from(rest, 0) {
                Some(j) => rest.subrange(0, j),
                None => rest,
            };
            let pos = match first_pos_from(rest, 0) {
                Some(j) => pos_suffix(rest, j),
                None => None,
            };
            match (parse_ms_spec(l.subrange(0, i)), parse_ms_spec(endseq)) {
                (Some(a), Some(b)) => Some(((a, b), pos)),
                _ => None,
            }
        },
    }
}

/// The parser's progress through one record.
pub ghost enum PStateM {
    /// Waiting for a record number.
    Num,
    /// Number read, waiting for the timespan line.
    Time { number: int },
    /// Timespan read, collecting text lines.
    Text {
        number: int,
        start_ms: int,
        end_ms: int,
        position: Option<PosM>,
        lines: Seq<Seq<char>>,
    },
}

/// Close the record in progress, if it has any text.
pub open spec fn flush_state(st: PStateM, acc: Seq<SubtitleM>) -> Seq<SubtitleM> {
    match st {
        PStateM::Text { number, start_ms, end_ms, position, lines } => if lines.len() > 0 {
            acc.push(SubtitleM { number, start_ms, end_ms, position, lines })
        } else {
            acc
        },
        _ => acc,
    }
}

/// The record state machine over the line stream: a blank line closes a
/// record with text; a non-blank line is a number, a timespan line or a
/// text line by the state; the end of the stream closes a record with text
/// even without a trailing blank line. An unparseable number or timespan
/// line stops everything, carrying the offending line.
pub open spec fn parse_lines(
    lines: Seq<Seq<char>>,
    i: int,
    st: PStateM,
    acc: Seq<SubtitleM>,
) -> Result<Seq<SubtitleM>, Seq<char>>
    decreases lines.len() - i,
{
    if i < 0 || i >= lines.len() {
        Ok(flush_state(st, acc))
    } else {
        let l = lines[i];
        if is_blank(l) {
            match st {
                PStateM::Text { number, start_ms, end_ms, position, lines: ls } => if ls.len()
                    > 0 {
                    parse_lines(
                        lines,
                        i + 1,
                        PStateM::Num,
                        acc.push(
                            SubtitleM { number, start_ms, end_ms, position, lines: ls },
                        ),
                    )
                } else {
                    parse_lines(lines, i + 1, st, acc)
                },
                _ => parse_lines(lines, i + 1, st, acc),
            }
        } else {
            match st {
                PStateM::Num => match parse_i64_spec(l) {
                    Some(n) => parse_lines(lines, i + 1, PStateM::Time { number: n }, acc),
                    None => Err(l),
                },
                PStateM::Time { number } => match parse_time_line(l) {
                    Some(((a, b), p)) => parse_lines(
                        lines,
                        i + 1,
                        PStateM::Text {
                            number,
                            start_ms: a,
                            end_ms: b,
                            position: p,
                            lines: Seq::empty(),
                        },
                        acc,
                    ),
                    None => Err(l),
                },
                PStateM::Text { number, start_ms, end_ms, position, lines: ls } => parse_lines(
                    lines,
                    i + 1,
                    PStateM::Text { number, start_ms, end_ms, position, lines: ls.push(l) },
                    acc,
                ),
            }
        }
    }
}

/// The document terminator: what ends the first line, a bare newline when
/// there is none.
pub open spec fn le_of(lines: Seq<Seq<char>>) -> Seq<char> {
    if lines.len() > 0 && lines[0].len() >= 2 && lines[0][lines[0].len() - 1] == '\n'
        && lines[0][lines[0].len() - 2] == '\r' {
        seq!['\r', '\n']
    } else {
        seq!['\n']
    }
}

/// What parsing a decoded line stream returns: the records in order with
/// the detected terminator, or the offending line.
pub open spec fn doc_parse_spec(lines: Seq<Seq<char>>) -> Result<DocM, Seq<char>> {
    match parse_lines(lines, 0, PStateM::Num, Seq::empty()) {
        Ok(subs) => Ok(DocM { subs, line_ending: le_of(lines) }),
        Err(l) => Err(l),
    }
}

fn push_position(buf: &mut Vec<char>, p: &Position)
    ensures
        final(buf)@ == old(buf)@ + fmt_pos_spec(p@),
{
    buf.push('X');
    buf.push('1');
    buf.push(':');
    push_signed32(buf, p.x1);
    buf.push(' ');
    buf.push('X');
    buf.push('2');
    buf.push(':');
    push_signed32(buf, p.x2);
    buf.push(' ');
    buf.push('Y');
    buf.push('1');
    buf.push(':');
    push_signed32(buf, p.y1);
    buf.push(' ');
    buf.push('Y');
    buf.push('2');
    buf.push(':');
    push_signed32(buf, p.y2);
    assert(buf@ =~= old(buf)@ + fmt_pos_spec(p@));
}

fn push_record(buf: &mut Vec<char>, r: &Subtitle, le: &str)
    ensures
        final(buf)@ == old(buf)@ + record_text(r@, le@),
{
    push_signed(buf, r.number);
    push_str(buf, le);
    r.time_span.push_format(buf);
    match &r.position {
        Some(p) => {
            buf.push(' ');
            buf.push(' ');
            push_position(buf, p);
        },
        None => {},
    }
    push_str(buf, le);
    let ghost mid = buf@;
    let n = r.lines.len();
    let mut i: usize = 0;
    while i < n
        invariant
            i <= n == r.lines@.len(),
            buf@ == mid + lines_text(r@.lines.take(i as int)),
            r@.lines == r.lines.deep_view(),
        decreases n - i,
    {
        push_str(buf, r.lines[i].as_str());
        proof {
            let taken = r@.lines.take(i + 1);
            assert(taken.drop_last() =~= r@.lines.take(i as int));
            assert(taken.last() == r@.lines[i as int]);
            assert(r@.lines[i as int] == r.lines@[i as int]@);
            assert(buf@ =~= mid + lines_text(taken));
        }
        i = i + 1;
    }
    proof {
        assert(r@.lines.take(n as int) =~= r@.lines);
    }
    push_str(buf, le);
    assert(buf@ =~= old(buf)@ + record_text(r@, le@));
}

/// The lines a record renders to: its number line, its timespan line, its
/// text lines, and the blank separator.
pub open spec fn record_lines(r: SubtitleM, le: Seq<char>) -> Seq<Seq<char>> {
    seq![fmt_signed(r.number) + le, time_line_spec(r, le)] + r.lines + seq![le]
}

/// The lines a record sequence renders to.
pub open spec fn doc_lines(subs: Seq<SubtitleM>, le: Seq<char>) -> Seq<Seq<char>>
    decreases subs.len(),
{
    if subs.len() == 0 {
        Seq::empty()
    } else {
        record_lines(subs[0], le) + doc_lines(subs.skip(1), le)
    }
}

/// A usable document terminator.
pub open spec fn le_wf(le: Seq<char>) -> bool {
    le == seq!['\n'] || le == seq!['\r', '\n']
}

/// A record whose rendering reads back unchanged: it has text, none of its
/// text lines is blank, and its numbers are representable (a start or end
/// at the very minimum of the range has no rendering that reads back).
pub open spec fn rec_wf(r: SubtitleM) -> bool {
    &&& r.lines.len() >= 1
    &&& forall|k: int| 0 <= k < r.lines.len() ==> !is_blank(#[trigger] r.lines[k])
    &&& i64::MIN <= r.number <= i64::MAX
    &&& i64::MIN < r.start_ms <= i64::MAX
    &&& i64::MIN < r.end_ms <= i64::MAX
    &&& match r.position {
        Some(p) => in_i32(p.x1) && in_i32(p.x2) && in_i32(p.y1) && in_i32(p.y2),
        None => true,
    }
}

/// A document whose rendering reads back unchanged.
pub open spec fn doc_wf(d: DocM) -> bool {
    &&& le_wf(d.line_ending)
    &&& forall|i: int| 0 <= i < d.subs.len() ==> rec_wf(#[trigger] d.subs[i])
}

proof fn lemma_le_blank(le: Seq<char>)
    requires
        le_wf(le),
    ensures
        is_blank(le),
        le.len() >= 1,
{
    if le == seq!['\n'] {
        assert forall|k: int| 0 <= k < le.len() implies is_ws(#[trigger] le[k]) by {
            assert(le[k] == '\n');
        }
    } else {
        assert forall|k: int| 0 <= k < le.len() implies is_ws(#[trigger] le[k]) by {
            if k == 0 {
                assert(le[k] == '\r');
            } else {
                assert(le[k] == '\n');
            }
        }
    }
}

/// A rendered number line with its terminator reads back to the number.
proof fn lemma_number_line(n: int, le: Seq<char>)
    requires
        le_wf(le),
        i64::MIN <= n <= i64::MAX,
    ensures
        parse_i64_spec(fmt_signed(n) + le) == Some(n),
        !is_blank(fmt_signed(n) + le),
{
    let a = (if n < 0 {
        -n
    } else {
        n
    }) as nat;
    let f = fmt_signed(n);
    let w = f + le;
    crate::text::lemma_dec_digits(a);
    lemma_le_blank(le);
    assert(f.len() >= 1);
    if n < 0 {
        assert(w[0] == '-');
    } else {
        assert(w[0] == dec_digits(a)[0]);
        assert(is_digit(w[0]));
    }
    assert(!is_ws(w[0]));
    assert(!is_blank(w));
    assert(f.last() == dec_digits(a).last());
    assert(is_digit(f.last()));
    assert(w[f.len() - 1] == f.last());
    lemma_leading_ws_is(w, 0);
    assert forall|j: int| w.len() - le.len() <= j < w.len() implies is_ws(#[trigger] w[j]) by {
        assert(w[j] == le[j - f.len()]);
    }
    crate::text::lemma_trailing_ws_is(w, le.len() as int);
    assert(trim_ws(w) =~= f);
    if n < 0 {
        let body = f.skip(1);
        assert(body =~= dec_digits(a));
        assert(all_digits(body));
        assert(digits_val(body) == a);
        assert(parse_i64_spec(w) == Some(-1 * (a as int)));
        assert(-1 * (a as int) == n);
    } else {
        assert(f[0] != '-' && f[0] != '+') by {
            assert(is_digit(f[0]));
        }
        assert(all_digits(f));
        assert(parse_i64_spec(w) == Some(1 * (a as int)));
    }
}

/// Parsing a concatenated line stream from the seam onward is parsing the
/// second part alone.
proof fn lemma_parse_shift(
    a: Seq<Seq<char>>,
    b: Seq<Seq<char>>,
    i: int,
    st: PStateM,
    acc: Seq<SubtitleM>,
)
    requires
        0 <= i <= b.len(),
    ensures
        parse_lines(a + b, a.len() + i, st, acc) == parse_lines(b, i, st, acc),
    decreases b.len() - i,
{
    if i == b.len() {
    } else {
        let l = b[i];
        assert((a + b)[a.len() + i] == l);
        if is_blank(l) {
            match st {
                PStateM::Text { number, start_ms, end_ms, position, lines: ls } => {
                    if ls.len() > 0 {
                        lemma_parse_shift(
                            a,
                            b,
                            i + 1,
                            PStateM::Num,
                            acc.push(
                                SubtitleM { number, start_ms, end_ms, position, lines: ls },
                            ),
                        );
                    } else {
                        lemma_parse_shift(a, b, i + 1, st, acc);
                    }
                },
                _ => {
                    lemma_parse_shift(a, b, i + 1, st, acc);
                },
            }
        } else {
            match st {
                PStateM::Num => {
                    match parse_i64_spec(l) {
                        Some(m) => {
                            lemma_parse_shift(a, b, i + 1, PStateM::Time { number: m }, acc);
                        },
                        None => {},
                    }
                },
                PStateM::Time { number } => {
                    match parse_time_line(l) {
                        Some(((x, y), p)) => {
                            lemma_parse_shift(
                                a,
                                b,
                                i + 1,
                                PStateM::Text {
                                    number,
                                    start_ms: x,
                                    end_ms: y,
                                    position: p,
                                    lines: Seq::empty(),
                                },
                                acc,
                            );
                        },
                        None => {},
                    }
                },
                PStateM::Text { number, start_ms, end_ms, position, lines: ls } => {
                    lemma_parse_shift(
                        a,
                        b,
                        i + 1,
                        PStateM::Text {
                            number,
                            start_ms,
                            end_ms,
                            position,
                            lines: ls.push(l),
                        },
                        acc,
                    );
                },
            }
        }
    }
}

/// Collecting a record's text lines up to its blank separator closes the
/// record.
proof fn lemma_consume_texts(
    ls: Seq<Seq<char>>,
    p: int,
    r: SubtitleM,
    k: int,
    acc: Seq<SubtitleM>,
)
    requires
        0 <= k <= r.lines.len(),
        r.lines.len() >= 1,
        forall|m: int| 0 <= m < r.lines.len() ==> !is_blank(#[trigger] r.lines[m]),
        0 <= p,
        p + (r.lines.len() - k) < ls.len(),
        forall|m: int| 0 <= m < r.lines.len() - k ==> #[trigger] ls[p + m] == r.lines[k + m],
        is_blank(ls[p + r.lines.len() - k]),
    ensures
        parse_lines(
            ls,
            p,
            PStateM::Text {
                number: r.number,
                start_ms: r.start_ms,
                end_ms: r.end_ms,
                position: r.position,
                lines: r.lines.take(k),
            },
            acc,
        ) == parse_lines(ls, p + (r.lines.len() - k) + 1, PStateM::Num, acc.push(r)),
    decreases r.lines.len() - k,
{
    let n = r.lines.len() as int;
    if k == n {
        assert(r.lines.take(n) =~= r.lines);
        assert(is_blank(ls[p]));
        assert((SubtitleM {
            number: r.number,
            start_ms: r.start_ms,
            end_ms: r.end_ms,
            position: r.position,
            lines: r.lines,
        }) == r);
    } else {
        assert(ls[p + 0] == r.lines[k + 0]);
        assert(ls[p] == r.lines[k]);
        assert(!is_blank(ls[p]));
        assert(r.lines.take(k).push(r.lines[k]) =~= r.lines.take(k + 1));
        assert forall|m: int| 0 <= m < r.lines.len() - (k + 1) implies #[trigger] ls[p + 1 + m]
            == r.lines[k + 1 + m] by {
            assert(ls[p + (m + 1)] == r.lines[k + (m + 1)]);
        }
        lemma_consume_texts(ls, p + 1, r, k + 1, acc);
    }
}

/// A character of a rendered pixel position: field letters, digits, the
/// colon, the minus sign and single spaces; never an angle bracket.
pub open spec fn pos_char(c: char) -> bool {
    is_digit(c) || c == 'X' || c == 'Y' || c == ':' || c == '-' || c == ' '
}

proof fn lemma_fmt_signed_digits(v: int)
    ensures
        fmt_signed(v).len() >= 1,
        forall|k: int|
            0 <= k < fmt_signed(v).len() ==> (is_digit(#[trigger] fmt_signed(v)[k])
                || fmt_signed(v)[k] == '-'),
{
    let a = (if v < 0 {
        -v
    } else {
        v
    }) as nat;
    crate::text::lemma_dec_digits(a);
    let g = fmt_signed(v);
    assert forall|k: int| 0 <= k < g.len() implies (is_digit(#[trigger] g[k]) || g[k] == '-') by {
        if v < 0 {
            if k > 0 {
                assert(g[k] == dec_digits(a)[k - 1]);
            }
        } else {
            assert(g[k] == dec_digits(a)[k]);
        }
    }
}

proof fn lemma_fmt_pos_chars(p: PosM)
    ensures
        forall|k: int|
            0 <= k < fmt_pos_spec(p).len() ==> pos_char(#[trigger] fmt_pos_spec(p)[k]),
{
    let g1 = fmt_signed(p.x1);
    let g2 = fmt_signed(p.x2);
    let g3 = fmt_signed(p.y1);
    let g4 = fmt_signed(p.y2);
    lemma_fmt_signed_digits(p.x1);
    lemma_fmt_signed_digits(p.x2);
    lemma_fmt_signed_digits(p.y1);
    lemma_fmt_signed_digits(p.y2);
    let w = fmt_pos_spec(p);
    let o1 = 3 + g1.len();
    let o2 = o1 + 4 + g2.len();
    let o3 = o2 + 4 + g3.len();
    assert forall|k: int| 0 <= k < w.len() implies pos_char(#[trigger] w[k]) by {
        if k < 3 {
        } else if k < o1 {
            assert(w[k] == g1[k - 3]);
        } else if k < o1 + 4 {
        } else if k < o2 {
            assert(w[k] == g2[k - o1 - 4]);
        } else if k < o2 + 4 {
        } else if k < o3 {
            assert(w[k] == g3[k - o2 - 4]);
        } else if k < o3 + 4 {
        } else {
            assert(w[k] == g4[k - o3 - 4]);
        }
    }
}

/// A rendered signed integer standing at `i`, bounded by a non-digit,
/// reads back to its value.
proof fn lemma_pos_int_at(s: Seq<char>, i: int, v: int)
    requires
        0 <= i,
        i + fmt_signed(v).len() <= s.len(),
        forall|m: int|
            0 <= m < fmt_signed(v).len() ==> #[trigger] s[i + m] == fmt_signed(v)[m],
        i + fmt_signed(v).len() < s.len() ==> !is_digit(s[i + fmt_signed(v).len()]),
    ensures
        pos_int_ok(s, i),
        pos_int_end(s, i) == i + fmt_signed(v).len(),
        pos_int_val(s, i) == v,
{
    let a = (if v < 0 {
        -v
    } else {
        v
    }) as nat;
    let g = fmt_signed(v);
    crate::text::lemma_dec_digits(a);
    assert(s[i + 0] == g[0]);
    if v < 0 {
        assert(s[i] == '-');
        assert forall|m: int| i + 1 <= m < i + g.len() implies is_digit(#[trigger] s[m]) by {
            assert(s[i + (m - i)] == g[m - i]);
            assert(g[m - i] == dec_digits(a)[m - i - 1]);
        }
        crate::text::lemma_digits_end_is(s, i + 1, i + g.len());
        assert forall|m: int| 0 <= m < g.len() - 1 implies s.subrange(i + 1, i + g.len())[m]
            == dec_digits(a)[m] by {
            assert(s.subrange(i + 1, i + g.len())[m] == s[i + (m + 1)]);
            assert(s[i + (m + 1)] == g[m + 1]);
            assert(g[m + 1] == dec_digits(a)[m]);
        }
        assert(s.subrange(i + 1, i + g.len()) =~= dec_digits(a));
        assert(digits_val(s.subrange(i + 1, i + g.len())) == a);
        assert(pos_int_val(s, i) == -(a as int));
    } else {
        assert(s[i] == dec_digits(a)[0]);
        assert(is_digit(s[i]));
        assert(s[i] != '-');
        assert forall|m: int| i <= m < i + g.len() implies is_digit(#[trigger] s[m]) by {
            assert(s[i + (m - i)] == g[m - i]);
        }
        crate::text::lemma_digits_end_is(s, i, i + g.len());
        assert forall|m: int| 0 <= m < g.len() implies s.subrange(i, i + g.len())[m]
            == dec_digits(a)[m] by {
            assert(s.subrange(i, i + g.len())[m] == s[i + m]);
            assert(s[i + m] == g[m]);
        }
        assert(s.subrange(i, i + g.len()) =~= dec_digits(a));
        assert(digits_val(s.subrange(i, i + g.len())) == a);
    }
}

/// The rendered position suffix standing at `j` reads back to the
/// position.
#[verifier::rlimit(100)]
proof fn lemma_pos_suffix_at(s: Seq<char>, j: int, p: PosM, le: Seq<char>)
    requires
        le_wf(le),
        in_i32(p.x1) && in_i32(p.x2) && in_i32(p.y1) && in_i32(p.y2),
        0 <= j,
        s.len() == j + 2 + fmt_pos_spec(p).len() + le.len(),
        forall|m: int|
            0 <= m < 2 + fmt_pos_spec(p).len() + le.len() ==> #[trigger] s[j + m] == (seq![
                ' ',
                ' ',
            ] + fmt_pos_spec(p) + le)[m],
    ensures
        pos_suffix(s, j) == Some(p),
{
    let fp = fmt_pos_spec(p);
    let suf = seq![' ', ' '] + fp + le;
    let g1 = fmt_signed(p.x1);
    let g2 = fmt_signed(p.x2);
    let g3 = fmt_signed(p.y1);
    let g4 = fmt_signed(p.y2);
    lemma_le_blank(le);
    assert(fp == seq!['X', '1', ':'] + g1 + seq![' ', 'X', '2', ':'] + g2 + seq![
        ' ',
        'Y',
        '1',
        ':',
    ] + g3 + seq![' ', 'Y', '2', ':'] + g4);
    let b0 = j + 2;
    let i1 = b0 + 3;
    let e1 = i1 + g1.len();
    let i2 = e1 + 4;
    let e2 = i2 + g2.len();
    let i3 = e2 + 4;
    let e3 = i3 + g3.len();
    let i4 = e3 + 4;
    let e4 = i4 + g4.len();
    assert forall|m: int| 0 <= m < fp.len() implies #[trigger] s[b0 + m] == fp[m] by {
        assert(s[j + (m + 2)] == suf[m + 2]);
    }
    assert(s[j + 0] == ' ' && s[j + 1] == ' ');
    assert(s[b0 + 0] == 'X' && s[b0 + 1] == '1' && s[b0 + 2] == ':');
    assert(s[b0] != ' ');
    assert(spaces_end(s, j + 2) == b0);
    assert(spaces_end(s, j + 1) == b0);
    assert(spaces_end(s, j) == b0);
    assert(lit3(s, b0, 'X', '1', ':'));
    assert forall|m: int| 0 <= m < g1.len() implies #[trigger] s[i1 + m] == g1[m] by {
        assert(s[b0 + (3 + m)] == fp[3 + m]);
        assert(fp[3 + m] == g1[m]);
    }
    assert(s[b0 + (3 + g1.len())] == fp[3 + g1.len() as int]);
    assert(s[e1] == ' ');
    lemma_pos_int_at(s, i1, p.x1);
    assert(s[b0 + (e1 + 1 - b0)] == fp[e1 + 1 - b0] && s[b0 + (e1 + 2 - b0)] == fp[e1 + 2 - b0]
        && s[b0 + (e1 + 3 - b0)] == fp[e1 + 3 - b0]);
    assert(s[e1 + 1] == 'X' && s[e1 + 2] == '2' && s[e1 + 3] == ':');
    assert forall|m: int| 0 <= m < g2.len() implies #[trigger] s[i2 + m] == g2[m] by {
        assert(s[b0 + (i2 - b0 + m)] == fp[i2 - b0 + m]);
        assert(fp[i2 - b0 + m] == g2[m]);
    }
    assert(s[b0 + (e2 - b0)] == fp[e2 - b0]);
    assert(s[e2] == ' ');
    lemma_pos_int_at(s, i2, p.x2);
    assert(s[b0 + (e2 + 1 - b0)] == fp[e2 + 1 - b0] && s[b0 + (e2 + 2 - b0)] == fp[e2 + 2 - b0]
        && s[b0 + (e2 + 3 - b0)] == fp[e2 + 3 - b0]);
    assert(s[e2 + 1] == 'Y' && s[e2 + 2] == '1' && s[e2 + 3] == ':');
    assert forall|m: int| 0 <= m < g3.len() implies #[trigger] s[i3 + m] == g3[m] by {
        assert(s[b0 + (i3 - b0 + m)] == fp[i3 - b0 + m]);
        assert(fp[i3 - b0 + m] == g3[m]);
    }
    assert(s[b0 + (e3 - b0)] == fp[e3 - b0]);
    assert(s[e3] == ' ');
    lemma_pos_int_at(s, i3, p.y1);
    assert(s[b0 + (e3 + 1 - b0)] == fp[e3 + 1 - b0] && s[b0 + (e3 + 2 - b0)] == fp[e3 + 2 - b0]
        && s[b0 + (e3 + 3 - b0)] == fp[e3 + 3 - b0]);
    assert(s[e3 + 1] == 'Y' && s[e3 + 2] == '2' && s[e3 + 3] == ':');
    assert forall|m: int| 0 <= m < g4.len() implies #[trigger] s[i4 + m] == g4[m] by {
        assert(s[b0 + (i4 - b0 + m)] == fp[i4 - b0 + m]);
        assert(fp[i4 - b0 + m] == g4[m]);
    }
    assert forall|m: int| e4 <= m < s.len() implies is_ws(#[trigger] s[m]) by {
        assert(s[j + (m - j)] == suf[m - j]);
        assert(suf[m - j] == le[m - j - 2 - fp.len()]);
    }
    if e4 < s.len() {
        assert(s[j + (2 + fp.len() as int)] == suf[2 + fp.len() as int]);
        assert(suf[2 + fp.len() as int] == le[0]);
        assert(s[e4] == le[0]);
        assert(!is_digit(s[e4]));
    }
    lemma_pos_int_at(s, i4, p.y2);
    assert(is_blank(s.subrange(e4, s.len() as int))) by {
        assert(forall|q: int|
            0 <= q < s.len() - e4 ==> s.subrange(e4, s.len() as int)[q] == #[trigger] s[e4 + q]);
    }
    assert(pos_suffix(s, j) == Some(PosM { x1: p.x1, x2: p.x2, y1: p.y1, y2: p.y2 }));
    assert((PosM { x1: p.x1, x2: p.x2, y1: p.y1, y2: p.y2 }) == p);
}

proof fn lemma_first_pos_none(s: Seq<char>, j: int)
    requires
        forall|q: int| j <= q < s.len() ==> pos_suffix(s, q) is None,
    ensures
        first_pos_from(s, j) is None,
    decreases s.len() - j,
{
    if 0 <= j < s.len() {
        lemma_first_pos_none(s, j + 1);
    } else if j < 0 {
    }
}

proof fn lemma_first_pos_at(s: Seq<char>, j: int, j0: int)
    requires
        0 <= j <= j0 < s.len(),
        pos_suffix(s, j0) is Some,
        forall|q: int| j <= q < j0 ==> pos_suffix(s, q) is None,
    ensures
        first_pos_from(s, j) == Some(j0),
    decreases j0 - j,
{
    if j < j0 {
        lemma_first_pos_at(s, j + 1, j0);
    }
}

/// A position suffix needs two spaces to start: none matches at an index
/// holding any other character.
proof fn lemma_pos_suffix_needs_spaces(s: Seq<char>, q: int)
    requires
        0 <= q < s.len(),
        s[q] != ' ',
    ensures
        pos_suffix(s, q) is None,
{
    assert(spaces_end(s, q) == q);
}

/// The rendered timespan line splits at its own arrow: the arrow written
/// between the two timestamps is the rightmost one, because no other angle
/// bracket occurs on the line.
#[verifier::rlimit(100)]
proof fn lemma_time_line_arrow(r: SubtitleM, le: Seq<char>)
    requires
        le_wf(le),
        rec_wf(r),
    ensures
        ({
            let f1 = crate::time::fmt_ms_spec(r.start_ms);
            let f2 = crate::time::fmt_ms_spec(r.end_ms);
            let popt = match r.position {
                Some(p) => seq![' ', ' '] + fmt_pos_spec(p),
                None => Seq::<char>::empty(),
            };
            let l = time_line_spec(r, le);
            &&& last_arrow(l) == Some(f1.len() as int)
            &&& l.subrange(0, f1.len() as int) == f1
            &&& l.subrange(f1.len() as int + 5, l.len() as int) == f2 + popt + le
            &&& !is_blank(l)
        }),
{
    let f1 = crate::time::fmt_ms_spec(r.start_ms);
    let f2 = crate::time::fmt_ms_spec(r.end_ms);
    let ar = seq![' ', '-', '-', '>', ' '];
    let popt = match r.position {
        Some(p) => seq![' ', ' '] + fmt_pos_spec(p),
        None => Seq::<char>::empty(),
    };
    let l = time_line_spec(r, le);
    assert(l =~= f1 + ar + f2 + popt + le);
    crate::time::lemma_fmt_ms_chars(r.start_ms);
    crate::time::lemma_fmt_ms_chars(r.end_ms);
    lemma_le_blank(le);
    let a = f1.len() as int;
    let arest = a + 5;
    let c2 = arest + f2.len();
    let c3 = c2 + popt.len();
    assert(l.len() == c3 + le.len());
    assert forall|k: int| 0 <= k < a implies #[trigger] l[k] == f1[k] by {}
    assert(l[a] == ' ' && l[a + 1] == '-' && l[a + 2] == '-' && l[a + 3] == '>' && l[a + 4]
        == ' ');
    assert forall|k: int| arest <= k < c2 implies #[trigger] l[k] == f2[k - arest] by {}
    assert forall|k: int| c2 <= k < c3 implies #[trigger] l[k] == popt[k - c2] by {}
    assert forall|k: int| c3 <= k < l.len() implies #[trigger] l[k] == le[k - c3] by {}
    match r.position {
        Some(p) => {
            lemma_fmt_pos_chars(p);
        },
        None => {},
    }
    assert(arrow_at(l, a));
    assert forall|q: int| 0 <= q <= l.len() - 5 && q != a implies !arrow_at(l, q) by {
        if arrow_at(l, q) {
            let m = q + 3;
            if m < a {
                assert(crate::time::ts_char(l[m]));
            } else if m < arest {
                assert(m != a + 3);
            } else if m < c2 {
                assert(crate::time::ts_char(l[m]));
            } else if m < c3 {
                match r.position {
                    Some(p) => {
                        if m - c2 >= 2 {
                            assert(popt[m - c2] == fmt_pos_spec(p)[m - c2 - 2]);
                            assert(pos_char(l[m]));
                        }
                    },
                    None => {},
                }
            } else {
                assert(is_ws(l[m]));
            }
        }
    }
    lemma_arrow_before_at(l, a, l.len() - 5);
    assert(l.subrange(0, a) =~= f1);
    assert(l.subrange(arest, l.len() as int) =~= f2 + popt + le);
    assert(l[0] == f1[0]);
    assert(!is_ws(l[0]));
    assert(!is_blank(l));
}

/// What follows the arrow of a rendered timespan line reads back to the
/// end timestamp and the optional position.
#[verifier::rlimit(100)]
proof fn lemma_rest_parse(r: SubtitleM, le: Seq<char>)
    requires
        le_wf(le),
        rec_wf(r),
    ensures
        ({
            let f2 = crate::time::fmt_ms_spec(r.end_ms);
            let popt = match r.position {
                Some(p) => seq![' ', ' '] + fmt_pos_spec(p),
                None => Seq::<char>::empty(),
            };
            let rest = f2 + popt + le;
            match r.position {
                None => first_pos_from(rest, 0) is None && parse_ms_spec(rest) == Some(
                    r.end_ms,
                ),
                Some(p) => first_pos_from(rest, 0) == Some(f2.len() as int) && pos_suffix(
                    rest,
                    f2.len() as int,
                ) == Some(p) && parse_ms_spec(rest.subrange(0, f2.len() as int)) == Some(
                    r.end_ms,
                ),
            }
        }),
{
    let f2 = crate::time::fmt_ms_spec(r.end_ms);
    let popt = match r.position {
        Some(p) => seq![' ', ' '] + fmt_pos_spec(p),
        None => Seq::<char>::empty(),
    };
    crate::time::lemma_fmt_ms_chars(r.end_ms);
    lemma_le_blank(le);
    crate::time::lemma_format_parse_roundtrip(r.end_ms as i64);
    assert(parse_ms_spec(f2) == Some(r.end_ms));
    // rendered timestamps carry no whitespace, so a terminator after one
    // trims away
    lemma_leading_ws_is(f2, 0);
    crate::text::lemma_trailing_ws_is(f2, 0);
    assert(trim_ws(f2) =~= f2);
    let rest = f2 + popt + le;
    assert(rest.len() == f2.len() + popt.len() + le.len());
    match r.position {
        None => {
            assert forall|q: int| 0 <= q < rest.len() implies pos_suffix(rest, q) is None by {
                if q < f2.len() {
                    assert(rest[q] == f2[q]);
                    assert(crate::time::ts_char(rest[q]));
                    assert(rest[q] != ' ');
                } else {
                    assert(rest[q] == le[q - f2.len()]);
                    assert(rest[q] == '\n' || rest[q] == '\r');
                }
                lemma_pos_suffix_needs_spaces(rest, q);
            }
            lemma_first_pos_none(rest, 0);
            assert forall|j: int|
                rest.len() - le.len() <= j < rest.len() implies is_ws(#[trigger] rest[j]) by {
                assert(rest[j] == le[j - f2.len()]);
            }
            assert(rest[f2.len() - 1] == f2[f2.len() - 1]);
            assert(!is_ws(rest[f2.len() - 1]));
            crate::text::lemma_trailing_ws_is(rest, le.len() as int);
            assert(!is_ws(rest[0]));
            lemma_leading_ws_is(rest, 0);
            assert(trim_ws(rest) =~= f2);
            assert(parse_ms_spec(rest) == Some(r.end_ms));
        },
        Some(p) => {
            let fp = fmt_pos_spec(p);
            let j0 = f2.len() as int;
            let suf = seq![' ', ' '] + fp + le;
            assert forall|m: int| 0 <= m < suf.len() implies #[trigger] rest[j0 + m] == suf[m]
                by {
                if m < 2 {
                    assert(rest[j0 + m] == popt[m]);
                } else if m < 2 + fp.len() {
                    assert(rest[j0 + m] == popt[m]);
                    assert(popt[m] == fp[m - 2]);
                } else {
                    assert(rest[j0 + m] == le[m - 2 - fp.len()]);
                }
            }
            lemma_pos_suffix_at(rest, j0, p, le);
            assert forall|q: int| 0 <= q < j0 implies pos_suffix(rest, q) is None by {
                assert(rest[q] == f2[q]);
                assert(crate::time::ts_char(rest[q]));
                lemma_pos_suffix_needs_spaces(rest, q);
            }
            lemma_first_pos_at(rest, 0, j0);
            assert(rest.subrange(0, j0) =~= f2);
            assert(parse_ms_spec(rest.subrange(0, j0)) == Some(r.end_ms));
        },
    }
}

/// A record's rendered timespan line reads back to its interval and its
/// position.
#[verifier::rlimit(100)]
proof fn lemma_time_line(r: SubtitleM, le: Seq<char>)
    requires
        le_wf(le),
        rec_wf(r),
    ensures
        parse_time_line(time_line_spec(r, le)) == Some(
            ((r.start_ms, r.end_ms), r.position),
        ),
        !is_blank(time_line_spec(r, le)),
{
    let f1 = crate::time::fmt_ms_spec(r.start_ms);
    let f2 = crate::time::fmt_ms_spec(r.end_ms);
    let popt = match r.position {
        Some(p) => seq![' ', ' '] + fmt_pos_spec(p),
        None => Seq::<char>::empty(),
    };
    let l = time_line_spec(r, le);
    lemma_time_line_arrow(r, le);
    lemma_rest_parse(r, le);
    crate::time::lemma_format_parse_roundtrip(r.start_ms as i64);
    assert(parse_ms_spec(f1) == Some(r.start_ms));
    let a = f1.len() as int;
    let rest = l.subrange(a + 5, l.len() as int);
    assert(rest == f2 + popt + le);
    match r.position {
        None => {
            assert(parse_time_line(l) == Some(((r.start_ms, r.end_ms), r.position)));
        },
        Some(p) => {
            assert(parse_time_line(l) == Some(((r.start_ms, r.end_ms), r.position)));
        },
    }
}

/// Reading the rendered lines of one record advances the parser by one
/// whole record.
#[verifier::rlimit(100)]
#[verifier::spinoff_prover]
proof fn lemma_consume_record(
    ls: Seq<Seq<char>>,
    i: int,
    r: SubtitleM,
    le: Seq<char>,
    acc: Seq<SubtitleM>,
)
    requires
        le_wf(le),
        rec_wf(r),
        0 <= i,
        i + r.lines.len() + 3 <= ls.len(),
        forall|m: int|
            0 <= m < r.lines.len() + 3 ==> #[trigger] ls[i + m] == record_lines(r, le)[m],
    ensures
        parse_lines(ls, i, PStateM::Num, acc) == parse_lines(
            ls,
            i + r.lines.len() + 3,
            PStateM::Num,
            acc.push(r),
        ),
{
    let n = r.lines.len() as int;
    lemma_number_line(r.number, le);
    lemma_time_line(r, le);
    lemma_le_blank(le);
    assert(ls[i + 0] == record_lines(r, le)[0]);
    assert(ls[i + 0] == fmt_signed(r.number) + le);
    assert(ls[i + 1] == record_lines(r, le)[1]);
    assert(ls[i + 1] == time_line_spec(r, le));
    assert(parse_lines(ls, i, PStateM::Num, acc) == parse_lines(
        ls,
        i + 1,
        PStateM::Time { number: r.number },
        acc,
    ));
    assert(parse_lines(ls, i + 1, PStateM::Time { number: r.number }, acc) == parse_lines(
        ls,
        i + 2,
        PStateM::Text {
            number: r.number,
            start_ms: r.start_ms,
            end_ms: r.end_ms,
            position: r.position,
            lines: Seq::empty(),
        },
        acc,
    ));
    assert(r.lines.take(0) =~= Seq::<Seq<char>>::empty());
    assert forall|m: int| 0 <= m < n implies #[trigger] ls[(i + 2) + m] == r.lines[m] by {
        assert(ls[i + (m + 2)] == record_lines(r, le)[m + 2]);
        assert(record_lines(r, le)[m + 2] == r.lines[m]);
    }
    assert(ls[i + (n + 2)] == record_lines(r, le)[n + 2]);
    assert(record_lines(r, le)[n + 2] == le);
    assert(is_blank(ls[(i + 2) + n]));
    lemma_consume_texts(ls, i + 2, r, 0, acc);
}

/// Reading the rendered lines of a record sequence yields exactly those
/// records.
proof fn lemma_parse_doc_lines(subs: Seq<SubtitleM>, le: Seq<char>, acc: Seq<SubtitleM>)
    requires
        le_wf(le),
        forall|i: int| 0 <= i < subs.len() ==> rec_wf(#[trigger] subs[i]),
    ensures
        parse_lines(doc_lines(subs, le), 0, PStateM::Num, acc) == Ok::<
            Seq<SubtitleM>,
            Seq<char>,
        >(acc + subs),
    decreases subs.len(),
{
    if subs.len() == 0 {
        assert(acc + subs =~= acc);
    } else {
        let r = subs[0];
        let rl = record_lines(r, le);
        let tail = doc_lines(subs.skip(1), le);
        let ls = doc_lines(subs, le);
        assert(ls == rl + tail);
        assert(rl.len() == r.lines.len() + 3);
        assert forall|m: int| 0 <= m < r.lines.len() + 3 implies #[trigger] ls[0 + m] == rl[m]
            by {}
        lemma_consume_record(ls, 0, r, le, acc);
        lemma_parse_shift(rl, tail, 0, PStateM::Num, acc.push(r));
        assert forall|i: int| 0 <= i < subs.skip(1).len() implies rec_wf(
            #[trigger] subs.skip(1)[i],
        ) by {
            assert(subs.skip(1)[i] == subs[i + 1]);
        }
        lemma_parse_doc_lines(subs.skip(1), le, acc.push(r));
        assert(acc.push(r) + subs.skip(1) =~= acc + subs);
    }
}

/// Parsing the rendered lines of a well-formed document yields the same
/// records back, and rendering the parse yields byte-identical text: the
/// round trip is exact when no transformation is applied.
pub proof fn lemma_doc_roundtrip(d: DocM)
    requires
        doc_wf(d),
    ensures
        doc_parse_spec(doc_lines(d.subs, d.line_ending)) matches Ok(d2) && d2.subs == d.subs
            && doc_text(d2) == doc_text(d),
{
    lemma_parse_doc_lines(d.subs, d.line_ending, Seq::empty());
    let ls = doc_lines(d.subs, d.line_ending);
    assert(Seq::<SubtitleM>::empty() + d.subs =~= d.subs);
    assert(parse_lines(ls, 0, PStateM::Num, Seq::empty()) == Ok::<Seq<SubtitleM>, Seq<char>>(
        d.subs,
    ));
    let d2 = DocM { subs: d.subs, line_ending: le_of(ls) };
    assert(doc_parse_spec(ls) == Ok::<DocM, Seq<char>>(d2));
    if d.subs.len() == 0 {
        assert(doc_text(d2) == doc_text(d));
    } else {
        let r = d.subs[0];
        let rl = record_lines(r, d.line_ending);
        assert(ls[0] == rl[0]);
        assert(ls[0] == fmt_signed(r.number) + d.line_ending);
        let first = ls[0];
        let le = d.line_ending;
        crate::text::lemma_dec_digits((if r.number < 0 {
            -r.number
        } else {
            r.number
        }) as nat);
        assert(fmt_signed(r.number).len() >= 1);
        assert(first.len() >= 2);
        if le == seq!['\r', '\n'] {
            assert(first[first.len() - 1] == le[1]);
            assert(first[first.len() - 2] == le[0]);
            assert(le_of(ls) == le);
        } else {
            assert(first[first.len() - 1] == le[0]);
            if first.len() - 2 >= fmt_signed(r.number).len() {
                assert(first[first.len() - 2] == le[first.len() - 2 - fmt_signed(
                    r.number,
                ).len()]);
                assert(first[first.len() - 2] == '\n');
            } else {
                assert(first[first.len() - 2] == fmt_signed(r.number)[first.len() - 2]);
            }
            assert(first[first.len() - 2] != '\r');
            assert(le_of(ls) == le);
        }
        assert(d2 == d);
    }
}

/// Where the run of spaces starting at `i` ends, executably.
fn spaces_end_x(s: &Vec<char>, i: usize) -> (e: usize)
    requires
        i <= s@.len(),
    ensures
        e as int == spaces_end(s@, i as int),
        i <= e <= s@.len(),
{
    let n = s.len();
    let mut e = i;
    while e < n && s[e] == ' '
        invariant
            i <= e <= n,
            n == s@.len(),
            spaces_end(s@, i as int) == spaces_end(s@, e as int),
        decreases n - e,
    {
        e = e + 1;
    }
    e
}

/// Parse a record-number line.
fn parse_i64_x(v: &Vec<char>) -> (r: Option<i64>)
    ensures
        match r {
            Some(x) => parse_i64_spec(v@) == Some(x as int),
            None => parse_i64_spec(v@) is None,
        },
{
    let bounds = trim_range(v);
    let t = crate::time::subvec(v, bounds.0, bounds.1);
    let ghost w = t@;
    let m = t.len();
    if m == 0 {
        return None;
    }
    let neg = t[0] == '-';
    let signed = neg || t[0] == '+';
    let b: usize = if signed {
        1
    } else {
        0
    };
    proof {
        if signed {
            assert(w.subrange(1, m as int) =~= w.skip(1));
        }
    }
    let e = crate::text::digits_end_x(&t, b);
    proof {
        crate::text::lemma_digits_end(w, b as int);
    }
    if e != m || e == b {
        proof {
            let body = if signed {
                w.skip(1)
            } else {
                w
            };
            if b < m && e != m {
                assert(!is_digit(w[e as int]));
                assert(!all_digits(body)) by {
                    assert(body[e - b] == w[e as int]);
                }
            }
        }
        return None;
    }
    let cap: u64 = if neg {
        0x8000_0000_0000_0000
    } else {
        0x7fff_ffff_ffff_ffff
    };
    let ghost body = if signed {
        w.skip(1)
    } else {
        w
    };
    assert(all_digits(body)) by {
        assert(forall|k: int|
            0 <= k < body.len() ==> body[k] == #[trigger] w[b + k]);
    }
    assert(body =~= w.subrange(b as int, e as int));
    match crate::text::digits_to_val(&t, b, e, cap) {
        Some(v) => {
            if neg {
                if v == 0x8000_0000_0000_0000 {
                    Some(i64::MIN)
                } else {
                    Some(-(v as i64))
                }
            } else {
                Some(v as i64)
            }
        },
        None => None,
    }
}

/// Parse the signed integer of a position field.
fn pos_int_x(s: &Vec<char>, i: usize) -> (r: Option<(i32, usize)>)
    requires
        i <= s@.len(),
    ensures
        match r {
            Some((v, e)) => pos_int_ok(s@, i as int) && in_i32(pos_int_val(s@, i as int)) && v
                as int == pos_int_val(s@, i as int) && e as int == pos_int_end(s@, i as int) && i
                < e <= s@.len(),
            None => !(pos_int_ok(s@, i as int) && in_i32(pos_int_val(s@, i as int))),
        },
{
    let n = s.len();
    let neg = i < n && s[i] == '-';
    let d0: usize = if neg {
        i + 1
    } else {
        i
    };
    let e = crate::text::digits_end_x(s, d0);
    proof {
        crate::text::lemma_digits_end(s@, d0 as int);
    }
    if e == d0 {
        return None;
    }
    let cap: u64 = if neg {
        0x8000_0000
    } else {
        0x7fff_ffff
    };
    match crate::text::digits_to_val(s, d0, e, cap) {
        Some(v) => {
            if neg {
                if v == 0x8000_0000 {
                    Some((i32::MIN, e))
                } else {
                    Some((-(v as i32), e))
                }
            } else {
                Some((v as i32, e))
            }
        },
        None => None,
    }
}

/// Read the position suffix at `j`, if one stands there.
#[verifier::rlimit(100)]
fn pos_suffix_x(s: &Vec<char>, j: usize) -> (r: Option<Position>)
    requires
        j <= s@.len(),
    ensures
        match r {
            Some(p) => pos_suffix(s@, j as int) == Some(p@),
            None => pos_suffix(s@, j as int) is None,
        },
{
    let n = s.len();
    let k = spaces_end_x(s, j);
    if !(k - j >= 2 && n - k >= 3 && s[k] == 'X' && s[k + 1] == '1' && s[k + 2] == ':') {
        return None;
    }
    let r1 = pos_int_x(s, k + 3);
    let (v1, e1) = match r1 {
        Some(p) => p,
        None => {
            return None;
        },
    };
    if !(n - e1 >= 4 && s[e1] == ' ' && s[e1 + 1] == 'X' && s[e1 + 2] == '2' && s[e1 + 3]
        == ':') {
        return None;
    }
    let r2 = pos_int_x(s, e1 + 4);
    let (v2, e2) = match r2 {
        Some(p) => p,
        None => {
            return None;
        },
    };
    if !(n - e2 >= 4 && s[e2] == ' ' && s[e2 + 1] == 'Y' && s[e2 + 2] == '1' && s[e2 + 3]
        == ':') {
        return None;
    }
    let r3 = pos_int_x(s, e2 + 4);
    let (v3, e3) = match r3 {
        Some(p) => p,
        None => {
            return None;
        },
    };
    if !(n - e3 >= 4 && s[e3] == ' ' && s[e3 + 1] == 'Y' && s[e3 + 2] == '2' && s[e3 + 3]
        == ':') {
        return None;
    }
    let r4 = pos_int_x(s, e3 + 4);
    let (v4, e4) = match r4 {
        Some(p) => p,
        None => {
            return None;
        },
    };
    let mut t: usize = e4;
    while t < n && crate::text::is_ws_x(s[t])
        invariant
            e4 <= t <= n == s@.len(),
            forall|q: int| e4 <= q < t ==> is_ws(#[trigger] s@[q]),
        decreases n - t,
    {
        t = t + 1;
    }
    if t != n {
        assert(pos_suffix(s@, j as int) is None) by {
            assert(!is_blank(s@.subrange(e4 as int, s@.len() as int))) by {
                assert(s@.subrange(e4 as int, s@.len() as int)[t - e4] == s@[t as int]);
            }
        }
        return None;
    }
    assert(is_blank(s@.subrange(e4 as int, s@.len() as int))) by {
        assert(forall|q: int|
            0 <= q < s@.len() - e4 ==> s@.subrange(e4 as int, s@.len() as int)[q]
                == #[trigger] s@[e4 + q]);
    }
    Some(Position { x1: v1, x2: v2, y1: v3, y2: v4 })
}

/// The first index where a position suffix matches.
fn first_pos_x(s: &Vec<char>) -> (r: Option<(usize, Position)>)
    ensures
        match r {
            Some((j, p)) => first_pos_from(s@, 0) == Some(j as int) && pos_suffix(s@, j as int)
                == Some(p@),
            None => first_pos_from(s@, 0) is None,
        },
{
    let n = s.len();
    let mut j: usize = 0;
    while j < n
        invariant
            j <= n == s@.len(),
            first_pos_from(s@, 0) == first_pos_from(s@, j as int),
        decreases n - j,
    {
        match pos_suffix_x(s, j) {
            Some(p) => {
                return Some((j, p));
            },
            None => {},
        }
        j = j + 1;
    }
    None
}

/// Parse a timespan line: the two timestamps around the rightmost arrow,
/// and the optional position suffix.
fn parse_time_line_x(l: &Vec<char>) -> (r: Option<(TimeSpan, Option<Position>)>)
    ensures
        match r {
            Some((ts, p)) => parse_time_line(l@) == Some(
                ((ts.start_ms as int, ts.end_ms as int), match p {
                    Some(q) => Some(q@),
                    None => None,
                }),
            ),
            None => parse_time_line(l@) is None,
        },
{
    let n = l.len();
    if n < 5 {
        proof {
            assert(last_arrow(l@) is None);
        }
        return None;
    }
    let mut i: usize = n - 4;
    while i > 0
        invariant
            i <= n - 4,
            n == l@.len(),
            forall|q: int| i <= q <= n - 5 ==> !arrow_at(l@, q),
        decreases i,
    {
        let idx = i - 1;
        if l[idx] == ' ' && l[idx + 1] == '-' && l[idx + 2] == '-' && l[idx + 3] == '>' && l[idx
            + 4] == ' ' {
            proof {
                lemma_arrow_before_at(l@, idx as int, n - 5);
            }
            let left = crate::time::subvec(l, 0, idx);
            let rest = crate::time::subvec(l, idx + 5, n);
            let av = crate::time::parse_ms_chars(&left);
            let found = first_pos_x(&rest);
            let bv: Option<i64>;
            let ghost endseq = match first_pos_from(rest@, 0) {
                Some(j) => rest@.subrange(0, j),
                None => rest@,
            };
            match found {
                Some((j, _)) => {
                    let endv = crate::time::subvec(&rest, 0, j);
                    bv = crate::time::parse_ms_chars(&endv);
                },
                None => {
                    bv = crate::time::parse_ms_chars(&rest);
                },
            }
            match (av, bv) {
                (Some(a), Some(b)) => {
                    let pos: Option<Position> = match found {
                        Some((_, p)) => Some(p),
                        None => None,
                    };
                    return Some((TimeSpan::new(a, b), pos));
                },
                _ => {
                    return None;
                },
            }
        }
        i = idx;
    }
    proof {
        lemma_arrow_before_none(l@, n - 5);
    }
    None
}

proof fn lemma_arrow_before_none(s: Seq<char>, k: int)
    requires
        forall|j: int| 0 <= j <= k ==> !arrow_at(s, j),
    ensures
        arrow_before(s, k) is None,
    decreases k + 1,
{
    if k >= 0 {
        lemma_arrow_before_none(s, k - 1);
    }
}

proof fn lemma_arrow_before_at(s: Seq<char>, i: int, k: int)
    requires
        0 <= i <= k,
        arrow_at(s, i),
        forall|j: int| i < j <= k ==> !arrow_at(s, j),
    ensures
        arrow_before(s, k) == Some(i),
    decreases k,
{
    if k > i {
        lemma_arrow_before_at(s, i, k - 1);
    }
}

/// Parse a stream of decoded text lines (terminators included) into a
/// document: blank-separated records of a number line, a timespan line and
/// text lines. Fails, naming the offending line, exactly where the state
/// machine meets a line it cannot read.
#[verifier::rlimit(100)]
pub fn parse_document(lines: &Vec<String>) -> (r: Result<SubData, SubError>)
    ensures
        (r matches Ok(d) ==> doc_parse_spec(lines.deep_view()) == Ok::<DocM, Seq<char>>(d@)),
        (r matches Err(e) ==> doc_parse_spec(lines.deep_view()) is Err && (e matches
            SubError::SubtitleParse(m) && Err::<DocM, Seq<char>>(m@) == doc_parse_spec(
            lines.deep_view(),
        ))),
{
    let ghost gl = lines.deep_view();
    let n = lines.len();
    let mut cur_num: Option<i64> = None;
    let mut cur_span: Option<TimeSpan> = None;
    let mut cur_pos: Option<Position> = None;
    let mut cur_texts: Vec<String> = Vec::new();
    let mut acc: Vec<Subtitle> = Vec::new();
    let ghost mut gst = PStateM::Num;
    proof {
        assert(subs_view(acc@) =~= Seq::<SubtitleM>::empty());
    }
    let mut i: usize = 0;
    while i < n
        invariant
            i <= n == lines@.len(),
            gl == lines.deep_view(),
            parse_lines(gl, 0, PStateM::Num, Seq::empty()) == parse_lines(
                gl,
                i as int,
                gst,
                subs_view(acc@),
            ),
            match gst {
                PStateM::Num => cur_num is None && cur_span is None && cur_pos is None
                    && cur_texts@.len() == 0,
                PStateM::Time { number } => (cur_num matches Some(v) && v as int == number)
                    && cur_span is None && cur_pos is None && cur_texts@.len() == 0,
                PStateM::Text { number, start_ms, end_ms, position, lines: ls } => (cur_num
                    matches Some(v) && v as int == number) && (cur_span matches Some(ts)
                    && ts.start_ms as int == start_ms && ts.end_ms as int == end_ms) && (match (
                cur_pos, position) {
                    (Some(p), Some(q)) => p@ == q,
                    (None, None) => true,
                    _ => false,
                }) && ls == cur_texts.deep_view(),
            },
        decreases n - i,
    {
        let ghost l = gl[i as int];
        let cv = str_to_chars(lines[i].as_str());
        proof {
            assert(cv@ == l);
        }
        let bounds = trim_range(&cv);
        if bounds.0 == bounds.1 {
            // a blank line: close the record in progress, if it has text
            assert(is_blank(l));
            if cur_texts.len() > 0 {
                let texts = cur_texts;
                cur_texts = Vec::new();
                let num = match cur_num {
                    Some(x) => x,
                    None => {
                        proof {
                            assert(false);
                        }
                        0
                    },
                };
                let span = match cur_span {
                    Some(x) => x,
                    None => {
                        proof {
                            assert(false);
                        }
                        TimeSpan::new(0, 1)
                    },
                };
                let sub = Subtitle {
                    number: num,
                    time_span: span,
                    position: cur_pos,
                    lines: texts,
                };
                cur_num = None;
                cur_span = None;
                cur_pos = None;
                let ghost prev = subs_view(acc@);
                acc.push(sub);
                proof {
                    assert(subs_view(acc@) =~= prev.push(sub@));
                    gst = PStateM::Num;
                }
            }
        } else {
            assert(!is_blank(l));
            match (cur_num, cur_span) {
                (None, _) => {
                    match parse_i64_x(&cv) {
                        Some(v) => {
                            cur_num = Some(v);
                            proof {
                                gst = PStateM::Time { number: v as int };
                            }
                        },
                        None => {
                            return Err(SubError::SubtitleParse(lines[i].clone()));
                        },
                    }
                },
                (Some(_), None) => {
                    match parse_time_line_x(&cv) {
                        Some((ts, p)) => {
                            cur_span = Some(ts);
                            cur_pos = p;
                            proof {
                                gst = match gst {
                                    PStateM::Time { number } => PStateM::Text {
                                        number,
                                        start_ms: ts.start_ms as int,
                                        end_ms: ts.end_ms as int,
                                        position: match p {
                                            Some(q) => Some(q@),
                                            None => None,
                                        },
                                        lines: Seq::empty(),
                                    },
                                    _ => gst,
                                };
                            }
                        },
                        None => {
                            return Err(SubError::SubtitleParse(lines[i].clone()));
                        },
                    }
                },
                (Some(_), Some(_)) => {
                    let ghost prev = cur_texts.deep_view();
                    cur_texts.push(lines[i].clone());
                    proof {
                        assert(cur_texts.deep_view() =~= prev.push(l));
                        gst = match gst {
                            PStateM::Text { number, start_ms, end_ms, position, lines: ls } => {
                                PStateM::Text {
                                    number,
                                    start_ms,
                                    end_ms,
                                    position,
                                    lines: ls.push(l),
                                }
                            },
                            _ => gst,
                        };
                    }
                },
            }
        }
        i = i + 1;
    }
    // end of stream: a record with text still open is closed
    let ghost accv = subs_view(acc@);
    proof {
        assert(parse_lines(gl, n as int, gst, accv) == Ok::<Seq<SubtitleM>, Seq<char>>(
            flush_state(gst, accv),
        ));
    }
    if cur_texts.len() > 0 {
        let texts = cur_texts;
        cur_texts = Vec::new();
        let num = match cur_num {
            Some(x) => x,
            None => {
                proof {
                    assert(false);
                }
                0
            },
        };
        let span = match cur_span {
            Some(x) => x,
            None => {
                proof {
                    assert(false);
                }
                TimeSpan::new(0, 1)
            },
        };
        let sub = Subtitle { number: num, time_span: span, position: cur_pos, lines: texts };
        acc.push(sub);
        proof {
            assert(subs_view(acc@) =~= accv.push(sub@));
            assert(flush_state(gst, accv) == subs_view(acc@));
        }
    } else {
        proof {
            assert(flush_state(gst, accv) == subs_view(acc@));
        }
    }
    proof {
        assert(parse_lines(gl, 0, PStateM::Num, Seq::empty()) == Ok::<
            Seq<SubtitleM>,
            Seq<char>,
        >(subs_view(acc@)));
    }
    let line_ending: String;
    if n == 0 {
        line_ending = "\n".to_owned();
        proof {
            reveal_strlit("\n");
            assert(line_ending@ =~= le_of(gl));
        }
    } else {
        let first = str_to_chars(lines[0].as_str());
        let fl = first.len();
        if fl >= 2 && first[fl - 1] == '\n' && first[fl - 2] == '\r' {
            line_ending = "\r\n".to_owned();
            proof {
                reveal_strlit("\r\n");
                assert(line_ending@ =~= le_of(gl));
            }
        } else {
            line_ending = "\n".to_owned();
            proof {
                reveal_strlit("\n");
                assert(line_ending@ =~= le_of(gl));
            }
        }
    }
    let d = SubData { subs: acc, line_ending };
    Ok(d)
}

impl SubData {
    /// Render the whole document: for each record its number, its timespan
    /// line, its text lines verbatim, and a blank separator line, the
    /// document's own terminator throughout.
    pub fn format(&self) -> (r: String)
        ensures
            r@ == doc_text(self@),
    {
        let mut buf: Vec<char> = Vec::new();
        let n = self.subs.len();
        let mut i: usize = 0;
        while i < n
            invariant
                i <= n == self.subs@.len(),
                buf@ == subs_text(subs_view(self.subs@.take(i as int)), self.line_ending@),
            decreases n - i,
        {
            push_record(&mut buf, &self.subs[i], self.line_ending.as_str());
            proof {
                let taken = subs_view(self.subs@.take(i + 1));
                assert(taken.drop_last() =~= subs_view(self.subs@.take(i as int)));
                assert(taken.last() == self.subs@[i as int]@);
                assert(buf@ =~= subs_text(taken, self.line_ending@));
            }
            i = i + 1;
        }
        proof {
            assert(self.subs@.take(n as int) =~= self.subs@);
        }
        chars_to_string(&buf)
    }
}

} // verus!
