//! The waveform renderer: one signal's changes over a time window, as a
//! sequence of styled text segments of exact width.

use vstd::prelude::*;
use crate::text::{
    centered, centered_char, fit_left, hex_digits, hex_field, repeat, repeat_char,
};
use crate::timeseries::{Bits, ValueChange, ValueChangeStream, ValueChangeStreamImpl, times_increasing};

verus! {

/// How the drawing layer shows a segment.
#[derive(Debug, Clone, Copy, PartialEq, Eq, Structural)]
pub enum StyleTag {
    /// a single-bit level or an edge
    Level,
    /// a resolved multi-bit value
    Vector,
    /// an unknown or floating value
    Alarm,
    /// an edge into or out of an unknown or floating value
    Warning,
    /// the scope path in front of a signal name
    Path,
    /// a signal name
    Name,
    /// plain text
    Plain,
}

/// A piece of text with its style.
#[derive(Debug, Clone)]
pub struct StyledString {
    pub string: String,
    pub style: StyleTag,
}

pub type Segment = (Seq<char>, StyleTag);

impl View for StyledString {
    type V = Segment;

    open spec fn view(&self) -> Segment {
        (self.string@, self.style)
    }
}

impl StyledString {
    pub fn styled(string: String, style: StyleTag) -> (r: Self)
        ensures
            r@ == (string@, style),
    {
        Self { string, style }
    }
}

/// The views of a sequence of segments.
pub open spec fn segments_view(v: Seq<StyledString>) -> Seq<Segment> {
    v.map_values(|s: StyledString| s@)
}

pub const HIGH: char = '\u{2587}';
pub const LOW: char = '\u{2581}';
pub const RISING: char = '\u{e0ba}';
pub const FALLING: char = '\u{e0b8}';
pub const NEUTRAL: char = '\u{e0b0}';
pub const WARNING: char = '\u{e0b2}';

pub open spec fn is_unresolved(v: Bits) -> bool {
    v is X || v is Z
}

/// The text of a run of `n >= 1` cells holding `v`.
pub open spec fn value_text(v: Bits, n: nat) -> Seq<char> {
    match v {
        Bits::B(b) => repeat_char(if b { HIGH } else { LOW }, n),
        Bits::V(u) => fit_left(hex_digits(u.value as nat), n),
        Bits::X => centered('X', n),
        Bits::Z => centered('Z', n),
    }
}

pub open spec fn value_style(v: Bits) -> StyleTag {
    match v {
        Bits::B(_) => StyleTag::Level,
        Bits::V(_) => StyleTag::Vector,
        _ => StyleTag::Alarm,
    }
}

/// A run of `n` cells showing `v`.
pub open spec fn run_segment(v: Bits, n: nat) -> Segment {
    (value_text(v, n), value_style(v))
}

/// The one-cell glyph marking a change from `prev` to `next`.
pub open spec fn edge_segment(prev: Bits, next: Bits) -> Segment {
    if is_unresolved(prev) || is_unresolved(next) {
        (seq![WARNING], StyleTag::Warning)
    } else {
        match next {
            Bits::B(b) => (seq![if b { RISING } else { FALLING }], StyleTag::Level),
            _ => (seq![NEUTRAL], StyleTag::Level),
        }
    }
}

/// Number of changes at or before `t`.
pub open spec fn count_at_or_before(s: Seq<ValueChange<Bits>>, t: u64) -> nat
    decreases s.len(),
{
    if s.len() == 0 {
        0
    } else {
        count_at_or_before(s.drop_last(), t) + if s.last().time <= t { 1nat } else { 0nat }
    }
}

/// Number of changes strictly before `t`.
pub open spec fn count_before(s: Seq<ValueChange<Bits>>, t: u64) -> nat
    decreases s.len(),
{
    if s.len() == 0 {
        0
    } else {
        count_before(s.drop_last(), t) + if s.last().time < t { 1nat } else { 0nat }
    }
}

/// The value in effect at `t`: that of the latest change at or before `t`,
/// high impedance before the first change.
pub open spec fn value_at(s: Seq<ValueChange<Bits>>, t: u64) -> Bits
    decreases s.len(),
{
    if s.len() == 0 {
        Bits::Z
    } else if s.last().time <= t {
        s.last().new_value
    } else {
        value_at(s.drop_last(), t)
    }
}

/// Value and time of the boundary before change `k` of a window whose first
/// change strictly inside it is `lo`.
pub open spec fn boundary_before(
    s: Seq<ValueChange<Bits>>,
    lo: int,
    k: int,
    v0: Bits,
    t0: u64,
) -> (Bits, u64) {
    if k <= lo {
        (v0, t0)
    } else {
        (s[k - 1].new_value, s[k - 1].time)
    }
}

/// The segments for changes `lo .. k`: for each change, a run of the prior
/// value over the ticks since the previous boundary, less one cell, and the
/// edge glyph.
pub open spec fn change_segments(
    s: Seq<ValueChange<Bits>>,
    lo: int,
    k: int,
    v0: Bits,
    t0: u64,
    w: nat,
) -> Seq<Segment>
    decreases k - lo,
{
    if k <= lo {
        Seq::empty()
    } else {
        let (pv, pt) = boundary_before(s, lo, k - 1, v0, t0);
        change_segments(s, lo, k - 1, v0, t0, w) + seq![
            run_segment(pv, (w * (s[k - 1].time - pt) - 1) as nat),
            edge_segment(pv, s[k - 1].new_value),
        ]
    }
}

/// The rendering of the window `[t_from, t_to)` at `w` cells per tick.
pub open spec fn render_window(s: Seq<ValueChange<Bits>>, t_from: u64, t_to: u64, w: nat) -> Seq<
    Segment,
> {
    let lo = count_at_or_before(s, t_from) as int;
    let hi = if count_before(s, t_to) >= lo { count_before(s, t_to) as int } else { lo };
    let v0 = value_at(s, t_from);
    let (cv, ct) = boundary_before(s, lo, hi, v0, t_from);
    change_segments(s, lo, hi, v0, t_from, w) + if ct < t_to {
        seq![run_segment(cv, (w * (t_to - ct)) as nat)]
    } else {
        Seq::empty()
    }
}

/// Total number of characters of the segments.
pub open spec fn total_width(segs: Seq<Segment>) -> nat
    decreases segs.len(),
{
    if segs.len() == 0 {
        0
    } else {
        total_width(segs.drop_last()) + segs.last().0.len()
    }
}


proof fn lemma_count_at_or_before(s: Seq<ValueChange<Bits>>, t: u64, k: int)
    requires
        0 <= k <= s.len(),
        forall|j: int| 0 <= j < k ==> #[trigger] s[j].time <= t,
        forall|j: int| k <= j < s.len() ==> t < #[trigger] s[j].time,
    ensures
        count_at_or_before(s, t) == k,
    decreases s.len(),
{
    if s.len() > 0 {
        let p = s.drop_last();
        if k == s.len() {
            assert(s.last().time <= t);
            lemma_count_at_or_before(p, t, k - 1);
        } else {
            assert(t < s.last().time);
            lemma_count_at_or_before(p, t, k);
        }
    }
}

proof fn lemma_count_before(s: Seq<ValueChange<Bits>>, t: u64, k: int)
    requires
        0 <= k <= s.len(),
        forall|j: int| 0 <= j < k ==> #[trigger] s[j].time < t,
        forall|j: int| k <= j < s.len() ==> t <= #[trigger] s[j].time,
    ensures
        count_before(s, t) == k,
    decreases s.len(),
{
    if s.len() > 0 {
        let p = s.drop_last();
        if k == s.len() {
            assert(s.last().time < t);
            lemma_count_before(p, t, k - 1);
        } else {
            assert(t <= s.last().time);
            lemma_count_before(p, t, k);
        }
    }
}

/// The value in effect at `t` is that of the last change at or before `t`.
proof fn lemma_value_at(s: Seq<ValueChange<Bits>>, t: u64, k: int)
    requires
        0 <= k <= s.len(),
        forall|j: int| 0 <= j < k ==> #[trigger] s[j].time <= t,
        forall|j: int| k <= j < s.len() ==> t < #[trigger] s[j].time,
    ensures
        value_at(s, t) == if k == 0 { Bits::Z } else { s[k - 1].new_value },
    decreases s.len(),
{
    if s.len() > 0 {
        let p = s.drop_last();
        if k == s.len() {
            assert(s.last().time <= t);
        } else {
            assert(t < s.last().time);
            lemma_value_at(p, t, k);
        }
    }
}

/// A run of `n` cells showing `v`.
fn value_run(v: Bits, n: usize) -> (r: StyledString)
    requires
        n >= 1,
    ensures
        r@ == run_segment(v, n as nat),
{
    match v {
        Bits::B(b) => StyledString::styled(repeat(if b { HIGH } else { LOW }, n), StyleTag::Level),
        Bits::V(u) => StyledString::styled(hex_field(u.value, n), StyleTag::Vector),
        Bits::X => StyledString::styled(centered_char('X', n), StyleTag::Alarm),
        Bits::Z => StyledString::styled(centered_char('Z', n), StyleTag::Alarm),
    }
}

fn glyph(c: char, style: StyleTag) -> (r: StyledString)
    ensures
        r@ == (seq![c], style),
{
    let mut s = String::new();
    crate::text::push_char(&mut s, c);
    assert(s@ =~= seq![c]);
    StyledString::styled(s, style)
}

/// The edge glyph for a change from `prev` to `next`.
fn edge(prev: Bits, next: Bits) -> (r: StyledString)
    ensures
        r@ == edge_segment(prev, next),
{
    let bad = match prev {
        Bits::X | Bits::Z => true,
        _ => false,
    } || match next {
        Bits::X | Bits::Z => true,
        _ => false,
    };
    if bad {
        glyph(WARNING, StyleTag::Warning)
    } else {
        match next {
            Bits::B(b) => glyph(if b { RISING } else { FALLING }, StyleTag::Level),
            _ => glyph(NEUTRAL, StyleTag::Level),
        }
    }
}

/// Renders the window `[t_from, t_to)` of a logic stream at `width` cells
/// per tick.
pub fn format_time_series_bits(
    timeline: &ValueChangeStreamImpl<Bits>,
    t_from: u64,
    t_to: u64,
    width: u64,
) -> (r: Vec<StyledString>)
    requires
        timeline.wf(),
        t_from <= t_to,
        width >= 2,
        width * (t_to - t_from) <= usize::MAX,
    ensures
        segments_view(r@) == render_window(timeline.stream@, t_from, t_to, width as nat),
{
    let ghost s = timeline.stream@;
    let ghost w = width as nat;
    let n = timeline.stream.len();
    let mut current_t = t_from;
    let mut current_v = Bits::Z;
    let before = timeline.change_before(t_from);
    if let Some(b) = before {
        current_v = timeline.stream[b].new_value;
    }
    // the first change strictly after t_from
    let lo: usize = match timeline.change_after(t_from) {
        Some(i) => if timeline.stream[i].time == t_from { i + 1 } else { i },
        None => n,
    };
    // the first change at or after t_to
    let hi0: usize = match timeline.change_after(t_to) {
        Some(i) => i,
        None => n,
    };
    let hi: usize = if hi0 >= lo { hi0 } else { lo };
    proof {
        assert forall|j: int| 0 <= j < lo implies #[trigger] s[j].time <= t_from by {
            if j > 0 && s[j].time > t_from {
                assert(s[j - 1].time < s[j].time);
            }
        }
        assert forall|j: int| lo <= j < n implies t_from < #[trigger] s[j].time by {
            if lo > 0 {
                assert(s[lo - 1].time <= t_from);
                if j > lo - 1 {
                    assert(s[lo - 1].time < s[j].time);
                }
            }
        }
        lemma_count_at_or_before(s, t_from, lo as int);
        lemma_count_before(s, t_to, hi0 as int);
        match before {
            Some(b) => {
                lemma_value_at(s, t_from, b + 1);
            },
            None => {
                lemma_value_at(s, t_from, 0);
            },
        }
        if lo > 0 && before is None {
            assert(s[0].time <= t_from);
        }
        if let Some(b) = before {
            if b + 1 < lo {
                assert(s[b + 1].time <= t_from);
            }
            if lo < b + 1 {
                assert(t_from < s[b as int].time);
            }
        }
    }
    let ghost v0 = current_v;
    assert(v0 == value_at(s, t_from));
    let mut spans: Vec<StyledString> = Vec::new();
    let mut i = lo;
    while i < hi
        invariant
            timeline.wf(),
            s == timeline.stream@,
            n == s.len(),
            lo <= i <= hi <= n,
            t_from <= t_to,
            width >= 2,
            w == width as nat,
            width * (t_to - t_from) <= usize::MAX,
            forall|j: int| lo <= j < n ==> t_from < #[trigger] s[j].time,
            forall|j: int| 0 <= j < hi ==> #[trigger] s[j].time < t_to || j < lo,
            (current_v, current_t) == boundary_before(s, lo as int, i as int, v0, t_from),
            t_from <= current_t <= t_to,
            segments_view(spans@) == change_segments(s, lo as int, i as int, v0, t_from, w),
        decreases hi - i,
    {
        let change_time = timeline.stream[i].time;
        let change_value = timeline.stream[i].new_value;
        proof {
            if i > lo {
                assert(s[i - 1].time < s[i as int].time);
            }
            assert(change_time < t_to);
        }
        let dt = change_time - current_t;
        assert(width * dt <= width * (t_to - t_from)) by (nonlinear_arith)
            requires
                dt <= t_to - t_from,
        ;
        assert(width * dt >= 2) by (nonlinear_arith)
            requires
                dt >= 1,
                width >= 2,
        ;
        let cells = (width * dt) as usize - 1;
        let run = value_run(current_v, cells);
        let mark = edge(current_v, change_value);
        let ghost prev = spans@;
        spans.push(run);
        spans.push(mark);
        proof {
            assert(segments_view(spans@) =~= segments_view(prev) + seq![
                run_segment(current_v, cells as nat),
                edge_segment(current_v, change_value),
            ]);
        }
        current_v = change_value;
        current_t = change_time;
        i += 1;
    }
    if current_t < t_to {
        let dt = t_to - current_t;
        assert(width * dt <= width * (t_to - t_from)) by (nonlinear_arith)
            requires
                dt <= t_to - t_from,
        ;
        assert(width * dt >= 2) by (nonlinear_arith)
            requires
                dt >= 1,
                width >= 2,
        ;
        let ghost prev = spans@;
        spans.push(value_run(current_v, (width * dt) as usize));
        proof {
            assert(segments_view(spans@) =~= segments_view(prev) + seq![
                run_segment(current_v, (w * (t_to - current_t)) as nat),
            ]);
        }
    } else {
        assert(segments_view(spans@) =~= segments_view(spans@) + Seq::<Segment>::empty());
    }
    spans
}


proof fn lemma_total_width_concat(a: Seq<Segment>, b: Seq<Segment>)
    ensures
        total_width(a + b) == total_width(a) + total_width(b),
    decreases b.len(),
{
    if b.len() > 0 {
        lemma_total_width_concat(a, b.drop_last());
        assert((a + b).drop_last() =~= a + b.drop_last());
    }
}

proof fn lemma_total_width_single(x: Segment)
    ensures
        total_width(seq![x]) == x.0.len(),
{
    assert(seq![x].drop_last() =~= Seq::<Segment>::empty());
    assert(total_width(Seq::<Segment>::empty()) == 0);
    assert(seq![x].last() == x);
}

proof fn lemma_value_text_len(v: Bits, n: nat)
    requires
        n >= 1,
    ensures
        value_text(v, n).len() == n,
{
}

/// Changes at or before `t` form a prefix of a time-ordered sequence.
proof fn lemma_count_at_or_before_splits(s: Seq<ValueChange<Bits>>, t: u64)
    requires
        times_increasing(s),
    ensures
        count_at_or_before(s, t) <= s.len(),
        forall|j: int| 0 <= j < count_at_or_before(s, t) ==> #[trigger] s[j].time <= t,
        forall|j: int| count_at_or_before(s, t) <= j < s.len() ==> t < #[trigger] s[j].time,
    decreases s.len(),
{
    if s.len() > 0 {
        let p = s.drop_last();
        lemma_count_at_or_before_splits(p, t);
        let k = count_at_or_before(p, t) as int;
        if s.last().time <= t {
            if k < p.len() {
                assert(p[k].time == s[k].time);
                assert(s[k].time < s[s.len() - 1].time);
            }
            assert forall|j: int| 0 <= j < s.len() implies #[trigger] s[j].time <= t by {
                if j < p.len() {
                    assert(p[j].time == s[j].time);
                }
            }
        } else {
            assert forall|j: int| 0 <= j < k implies #[trigger] s[j].time <= t by {
                assert(p[j].time == s[j].time);
            }
            assert forall|j: int| k <= j < s.len() implies t < #[trigger] s[j].time by {
                if j < p.len() {
                    assert(p[j].time == s[j].time);
                }
            }
        }
    }
}

/// Changes strictly before `t` form a prefix of a time-ordered sequence.
proof fn lemma_count_before_splits(s: Seq<ValueChange<Bits>>, t: u64)
    requires
        times_increasing(s),
    ensures
        count_before(s, t) <= s.len(),
        forall|j: int| 0 <= j < count_before(s, t) ==> #[trigger] s[j].time < t,
        forall|j: int| count_before(s, t) <= j < s.len() ==> t <= #[trigger] s[j].time,
    decreases s.len(),
{
    if s.len() > 0 {
        let p = s.drop_last();
        lemma_count_before_splits(p, t);
        let k = count_before(p, t) as int;
        if s.last().time < t {
            if k < p.len() {
                assert(p[k].time == s[k].time);
                assert(s[k].time < s[s.len() - 1].time);
            }
            assert forall|j: int| 0 <= j < s.len() implies #[trigger] s[j].time < t by {
                if j < p.len() {
                    assert(p[j].time == s[j].time);
                }
            }
        } else {
            assert forall|j: int| 0 <= j < k implies #[trigger] s[j].time < t by {
                assert(p[j].time == s[j].time);
            }
            assert forall|j: int| k <= j < s.len() implies t <= #[trigger] s[j].time by {
                if j < p.len() {
                    assert(p[j].time == s[j].time);
                }
            }
        }
    }
}

/// The runs and edges of changes `lo .. k` span the ticks from `t0` to the
/// boundary before change `k`.
proof fn lemma_change_segments_width(
    s: Seq<ValueChange<Bits>>,
    lo: int,
    k: int,
    v0: Bits,
    t0: u64,
    w: nat,
)
    requires
        times_increasing(s),
        0 <= lo <= k <= s.len(),
        w >= 2,
        forall|j: int| lo <= j < s.len() ==> t0 < #[trigger] s[j].time,
    ensures
        total_width(change_segments(s, lo, k, v0, t0, w)) == w * (boundary_before(
            s,
            lo,
            k,
            v0,
            t0,
        ).1 - t0),
    decreases k - lo,
{
    if k > lo {
        lemma_change_segments_width(s, lo, k - 1, v0, t0, w);
        let (pv, pt) = boundary_before(s, lo, k - 1, v0, t0);
        let tk = s[k - 1].time;
        if k - 1 > lo {
            assert(s[k - 2].time < s[k - 1].time);
        }
        assert(pt < tk);
        let n = w * (tk - pt);
        assert(n >= 2) by (nonlinear_arith)
            requires
                n == w * (tk - pt),
                w >= 2,
                pt < tk,
        ;
        lemma_value_text_len(pv, (n - 1) as nat);
        let prev = change_segments(s, lo, k - 1, v0, t0, w);
        let step = seq![run_segment(pv, (n - 1) as nat), edge_segment(pv, s[k - 1].new_value)];
        lemma_total_width_concat(prev, step);
        assert(total_width(step) == n) by {
            assert(step.drop_last() =~= seq![step[0]]);
            lemma_total_width_single(step[0]);
        }
        assert(change_segments(s, lo, k, v0, t0, w) == prev + step);
        assert(boundary_before(s, lo, k, v0, t0).1 == tk);
        assert(t0 <= pt);
        assert(w * (pt - t0) + w * (tk - pt) == w * (tk - t0)) by (nonlinear_arith)
            requires
                t0 <= pt <= tk,
        ;
    } else {
        assert(total_width(Seq::<Segment>::empty()) == 0);
        assert(w * (t0 - t0) == 0) by (nonlinear_arith);
    }
}

/// Rendering width is exact: the text of a window `[t_from, t_to)` at `w`
/// cells per tick is `w * (t_to - t_from)` characters wide, for every
/// time-ordered stream.
pub proof fn lemma_render_width(s: Seq<ValueChange<Bits>>, t_from: u64, t_to: u64, w: nat)
    requires
        times_increasing(s),
        t_from <= t_to,
        w >= 2,
    ensures
        total_width(render_window(s, t_from, t_to, w)) == w * (t_to - t_from),
{
    lemma_count_at_or_before_splits(s, t_from);
    lemma_count_before_splits(s, t_to);
    let lo = count_at_or_before(s, t_from) as int;
    let hi = if count_before(s, t_to) >= lo { count_before(s, t_to) as int } else { lo };
    let v0 = value_at(s, t_from);
    lemma_change_segments_width(s, lo, hi, v0, t_from, w);
    let (cv, ct) = boundary_before(s, lo, hi, v0, t_from);
    if hi > lo {
        assert(s[hi - 1].time < t_to);
    }
    let body = change_segments(s, lo, hi, v0, t_from, w);
    if ct < t_to {
        let n = w * (t_to - ct);
        assert(n >= 2) by (nonlinear_arith)
            requires
                n == w * (t_to - ct),
                w >= 2,
                ct < t_to,
        ;
        lemma_value_text_len(cv, n as nat);
        let tail = seq![run_segment(cv, n as nat)];
        lemma_total_width_concat(body, tail);
        lemma_total_width_single(tail[0]);
        assert(w * (ct - t_from) + w * (t_to - ct) == w * (t_to - t_from)) by (nonlinear_arith);
    } else {
        assert(body + Seq::<Segment>::empty() =~= body);
    }
}


/// The changes of a logic stream; none for a stream of another kind.
pub open spec fn logic_changes(v: ValueChangeStream) -> Seq<ValueChange<Bits>> {
    match v {
        ValueChangeStream::Bits(xs) => xs.stream@,
        _ => Seq::empty(),
    }
}

/// Renders the window `[t_from, t_to)` of a stream. A stream that does not
/// hold logic values renders as a logic stream without changes: high
/// impedance over the whole window.
pub fn format_time_series(timeline: &ValueChangeStream, t_from: u64, t_to: u64, width: u64) -> (r: Vec<
    StyledString,
>)
    requires
        timeline.wf(),
        t_from <= t_to,
        width >= 2,
        width * (t_to - t_from) <= usize::MAX,
    ensures
        segments_view(r@) == render_window(logic_changes(*timeline), t_from, t_to, width as nat),
{
    match timeline {
        ValueChangeStream::Bits(ts) => format_time_series_bits(ts, t_from, t_to, width),
        _ => {
            let none: ValueChangeStreamImpl<Bits> = ValueChangeStreamImpl::new();
            assert(none.stream@ =~= logic_changes(*timeline));
            format_time_series_bits(&none, t_from, t_to, width)
        },
    }
}

} // verus!
