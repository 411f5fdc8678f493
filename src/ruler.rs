//! The time ruler above the waveforms: tick marks for each tick, a heavier
//! mark every ten ticks, and the time labels of those marks.

use vstd::prelude::*;
use vstd::string::*;
use crate::controller::TuiWave;
use crate::render::{StyleTag, StyledString};
use crate::text::{dec_digits, dec_field, fit_right, push_char, push_repeat, repeat_char};

verus! {

pub const RULE: char = '\u{2500}';
pub const TICK: char = '\u{252c}';
pub const TICK_TEN: char = '\u{2565}';

/// `n` copies of `s`.
pub open spec fn repeat_seq(s: Seq<char>, n: nat) -> Seq<char>
    decreases n,
{
    if n == 0 {
        Seq::empty()
    } else {
        repeat_seq(s, (n - 1) as nat) + s
    }
}

/// The marks of one tick `w` cells wide: a rule ended by `mark`.
pub open spec fn tick_marks(w: nat, mark: Seq<char>) -> Seq<char> {
    repeat_char(RULE, (w - 1) as nat) + mark
}

/// The marks of ten ticks, the last one heavy.
pub open spec fn decade_marks(w: nat) -> Seq<char> {
    repeat_seq(tick_marks(w, seq![TICK]), 9) + tick_marks(w, seq![TICK_TEN])
}

/// The marks line for a window starting at `t_from` and `t_range` ticks long.
pub open spec fn ruler_marks(t_from: nat, t_range: nat, w: nat) -> Seq<char> {
    repeat_seq(tick_marks(w, seq![TICK]), (9 - t_from % 10) as nat) + tick_marks(w, seq![TICK_TEN])
        + repeat_seq(decade_marks(w), t_range / 10 + 1)
}

/// The labels after the first, one per further ten ticks, `k` of them.
pub open spec fn later_labels(t_from: nat, w: nat, k: nat) -> Seq<char>
    decreases k,
{
    if k == 0 {
        Seq::empty()
    } else {
        later_labels(t_from, w, (k - 1) as nat) + fit_right(
            dec_digits(t_from / 10 * 10 + (k + 1) * 10),
            w * 10,
        )
    }
}

/// The labels line: the time of each heavy mark, right-aligned above it.
pub open spec fn ruler_labels(t_from: nat, t_range: nat, w: nat) -> Seq<char> {
    fit_right(dec_digits((t_from / 10 + 1) * 10), w * (10 - t_from % 10) as nat) + later_labels(
        t_from,
        w,
        t_range / 10,
    )
}

/// The marks of one tick: `timedelta_width - 1` rule cells and `tick`.
pub fn make_tick(app: &TuiWave, tick: &str) -> (r: String)
    requires
        app.layout.timedelta_width >= 1,
        app.layout.timedelta_width <= usize::MAX,
    ensures
        r@ == tick_marks(app.layout.timedelta_width as nat, tick@),
{
    let mut s = String::new();
    push_repeat(&mut s, RULE, (app.layout.timedelta_width - 1) as usize);
    s.append(tick);
    assert(s@ =~= tick_marks(app.layout.timedelta_width as nat, tick@));
    s
}

/// Appends `n` copies of `t` to `s`.
fn push_copies(s: &mut String, t: &String, n: usize)
    ensures
        final(s)@ == old(s)@ + repeat_seq(t@, n as nat),
{
    let mut i: usize = 0;
    while i < n
        invariant
            i <= n,
            s@ == old(s)@ + repeat_seq(t@, i as nat),
        decreases n - i,
    {
        s.append(t.as_str());
        i += 1;
        assert(s@ =~= old(s)@ + repeat_seq(t@, i as nat));
    }
}

/// The labels line and the marks line of the ruler over the current window.
pub fn make_ruler(app: &TuiWave) -> (r: (StyledString, StyledString))
    requires
        app.t_from <= app.t_to,
        app.t_to + 20 <= u64::MAX,
        app.layout.timedelta_width >= 2,
        app.layout.timedelta_width * (app.t_to - app.t_from + 20) <= usize::MAX,
    ensures
        r.0@ == (
            ruler_labels(app.t_from as nat, (app.t_to - app.t_from) as nat, app.layout.timedelta_width as nat),
            StyleTag::Plain,
        ),
        r.1@ == (
            ruler_marks(app.t_from as nat, (app.t_to - app.t_from) as nat, app.layout.timedelta_width as nat),
            StyleTag::Plain,
        ),
{
    let t_from = app.t_from;
    let t_range = app.t_to - app.t_from;
    let tw = app.layout.timedelta_width;
    assert(tw * 1 <= tw * (t_range + 20)) by (nonlinear_arith)
        requires
            tw >= 2,
    ;
    let tick = make_tick(app, "\u{252c}");
    let ten = make_tick(app, "\u{2565}");
    proof {
        reveal_strlit("\u{252c}");
        reveal_strlit("\u{2565}");
        assert("\u{252c}"@ =~= seq![TICK]);
        assert("\u{2565}"@ =~= seq![TICK_TEN]);
    }
    assert(tick@ == tick_marks(tw as nat, seq![TICK]));
    assert(ten@ == tick_marks(tw as nat, seq![TICK_TEN]));
    assert(t_range + 20 <= tw * (t_range + 20)) by (nonlinear_arith)
        requires
            tw >= 2,
    ;
    // the marks
    let mut ruler = String::new();
    push_copies(&mut ruler, &tick, (9 - t_from % 10) as usize);
    ruler.append(ten.as_str());
    let mut decade = String::new();
    push_copies(&mut decade, &tick, 9);
    decade.append(ten.as_str());
    push_copies(&mut ruler, &decade, (t_range / 10 + 1) as usize);
    assert(decade@ =~= decade_marks(tw as nat));
    assert(ruler@ =~= ruler_marks(t_from as nat, t_range as nat, tw as nat));
    // the labels
    assert(tw * (10 - t_from % 10) <= tw * (t_range + 20)) by (nonlinear_arith)
        requires
            t_from % 10 < 10,
            tw >= 2,
    ;
    let w0 = tw * (10 - t_from % 10);
    let mut labels = dec_field((t_from / 10 + 1) * 10, w0 as usize);
    assert(tw * 10 <= tw * (t_range + 20)) by (nonlinear_arith)
        requires
            tw >= 2,
    ;
    let w10 = tw * 10;
    let k = t_range / 10;
    let mut i: u64 = 1;
    assert(labels@ =~= fit_right(dec_digits((t_from as nat / 10 + 1) * 10), w0 as nat) + later_labels(
        t_from as nat,
        tw as nat,
        0,
    ));
    while i < k + 1
        invariant
            1 <= i <= k + 1,
            k == t_range / 10,
            t_from + t_range + 20 <= u64::MAX,
            w10 == tw * 10,
            w10 <= usize::MAX,
            w0 == tw * (10 - t_from % 10),
            labels@ == fit_right(dec_digits((t_from as nat / 10 + 1) * 10), w0 as nat) + later_labels(
                t_from as nat,
                tw as nat,
                (i - 1) as nat,
            ),
        decreases k + 1 - i,
    {
        let t = t_from / 10 * 10 + (i + 1) * 10;
        let field = dec_field(t, w10 as usize);
        labels.append(field.as_str());
        assert(labels@ =~= fit_right(dec_digits((t_from as nat / 10 + 1) * 10), w0 as nat)
            + later_labels(t_from as nat, tw as nat, i as nat));
        i += 1;
    }
    (StyledString::styled(labels, StyleTag::Plain), StyledString::styled(ruler, StyleTag::Plain))
}

} // verus!
