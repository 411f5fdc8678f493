//! The viewport/focus controller: the visible time window, the zoom, the
//! scroll position and the two-pane focus, driven by key and resize events.

use vstd::prelude::*;
use crate::render::{StyleTag, StyledString, format_time_series, logic_changes, render_window};
use crate::selection::{
    Timeline, UICache, flip_scope_tree_impl, flattened, lemma_flattened_below, lemma_outline_len,
    lemma_toggle_scope_below, outline, rows, timeline_view, timelines_view, toggle_scope,
};
use crate::timeseries::{
    ScopeView, TimeSeries, ValueChangeStream, max_last_time, signals_below,
};

verus! {

/// Screen geometry: rows of signals that fit, pane widths and the zoom.
pub struct Layout {
    pub drawable_lines: usize,
    pub stream_width: u64,
    pub sidebar_width_percent: u16,
    pub signame_width_percent: u16,
    pub timedelta_width: u64,
    pub current_width: u16,
    pub current_height: u16,
}

/// Signal rows that fit in a terminal of `h` lines.
pub open spec fn drawable_for(h: u16) -> nat {
    if h % 2 == 1 {
        (h / 2) as nat
    } else if h >= 2 {
        (h / 2 - 1) as nat
    } else {
        0
    }
}

/// Width in cells of the waveform pane of a terminal `width` cells wide.
pub open spec fn pane_width(width: u16, sidebar: u16, signame: u16) -> nat {
    (width as nat * (100 - sidebar) as nat / 100) * (100 - signame) as nat / 100
}

impl Layout {
    pub fn resize(&mut self, w: u16, h: u16)
        ensures
            final(self).current_width == w,
            final(self).current_height == h,
            final(self).drawable_lines == drawable_for(h),
            final(self).stream_width == old(self).stream_width,
            final(self).sidebar_width_percent == old(self).sidebar_width_percent,
            final(self).signame_width_percent == old(self).signame_width_percent,
            final(self).timedelta_width == old(self).timedelta_width,
    {
        self.current_width = w;
        self.current_height = h;
        let n_lines = h as usize / 2;
        let n_lines = if h % 2 == 1 { n_lines } else { n_lines.saturating_sub(1) };
        self.drawable_lines = n_lines;
    }
}

/// The pane that receives vertical moves.
#[derive(Clone, Copy, Debug, PartialEq, Eq, Structural)]
pub enum Focus {
    Signal,
    Tree,
}

/// A key as the controller sees it.
#[derive(Clone, Copy, Debug, PartialEq, Eq, Structural)]
pub enum Key {
    Char(char),
    Left,
    Right,
    Up,
    Down,
    Enter,
    Other,
}

pub open spec fn is_right(key: Key) -> bool {
    key == Key::Char('l') || key == Key::Right
}

pub open spec fn is_left(key: Key) -> bool {
    key == Key::Char('h') || key == Key::Left
}

pub open spec fn is_down(key: Key) -> bool {
    key == Key::Char('j') || key == Key::Down
}

pub open spec fn is_up(key: Key) -> bool {
    key == Key::Char('k') || key == Key::Up
}

/// The viewer: the trace, its derived views, and the viewport state.
pub struct TuiWave {
    pub ts: TimeSeries,
    pub cache: UICache,
    pub t_from: u64,
    pub t_to: u64,
    pub t_last: u64,
    pub line_from: usize,
    pub layout: Layout,
    pub should_quit: bool,
    pub window_change_mode: bool,
    pub focus: Focus,
    pub focus_signal: usize,
    pub focus_tree: usize,
}

/// The decisions of the controller, as one value.
pub ghost struct ControlState {
    pub t_from: u64,
    pub t_to: u64,
    pub timedelta_width: u64,
    pub stream_width: u64,
    pub line_from: nat,
    pub focus: Focus,
    pub focus_signal: nat,
    pub focus_tree: nat,
    pub window_change_mode: bool,
    pub should_quit: bool,
    pub tree: ScopeView,
}

/// `f` clamped to the indices of a list of `n` rows (0 when it is empty).
pub open spec fn clamp_index(f: int, n: nat) -> nat {
    if n == 0 {
        0
    } else if f < 0 {
        0
    } else if f < n {
        f as nat
    } else {
        (n - 1) as nat
    }
}

/// The first visible row after the least shift of `line_from` that brings
/// row `focus` into a window of `rows` rows.
pub open spec fn clamp_scroll(line_from: nat, focus: nat, rows: nat) -> nat {
    if focus < line_from {
        focus
    } else if rows > 0 && focus >= line_from + rows {
        (focus - rows + 1) as nat
    } else {
        line_from
    }
}

/// The end of a window from `t_from` spanning `pane / w` ticks, kept at or
/// before `t_last + 1`.
pub open spec fn time_end(t_from: u64, w: u64, pane: nat, t_last: u64) -> u64 {
    if t_from + pane / (w as nat) < t_last + 1 {
        (t_from + pane / (w as nat)) as u64
    } else {
        (t_last + 1) as u64
    }
}

/// The rendered row expected for one displayed signal.
pub open spec fn expected_line(
    values: Seq<ValueChangeStream>,
    e: ((String, String), usize),
    t_from: u64,
    t_to: u64,
    w: u64,
) -> Timeline {
    (
        ((e.0.0@, StyleTag::Path), (e.0.1@, StyleTag::Name)),
        render_window(logic_changes(values[e.1 as int]), t_from, t_to, w as nat),
    )
}

/// The rendered rows expected for the given displayed signals.
pub open spec fn expected_rows(
    values: Seq<ValueChangeStream>,
    entries: Seq<((String, String), usize)>,
    t_from: u64,
    t_to: u64,
    w: u64,
) -> Seq<Timeline> {
    entries.map_values(|e: ((String, String), usize)| expected_line(values, e, t_from, t_to, w))
}

impl TuiWave {
    pub open spec fn n_signals(&self) -> nat {
        self.cache.selected_values@.len()
    }

    pub open spec fn n_tree_lines(&self) -> nat {
        self.cache.scope_tree_lines@.len()
    }

    pub open spec fn control(&self) -> ControlState {
        ControlState {
            t_from: self.t_from,
            t_to: self.t_to,
            timedelta_width: self.layout.timedelta_width,
            stream_width: self.layout.stream_width,
            line_from: self.line_from as nat,
            focus: self.focus,
            focus_signal: self.focus_signal as nat,
            focus_tree: self.focus_tree as nat,
            window_change_mode: self.window_change_mode,
            should_quit: self.should_quit,
            tree: self.ts.scope@,
        }
    }

    /// One past the last displayed row in view.
    pub open spec fn rows_end(&self) -> nat {
        if self.line_from + self.layout.drawable_lines < self.n_signals() {
            (self.line_from + self.layout.drawable_lines) as nat
        } else {
            self.n_signals()
        }
    }

    /// The rendered rows of the signals in view.
    pub open spec fn expected_timelines(&self) -> Seq<Timeline> {
        expected_rows(
            self.ts.values@,
            self.cache.selected_values@.subrange(self.line_from as int, self.rows_end() as int),
            self.t_from,
            self.t_to,
            self.layout.timedelta_width,
        )
    }

    /// Every stream is time-ordered and every signal of the tree has one; the
    /// last change time leaves room for one more tick.
    pub open spec fn store_ok(&self) -> bool {
        &&& self.ts.wf()
        &&& self.t_last < u64::MAX
    }

    /// The window lies in `[0, t_last + 1]` and its cells can be counted.
    pub open spec fn window_ok(&self) -> bool {
        &&& self.t_from <= self.t_to <= self.t_last + 1
        &&& self.layout.timedelta_width >= 2
        &&& self.layout.sidebar_width_percent <= 100
        &&& self.layout.signame_width_percent <= 100
        &&& (self.layout.drawable_lines > 0 ==> self.layout.timedelta_width * (self.t_to
            - self.t_from) <= usize::MAX)
    }

    /// The focused signal is a row of the list and lies in the visible rows;
    /// the focused tree row is a row of the outline.
    pub open spec fn focus_in_view(&self) -> bool {
        &&& (self.n_signals() == 0 ==> self.focus_signal == 0)
        &&& (self.n_signals() > 0 ==> self.focus_signal < self.n_signals())
        &&& self.line_from <= self.focus_signal
        &&& (self.layout.drawable_lines > 0 ==> self.focus_signal < self.line_from
            + self.layout.drawable_lines)
        &&& self.focus_tree < self.n_tree_lines()
    }

    /// Everything but the rendered rows is consistent.
    pub open spec fn wf_unrendered(&self) -> bool {
        &&& self.store_ok()
        &&& self.cache.matches_tree(self.ts.scope@)
        &&& self.window_ok()
        &&& self.focus_in_view()
    }

    pub open spec fn wf(&self) -> bool {
        &&& self.wf_unrendered()
        &&& timelines_view(self.cache.signal_timelines@) == self.expected_timelines()
    }
}


/// How a rendered signal row is framed: its place among the rows in view
/// and whether it, or the row below it, holds the focus.
#[derive(Clone, Copy, Debug, PartialEq, Eq, Structural)]
pub struct RowFrame {
    pub first: bool,
    pub last: bool,
    pub focused: bool,
    pub next_focused: bool,
}

/// How a row of the tree outline is highlighted.
#[derive(Clone, Copy, Debug, PartialEq, Eq, Structural)]
pub enum TreeRowStyle {
    Plain,
    /// the focused row while the signal pane has the focus
    Marked,
    /// the focused row while the tree pane has the focus
    Active,
}

/// What a key press makes of the controller's state.
pub open spec fn next(s: TuiWave, key: Key, ctrl: bool) -> ControlState {
    let c = s.control();
    let n = s.n_signals();
    let rows = s.layout.drawable_lines as nat;
    let tw = s.layout.timedelta_width;
    let pane = pane_width(
        s.layout.current_width,
        s.layout.sidebar_width_percent,
        s.layout.signame_width_percent,
    );
    if s.window_change_mode {
        if is_right(key) {
            ControlState { focus: Focus::Signal, window_change_mode: false, ..c }
        } else if is_left(key) {
            ControlState { focus: Focus::Tree, window_change_mode: false, ..c }
        } else {
            ControlState { window_change_mode: false, ..c }
        }
    } else if key == Key::Char('q') {
        ControlState { should_quit: true, ..c }
    } else if is_right(key) {
        if s.focus == Focus::Signal && s.t_to <= s.t_last {
            ControlState { t_from: (s.t_from + 1) as u64, t_to: (s.t_to + 1) as u64, ..c }
        } else {
            c
        }
    } else if is_left(key) {
        if s.focus == Focus::Signal && s.t_from > 0 {
            ControlState { t_from: (s.t_from - 1) as u64, t_to: (s.t_to - 1) as u64, ..c }
        } else {
            c
        }
    } else if is_down(key) {
        if s.focus == Focus::Signal {
            let f = clamp_index(s.focus_signal + 1, n);
            ControlState { focus_signal: f, line_from: clamp_scroll(s.line_from as nat, f, rows), ..c }
        } else {
            ControlState { focus_tree: clamp_index(s.focus_tree + 1, s.n_tree_lines()), ..c }
        }
    } else if is_up(key) {
        if s.focus == Focus::Signal {
            let f = clamp_index(s.focus_signal - 1, n);
            ControlState { focus_signal: f, line_from: clamp_scroll(s.line_from as nat, f, rows), ..c }
        } else {
            ControlState { focus_tree: clamp_index(s.focus_tree - 1, s.n_tree_lines()), ..c }
        }
    } else if key == Key::Char('-') || key == Key::Char('+') {
        let w: u64 = if key == Key::Char('-') {
            if tw - 1 < 2 { 2 } else { (tw - 1) as u64 }
        } else {
            if tw == u64::MAX { tw } else { (tw + 1) as u64 }
        };
        ControlState {
            timedelta_width: w,
            stream_width: pane as u64,
            t_to: time_end(s.t_from, w, pane, s.t_last),
            ..c
        }
    } else if key == Key::Char('0') {
        ControlState { t_from: 0, t_to: (s.t_to - s.t_from) as u64, ..c }
    } else if key == Key::Char('$') {
        let dt = s.t_to - s.t_from;
        ControlState {
            t_to: s.t_last,
            t_from: if s.t_last >= dt { (s.t_last - dt) as u64 } else { 0 },
            ..c
        }
    } else if ctrl && key == Key::Char('w') {
        ControlState { window_change_mode: true, ..c }
    } else if key == Key::Enter && s.focus == Focus::Tree {
        let tree = toggle_scope(s.ts.scope@, s.focus_tree as int);
        let f = clamp_index(s.focus_signal as int, flattened(tree).len());
        ControlState {
            tree,
            focus_signal: f,
            focus_tree: clamp_index(s.focus_tree as int, outline(tree).len()),
            line_from: clamp_scroll(s.line_from as nat, f, rows),
            ..c
        }
    } else {
        c
    }
}

fn clamp_at(f: usize, n: usize) -> (r: usize)
    ensures
        r == clamp_index(f as int, n as nat),
{
    if n == 0 {
        0
    } else if f < n {
        f
    } else {
        n - 1
    }
}

fn clamp_next(f: usize, n: usize) -> (r: usize)
    ensures
        r == clamp_index(f + 1, n as nat),
{
    if n == 0 {
        0
    } else if f < n - 1 {
        f + 1
    } else {
        n - 1
    }
}

fn clamp_prev(f: usize, n: usize) -> (r: usize)
    ensures
        r == clamp_index(f - 1, n as nat),
{
    if n == 0 || f == 0 {
        0
    } else if f - 1 < n {
        f - 1
    } else {
        n - 1
    }
}

fn scroll_to(line_from: usize, focus: usize, rows: usize) -> (r: usize)
    ensures
        r == clamp_scroll(line_from as nat, focus as nat, rows as nat),
{
    if focus < line_from {
        focus
    } else if rows > 0 && focus - line_from >= rows {
        focus - rows + 1
    } else {
        line_from
    }
}

/// The rendered rows of the given displayed signals over the current window.
pub fn format_values(app: &TuiWave, values: &[((String, String), usize)]) -> (r: Vec<
    ((StyledString, StyledString), Vec<StyledString>),
>)
    requires
        app.store_ok(),
        app.t_from <= app.t_to <= app.t_last + 1,
        app.layout.timedelta_width >= 2,
        values@.len() == 0 || app.layout.timedelta_width * (app.t_to - app.t_from) <= usize::MAX,
        forall|k: int| 0 <= k < values@.len() ==> #[trigger] values@[k].1 < app.ts.values@.len(),
    ensures
        timelines_view(r@) == expected_rows(
            app.ts.values@,
            values@,
            app.t_from,
            app.t_to,
            app.layout.timedelta_width,
        ),
{
    let mut lines: Vec<((StyledString, StyledString), Vec<StyledString>)> = Vec::new();
    let t_to = if app.t_to < app.t_last + 1 { app.t_to } else { app.t_last + 1 };
    let mut k: usize = 0;
    while k < values.len()
        invariant
            k <= values@.len(),
            app.store_ok(),
            app.t_from <= app.t_to <= app.t_last + 1,
            t_to == app.t_to,
            lines@.len() == k,
            app.layout.timedelta_width >= 2,
            values@.len() == 0 || app.layout.timedelta_width * (app.t_to - app.t_from) <= usize::MAX,
            forall|j: int| 0 <= j < values@.len() ==> #[trigger] values@[j].1 < app.ts.values@.len(),
            timelines_view(lines@) == expected_rows(
                app.ts.values@,
                values@.take(k as int),
                app.t_from,
                app.t_to,
                app.layout.timedelta_width,
            ),
        decreases values@.len() - k,
    {
        let idx = values[k].1;
        proof {
            assert(app.ts.values@[idx as int].wf());
        }
        let line = format_time_series(
            &app.ts.values[idx],
            app.t_from,
            t_to,
            app.layout.timedelta_width,
        );
        let path = StyledString::styled(values[k].0.0.clone(), StyleTag::Path);
        let name = StyledString::styled(values[k].0.1.clone(), StyleTag::Name);
        let ghost before = lines@;
        let ghost pv = path@;
        let ghost nv = name@;
        lines.push(((path, name), line));
        proof {
            assert(pv == (values@[k as int].0.0@, StyleTag::Path));
            assert(nv == (values@[k as int].0.1@, StyleTag::Name));
            assert(timeline_view(lines@[k as int]) == expected_line(
                app.ts.values@,
                values@[k as int],
                app.t_from,
                app.t_to,
                app.layout.timedelta_width,
            ));
            assert(values@.take(k + 1) =~= values@.take(k as int).push(values@[k as int]));
            assert(lines@ =~= before.push(lines@[k as int]));
            assert(timelines_view(lines@) =~= timelines_view(before).push(
                timeline_view(lines@[k as int]),
            ));
            assert(expected_rows(
                app.ts.values@,
                values@.take(k + 1),
                app.t_from,
                app.t_to,
                app.layout.timedelta_width,
            ) =~= expected_rows(
                app.ts.values@,
                values@.take(k as int),
                app.t_from,
                app.t_to,
                app.layout.timedelta_width,
            ).push(
                expected_line(
                    app.ts.values@,
                    values@[k as int],
                    app.t_from,
                    app.t_to,
                    app.layout.timedelta_width,
                ),
            ));
        }
        k += 1;
    }
    assert(values@.take(k as int) =~= values@);
    lines
}

/// The largest last-change time over the streams.
fn last_time_of(values: &Vec<ValueChangeStream>) -> (r: u64)
    requires
        forall|i: int| 0 <= i < values@.len() ==> #[trigger] values@[i].wf(),
    ensures
        r == max_last_time(values@),
{
    let mut m: u64 = 0;
    let mut i: usize = 0;
    while i < values.len()
        invariant
            i <= values@.len(),
            forall|j: int| 0 <= j < values@.len() ==> #[trigger] values@[j].wf(),
            m == max_last_time(values@.take(i as int)),
        decreases values@.len() - i,
    {
        assert(values@.take(i + 1).drop_last() =~= values@.take(i as int));
        let t = values[i].last_change_time();
        if t > m {
            m = t;
        }
        i += 1;
    }
    assert(values@.take(i as int) =~= values@);
    m
}

impl TuiWave {
    /// A viewer over the whole trace, focused on the first signal, before
    /// the terminal size is known.
    pub fn new(ts: TimeSeries) -> (r: Self)
        requires
            ts.wf(),
            max_last_time(ts.values@) < u64::MAX,
        ensures
            r.wf(),
            r.ts == ts,
            r.t_last == max_last_time(ts.values@),
            r.t_from == 0,
            r.t_to == r.t_last + 1,
            r.line_from == 0,
            r.focus == Focus::Signal,
            r.focus_signal == 0,
            r.focus_tree == 0,
            !r.should_quit,
            !r.window_change_mode,
            r.layout.drawable_lines == 0,
            r.layout.timedelta_width == 4,
            r.layout.sidebar_width_percent == 15,
            r.layout.signame_width_percent == 15,
            r.cache.signal_timelines@.len() == 0,
    {
        let t_last = last_time_of(&ts.values);
        let layout = Layout {
            drawable_lines: 0,
            stream_width: t_last + 1,
            sidebar_width_percent: 15,
            signame_width_percent: 15,
            timedelta_width: 4,
            current_width: 0,
            current_height: 0,
        };
        let cache = UICache::new(&ts);
        proof {
            lemma_outline_len(ts.scope@);
        }
        let r = Self {
            ts,
            cache,
            t_from: 0,
            t_to: t_last + 1,
            t_last,
            line_from: 0,
            layout,
            should_quit: false,
            window_change_mode: false,
            focus: Focus::Signal,
            focus_signal: 0,
            focus_tree: 0,
        };
        assert(timelines_view(r.cache.signal_timelines@) =~= r.expected_timelines());
        r
    }

    /// Fits the window's end to the waveform pane width and the zoom.
    fn setup_drawable_time_range(&mut self)
        requires
            old(self).layout.sidebar_width_percent <= 100,
            old(self).layout.signame_width_percent <= 100,
            old(self).layout.timedelta_width >= 2,
            old(self).t_from <= old(self).t_last + 1,
            old(self).t_last < u64::MAX,
        ensures
            final(self).layout.stream_width == pane_width(
                old(self).layout.current_width,
                old(self).layout.sidebar_width_percent,
                old(self).layout.signame_width_percent,
            ),
            final(self).t_to == time_end(
                old(self).t_from,
                old(self).layout.timedelta_width,
                final(self).layout.stream_width as nat,
                old(self).t_last,
            ),
            final(self).t_from <= final(self).t_to <= final(self).t_last + 1,
            final(self).layout.timedelta_width * (final(self).t_to - final(self).t_from)
                <= usize::MAX,
            final(self).layout.stream_width <= 65535,
            final(self).ts == old(self).ts,
            final(self).cache == old(self).cache,
            final(self).t_from == old(self).t_from,
            final(self).t_last == old(self).t_last,
            final(self).line_from == old(self).line_from,
            final(self).should_quit == old(self).should_quit,
            final(self).window_change_mode == old(self).window_change_mode,
            final(self).focus == old(self).focus,
            final(self).focus_signal == old(self).focus_signal,
            final(self).focus_tree == old(self).focus_tree,
            final(self).layout.drawable_lines == old(self).layout.drawable_lines,
            final(self).layout.timedelta_width == old(self).layout.timedelta_width,
            final(self).layout.sidebar_width_percent == old(self).layout.sidebar_width_percent,
            final(self).layout.signame_width_percent == old(self).layout.signame_width_percent,
            final(self).layout.current_width == old(self).layout.current_width,
            final(self).layout.current_height == old(self).layout.current_height,
    {
        let cw = self.layout.current_width as u64;
        let sp = 100 - self.layout.sidebar_width_percent as u64;
        let sn = 100 - self.layout.signame_width_percent as u64;
        assert(cw * sp <= 65535 * 100) by (nonlinear_arith)
            requires
                cw <= 65535,
                sp <= 100,
        ;
        let main_pane = cw * sp / 100;
        assert(main_pane * sn <= 65535 * 100) by (nonlinear_arith)
            requires
                main_pane <= 65535,
                sn <= 100,
        ;
        self.layout.stream_width = main_pane * sn / 100;
        let tw = self.layout.timedelta_width;
        let time_range = self.layout.stream_width / tw;
        let end = self.t_last + 1;
        if time_range < end - self.t_from {
            self.t_to = self.t_from + time_range;
        } else {
            self.t_to = end;
        }
        let pane = self.layout.stream_width;
        let d = self.t_to - self.t_from;
        assert(tw * d <= pane) by (nonlinear_arith)
            requires
                d <= time_range,
                time_range == pane / tw,
                tw >= 2,
        ;
    }

    /// Flips the node at the focused row of the outline.
    fn flip_scope_tree(&mut self)
        requires
            old(self).focus_tree < rows(old(self).ts.scope@),
        ensures
            final(self).ts.scope@ == toggle_scope(old(self).ts.scope@, old(self).focus_tree as int),
            final(self).ts.values == old(self).ts.values,
            final(self).ts.time_scale == old(self).ts.time_scale,
            final(self).cache == old(self).cache,
            final(self).t_from == old(self).t_from,
            final(self).t_to == old(self).t_to,
            final(self).t_last == old(self).t_last,
            final(self).line_from == old(self).line_from,
            final(self).layout == old(self).layout,
            final(self).should_quit == old(self).should_quit,
            final(self).window_change_mode == old(self).window_change_mode,
            final(self).focus == old(self).focus,
            final(self).focus_signal == old(self).focus_signal,
            final(self).focus_tree == old(self).focus_tree,
    {
        let mut idx: usize = 0;
        let _done = flip_scope_tree_impl(&mut self.ts.scope, &mut idx, self.focus_tree);
    }

    /// Applies one key press: pan, zoom, jump, move the focus, switch pane,
    /// flip the focused tree node, or quit; then renders the rows in view.
    pub fn key_press(&mut self, key: Key, ctrl: bool)
        requires
            old(self).wf(),
        ensures
            final(self).wf(),
            final(self).focus_in_view(),
            final(self).control() == next(*old(self), key, ctrl),
            final(self).ts.values == old(self).ts.values,
            final(self).ts.time_scale == old(self).ts.time_scale,
            final(self).t_last == old(self).t_last,
            final(self).layout.drawable_lines == old(self).layout.drawable_lines,
            final(self).layout.current_width == old(self).layout.current_width,
            final(self).layout.current_height == old(self).layout.current_height,
            final(self).layout.sidebar_width_percent == old(self).layout.sidebar_width_percent,
            final(self).layout.signame_width_percent == old(self).layout.signame_width_percent,
    {
        let ghost c = old(self).control();
        let is_right = key == Key::Char('l') || key == Key::Right;
        let is_left = key == Key::Char('h') || key == Key::Left;
        let is_down = key == Key::Char('j') || key == Key::Down;
        let is_up = key == Key::Char('k') || key == Key::Up;
        if self.window_change_mode {
            if is_right {
                self.focus = Focus::Signal;
            } else if is_left {
                self.focus = Focus::Tree;
            }
            self.window_change_mode = false;
        } else if key == Key::Char('q') {
            self.should_quit = true;
        } else if is_right {
            if self.focus == Focus::Signal && self.t_to <= self.t_last {
                self.t_from = self.t_from + 1;
                self.t_to = self.t_to + 1;
            }
        } else if is_left {
            if self.focus == Focus::Signal && self.t_from != 0 {
                self.t_from = self.t_from - 1;
                self.t_to = self.t_to - 1;
            }
        } else if is_down {
            if self.focus == Focus::Signal {
                self.focus_signal = clamp_next(self.focus_signal, self.cache.selected_values.len());
                self.line_from = scroll_to(self.line_from, self.focus_signal, self.layout.drawable_lines);
            } else {
                self.focus_tree = clamp_next(self.focus_tree, self.cache.scope_tree_lines.len());
            }
        } else if is_up {
            if self.focus == Focus::Signal {
                self.focus_signal = clamp_prev(self.focus_signal, self.cache.selected_values.len());
                self.line_from = scroll_to(self.line_from, self.focus_signal, self.layout.drawable_lines);
            } else {
                self.focus_tree = clamp_prev(self.focus_tree, self.cache.scope_tree_lines.len());
            }
        } else if key == Key::Char('-') || key == Key::Char('+') {
            let tw = self.layout.timedelta_width;
            self.layout.timedelta_width = if key == Key::Char('-') {
                if tw - 1 < 2 { 2 } else { tw - 1 }
            } else {
                tw.saturating_add(1)
            };
            self.setup_drawable_time_range();
        } else if key == Key::Char('0') {
            let dt = self.t_to - self.t_from;
            self.t_to = dt;
            self.t_from = 0;
        } else if key == Key::Char('$') {
            let dt = self.t_to - self.t_from;
            self.t_to = self.t_last;
            self.t_from = self.t_last.saturating_sub(dt);
        } else if ctrl && key == Key::Char('w') {
            self.window_change_mode = true;
        } else if key == Key::Enter && self.focus == Focus::Tree {
            proof {
                lemma_outline_len(self.ts.scope@);
            }
            self.flip_scope_tree();
            proof {
                lemma_toggle_scope_below(old(self).ts.scope@, old(self).focus_tree as int, self.ts.values@.len());
                lemma_outline_len(self.ts.scope@);
            }
            self.cache.update_selection(&self.ts);
            self.focus_signal = clamp_at(self.focus_signal, self.cache.selected_values.len());
            self.focus_tree = clamp_at(self.focus_tree, self.cache.scope_tree_lines.len());
            self.line_from = scroll_to(self.line_from, self.focus_signal, self.layout.drawable_lines);
        }
        proof {
            let tw = self.layout.timedelta_width;
            let d = self.t_to - self.t_from;
            let d0 = old(self).t_to - old(self).t_from;
            if tw == old(self).layout.timedelta_width && d <= d0 {
                assert(tw * d <= tw * d0) by (nonlinear_arith)
                    requires
                        d <= d0,
                        0 <= d,
                ;
            }
        }
        self.render_waveform();
    }

    /// Takes a new terminal size: recomputes the rows that fit, keeps the
    /// focused signal in view by the least scroll, refits the window's end,
    /// and renders.
    pub fn resize(&mut self, w: u16, h: u16)
        requires
            old(self).wf(),
        ensures
            final(self).wf(),
            final(self).focus_in_view(),
            final(self).layout.current_width == w,
            final(self).layout.current_height == h,
            final(self).layout.drawable_lines == drawable_for(h),
            final(self).control() == (ControlState {
                line_from: clamp_scroll(
                    old(self).line_from as nat,
                    old(self).focus_signal as nat,
                    drawable_for(h),
                ),
                stream_width: pane_width(
                    w,
                    old(self).layout.sidebar_width_percent,
                    old(self).layout.signame_width_percent,
                ) as u64,
                t_to: time_end(
                    old(self).t_from,
                    old(self).layout.timedelta_width,
                    pane_width(
                        w,
                        old(self).layout.sidebar_width_percent,
                        old(self).layout.signame_width_percent,
                    ),
                    old(self).t_last,
                ),
                ..old(self).control()
            }),
            final(self).ts.values == old(self).ts.values,
            final(self).ts.time_scale == old(self).ts.time_scale,
            final(self).t_last == old(self).t_last,
    {
        self.layout.resize(w, h);
        self.line_from = scroll_to(self.line_from, self.focus_signal, self.layout.drawable_lines);
        self.setup_drawable_time_range();
        self.render_waveform();
    }

    /// Takes the terminal size at start-up.
    pub fn setup_with_terminal_size(&mut self, w: u16, h: u16)
        requires
            old(self).wf(),
        ensures
            final(self).wf(),
            final(self).layout.drawable_lines == drawable_for(h),
            final(self).layout.stream_width == pane_width(
                w,
                old(self).layout.sidebar_width_percent,
                old(self).layout.signame_width_percent,
            ) as u64,
            final(self).t_to == time_end(
                old(self).t_from,
                old(self).layout.timedelta_width,
                pane_width(
                    w,
                    old(self).layout.sidebar_width_percent,
                    old(self).layout.signame_width_percent,
                ),
                old(self).t_last,
            ),
    {
        self.resize(w, h);
    }

    /// The frame of rendered row `idx` of `n` rows in view.
    pub fn row_frame(&self, idx: usize, n: usize) -> (r: RowFrame)
        requires
            idx < n,
            self.line_from <= self.focus_signal,
        ensures
            r.first == (idx == 0),
            r.last == (idx + 1 == n),
            r.focused == (self.focus == Focus::Signal && idx == self.focus_signal - self.line_from),
            r.next_focused == (self.focus == Focus::Signal && idx + 1 < n && idx + 1
                == self.focus_signal - self.line_from),
    {
        let relative_focus = self.focus_signal - self.line_from;
        let last = idx + 1 == n;
        RowFrame {
            first: idx == 0,
            last,
            focused: self.focus == Focus::Signal && idx == relative_focus,
            next_focused: self.focus == Focus::Signal && !last && idx + 1 == relative_focus,
        }
    }

    /// The highlight of row `i` of the tree outline.
    pub fn tree_row_style(&self, i: usize) -> (r: TreeRowStyle)
        ensures
            i != self.focus_tree ==> r == TreeRowStyle::Plain,
            i == self.focus_tree && self.focus == Focus::Tree ==> r == TreeRowStyle::Active,
            i == self.focus_tree && self.focus == Focus::Signal ==> r == TreeRowStyle::Marked,
    {
        if i != self.focus_tree {
            TreeRowStyle::Plain
        } else if self.focus == Focus::Tree {
            TreeRowStyle::Active
        } else {
            TreeRowStyle::Marked
        }
    }

    /// Renders the rows of the signals in view.
    fn render_waveform(&mut self)
        requires
            old(self).wf_unrendered(),
        ensures
            final(self).wf(),
            final(self).ts == old(self).ts,
            final(self).cache.selected_values == old(self).cache.selected_values,
            final(self).cache.scope_tree_lines == old(self).cache.scope_tree_lines,
            final(self).control() == old(self).control(),
            final(self).t_last == old(self).t_last,
            final(self).layout == old(self).layout,
    {
        let n = self.cache.selected_values.len();
        let line_to = if self.layout.drawable_lines >= n - self.line_from {
            n
        } else {
            self.line_from + self.layout.drawable_lines
        };
        proof {
            lemma_flattened_below(self.ts.scope@, self.ts.values@.len());
            assert(forall|j: int|
                0 <= j < n ==> #[trigger] self.cache.selected_values@[j].1 == flattened(
                    self.ts.scope@,
                )[j].1);
        }
        let slice = &self.cache.selected_values.as_slice()[self.line_from..line_to];
        let lines = format_values(self, slice);
        self.cache.signal_timelines = lines;
    }
}

} // verus!
