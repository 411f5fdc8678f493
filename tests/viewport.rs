use tuiwave::controller::{Focus, Key, Layout, TreeRowStyle, TuiWave};
use tuiwave::render::StyleTag;
use tuiwave::timeseries::{
    Bits, Scope, ScopeItem, ScopeValue, TimeSeries, ValueChange, ValueChangeStream, ValueChangeStreamImpl,
};

/// A flat trace of `n` signals, each toggling at every multiple of `step`
/// up to `last`.
fn flat_trace(n: usize, step: u64, last: u64) -> TimeSeries {
    let mut ts = TimeSeries::new();
    for i in 0..n {
        let mut s = ValueChangeStreamImpl::new();
        let mut t = 0;
        while t <= last {
            s.stream.push(ValueChange::new(t, Bits::B((t / step) % 2 == 1)));
            t += step;
        }
        ts.values.push(ValueChangeStream::Bits(s));
        ts.scope.items.push(ScopeItem::Value(ScopeValue::new(&format!("s{:02}", i), i)));
    }
    ts
}

fn check_focus(app: &TuiWave) {
    let n = app.cache.selected_values.len();
    let rows = app.layout.drawable_lines;
    if n > 0 {
        assert!(app.focus_signal < n);
        assert!(app.line_from <= app.focus_signal);
        if rows > 0 {
            assert!(app.focus_signal < app.line_from + rows);
        }
    } else {
        assert_eq!(app.focus_signal, 0);
    }
    assert!(app.focus_tree < app.cache.scope_tree_lines.len());
    assert!(app.t_from <= app.t_to && app.t_to <= app.t_last + 1);
    let shown = std::cmp::min(rows, n - app.line_from);
    assert_eq!(app.cache.signal_timelines.len(), shown);
}

#[test]
fn layout_rows_for_terminal_heights() {
    let mut l = Layout {
        drawable_lines: 0,
        stream_width: 0,
        sidebar_width_percent: 15,
        signame_width_percent: 15,
        timedelta_width: 4,
        current_width: 0,
        current_height: 0,
    };
    l.resize(80, 41);
    assert_eq!(l.drawable_lines, 20);
    l.resize(80, 40);
    assert_eq!(l.drawable_lines, 19);
    l.resize(80, 1);
    assert_eq!(l.drawable_lines, 0);
    l.resize(80, 0);
    assert_eq!(l.drawable_lines, 0);
    assert_eq!((l.current_width, l.current_height), (80, 0));
}

#[test]
fn new_viewer_shows_the_whole_trace() {
    let app = TuiWave::new(flat_trace(3, 2, 9));
    assert_eq!(app.t_last, 8);
    assert_eq!((app.t_from, app.t_to), (0, 9));
    assert_eq!(app.focus, Focus::Signal);
    assert_eq!(app.cache.selected_values.len(), 3);
    assert!(app.cache.signal_timelines.is_empty());
}

#[test]
fn sizing_fits_the_window_to_the_pane() {
    let mut app = TuiWave::new(flat_trace(3, 5, 500));
    app.setup_with_terminal_size(200, 21);
    // 200 * 85 / 100 = 170 cells of main pane, 170 * 85 / 100 = 144 of waveform
    assert_eq!(app.layout.stream_width, 144);
    assert_eq!((app.t_from, app.t_to), (0, 36));
    assert_eq!(app.layout.drawable_lines, 10);
    assert_eq!(app.cache.signal_timelines.len(), 3);
    let ((path, name), segs) = &app.cache.signal_timelines[0];
    assert_eq!((path.string.as_str(), path.style), ("t.", StyleTag::Path));
    assert_eq!((name.string.as_str(), name.style), ("s00", StyleTag::Name));
    let w: usize = segs.iter().map(|s| s.string.chars().count()).sum();
    assert_eq!(w, 4 * 36);
    check_focus(&app);
}

#[test]
fn moving_up_at_the_top_stays_at_the_top() {
    let mut app = TuiWave::new(flat_trace(4, 1, 4));
    app.setup_with_terminal_size(100, 41);
    assert_eq!((app.focus_signal, app.line_from), (0, 0));
    app.key_press(Key::Up, false);
    assert_eq!((app.focus_signal, app.line_from), (0, 0));
    app.key_press(Key::Char('k'), false);
    assert_eq!((app.focus_signal, app.line_from), (0, 0));
}

#[test]
fn moving_down_stops_at_the_last_signal_and_scrolls() {
    let mut app = TuiWave::new(flat_trace(8, 1, 4));
    app.setup_with_terminal_size(100, 7);
    assert_eq!(app.layout.drawable_lines, 3);
    for _ in 0..20 {
        app.key_press(Key::Down, false);
        check_focus(&app);
    }
    assert_eq!(app.focus_signal, 7);
    assert_eq!(app.line_from, 5);
    app.key_press(Key::Up, false);
    app.key_press(Key::Up, false);
    app.key_press(Key::Up, false);
    assert_eq!((app.focus_signal, app.line_from), (4, 4));
}

#[test]
fn shrinking_scrolls_by_exactly_the_deficit() {
    let mut app = TuiWave::new(flat_trace(20, 1, 4));
    app.setup_with_terminal_size(100, 41);
    for _ in 0..15 {
        app.key_press(Key::Char('j'), false);
    }
    assert_eq!((app.focus_signal, app.line_from), (15, 0));
    app.resize(100, 11);
    assert_eq!(app.layout.drawable_lines, 5);
    assert_eq!(app.line_from, 11);
    assert_eq!(app.focus_signal, app.line_from + app.layout.drawable_lines - 1);
    check_focus(&app);
}

#[test]
fn focus_invariant_over_a_key_sequence() {
    let mut app = TuiWave::new(flat_trace(12, 3, 60));
    app.setup_with_terminal_size(120, 13);
    let keys = [
        Key::Down, Key::Down, Key::Char('l'), Key::Char('+'), Key::Down, Key::Down, Key::Down,
        Key::Down, Key::Down, Key::Down, Key::Char('-'), Key::Char('-'), Key::Up, Key::Char('$'),
        Key::Char('h'), Key::Char('0'), Key::Down, Key::Down, Key::Down, Key::Right, Key::Left,
        Key::Enter, Key::Other, Key::Char('x'),
    ];
    for k in keys.iter() {
        app.key_press(*k, false);
        check_focus(&app);
    }
    app.resize(120, 5);
    check_focus(&app);
    app.resize(120, 0);
    check_focus(&app);
    app.resize(120, 30);
    check_focus(&app);
}

#[test]
fn panning_keeps_the_window_inside_the_trace() {
    let mut app = TuiWave::new(flat_trace(2, 1, 20));
    app.setup_with_terminal_size(60, 21);
    // 60 * 85 / 100 = 51, 51 * 85 / 100 = 43 cells, 43 / 4 = 10 ticks
    assert_eq!((app.t_from, app.t_to), (0, 10));
    app.key_press(Key::Char('h'), false);
    assert_eq!((app.t_from, app.t_to), (0, 10));
    app.key_press(Key::Char('l'), false);
    assert_eq!((app.t_from, app.t_to), (1, 11));
    for _ in 0..30 {
        app.key_press(Key::Right, false);
    }
    assert_eq!((app.t_from, app.t_to), (11, 21));
    app.key_press(Key::Left, false);
    assert_eq!((app.t_from, app.t_to), (10, 20));
}

#[test]
fn jumps_keep_the_window_width() {
    let mut app = TuiWave::new(flat_trace(2, 1, 20));
    app.setup_with_terminal_size(60, 21);
    app.key_press(Key::Char('l'), false);
    app.key_press(Key::Char('l'), false);
    app.key_press(Key::Char('$'), false);
    assert_eq!((app.t_from, app.t_to), (10, 20));
    app.key_press(Key::Char('0'), false);
    assert_eq!((app.t_from, app.t_to), (0, 10));
}

#[test]
fn zoom_has_a_floor_of_two_cells() {
    let mut app = TuiWave::new(flat_trace(2, 1, 100));
    app.setup_with_terminal_size(60, 21);
    app.key_press(Key::Char('-'), false);
    assert_eq!(app.layout.timedelta_width, 3);
    assert_eq!(app.t_to, 14);
    app.key_press(Key::Char('-'), false);
    app.key_press(Key::Char('-'), false);
    assert_eq!(app.layout.timedelta_width, 2);
    assert_eq!(app.t_to, 21);
    app.key_press(Key::Char('+'), false);
    assert_eq!(app.layout.timedelta_width, 3);
}

#[test]
fn window_chord_switches_panes() {
    let mut app = TuiWave::new(flat_trace(2, 1, 5));
    app.setup_with_terminal_size(60, 21);
    app.key_press(Key::Char('w'), true);
    assert!(app.window_change_mode);
    app.key_press(Key::Left, false);
    assert_eq!(app.focus, Focus::Tree);
    assert!(!app.window_change_mode);
    app.key_press(Key::Char('j'), false);
    assert_eq!(app.focus_tree, 1);
    app.key_press(Key::Char('w'), true);
    app.key_press(Key::Char('q'), false);
    assert!(!app.should_quit);
    assert!(!app.window_change_mode);
    assert_eq!(app.focus, Focus::Tree);
    app.key_press(Key::Char('w'), true);
    app.key_press(Key::Char('l'), false);
    assert_eq!(app.focus, Focus::Signal);
    app.key_press(Key::Char('w'), false);
    assert!(!app.window_change_mode);
    app.key_press(Key::Char('q'), false);
    assert!(app.should_quit);
}

#[test]
fn tree_focus_does_not_pan() {
    let mut app = TuiWave::new(flat_trace(2, 1, 40));
    app.setup_with_terminal_size(60, 21);
    app.key_press(Key::Char('w'), true);
    app.key_press(Key::Char('h'), false);
    app.key_press(Key::Char('l'), false);
    assert_eq!((app.t_from, app.t_to), (0, 10));
}

#[test]
fn empty_selection_keeps_focus_at_zero() {
    let mut ts = TimeSeries::new();
    ts.scope = Scope::new("root");
    let mut app = TuiWave::new(ts);
    app.setup_with_terminal_size(80, 24);
    app.key_press(Key::Down, false);
    app.key_press(Key::Up, false);
    assert_eq!((app.focus_signal, app.line_from), (0, 0));
    assert!(app.cache.signal_timelines.is_empty());
    assert_eq!(app.cache.scope_tree_lines, vec!["root".to_string()]);
}

fn ruler_of(t_from: u64, t_to: u64, tw: u64) -> (String, String) {
    let mut app = TuiWave::new(flat_trace(1, 1, 1000));
    app.t_from = t_from;
    app.t_to = t_to;
    app.layout.timedelta_width = tw;
    let (labels, marks) = tuiwave::ruler::make_ruler(&app);
    assert_eq!(labels.style, StyleTag::Plain);
    (labels.string, marks.string)
}

#[test]
fn ruler_marks_and_labels() {
    let (labels, marks) = ruler_of(0, 10, 2);
    assert_eq!(labels, format!("{}10{}20", " ".repeat(18), " ".repeat(18)));
    let tick = "─┬";
    let decade = format!("{}─╥", tick.repeat(9));
    assert_eq!(marks, format!("{}{}{}", decade, decade, decade));
    let (labels, marks) = ruler_of(7, 9, 3);
    assert_eq!(labels, format!("{}10", " ".repeat(7)));
    assert_eq!(marks, format!("{}──╥{}", "──┬".repeat(2), format!("{}──╥", "──┬".repeat(9))));
}

#[test]
fn ruler_label_cut_to_its_field() {
    let (labels, _) = ruler_of(99, 99, 2);
    assert_eq!(labels, "10");
    let tick = tuiwave::ruler::make_tick(&TuiWave::new(flat_trace(1, 1, 3)), "╥");
    assert_eq!(tick, "───╥");
}

#[test]
fn row_frames_follow_the_focus() {
    let mut app = TuiWave::new(flat_trace(6, 1, 4));
    app.setup_with_terminal_size(100, 9);
    assert_eq!(app.layout.drawable_lines, 4);
    app.key_press(Key::Down, false);
    let n = app.cache.signal_timelines.len();
    assert_eq!(n, 4);
    let f0 = app.row_frame(0, n);
    assert!(f0.first && !f0.last && !f0.focused && f0.next_focused);
    let f1 = app.row_frame(1, n);
    assert!(!f1.first && f1.focused && !f1.next_focused);
    let f3 = app.row_frame(3, n);
    assert!(f3.last && !f3.focused);
    assert_eq!(app.tree_row_style(0), TreeRowStyle::Marked);
    assert_eq!(app.tree_row_style(1), TreeRowStyle::Plain);
    app.key_press(Key::Char('w'), true);
    app.key_press(Key::Char('h'), false);
    assert_eq!(app.tree_row_style(0), TreeRowStyle::Active);
    assert!(!app.row_frame(1, n).focused);
}

#[test]
fn streams_of_other_kinds_render_as_high_impedance() {
    let mut ts = flat_trace(1, 1, 3);
    let mut real = ValueChangeStreamImpl::new();
    real.stream.push(ValueChange::new(1, 2.5f64.to_bits()));
    ts.values.push(ValueChangeStream::Real(real));
    ts.values.push(ValueChangeStream::Unknown);
    ts.scope.items.push(ScopeItem::Value(ScopeValue::new("r", 1)));
    ts.scope.items.push(ScopeItem::Value(ScopeValue::new("u", 2)));
    let mut app = TuiWave::new(ts);
    app.setup_with_terminal_size(60, 21);
    assert_eq!((app.t_from, app.t_to), (0, 4));
    assert_eq!(app.cache.signal_timelines.len(), 3);
    for row in 1..3 {
        let segs = &app.cache.signal_timelines[row].1;
        assert_eq!(segs.len(), 1);
        assert_eq!(segs[0].string, format!("{}Z{}", " ".repeat(7), " ".repeat(8)));
        assert_eq!(segs[0].style, StyleTag::Alarm);
    }
}
