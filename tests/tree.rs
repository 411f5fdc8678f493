use tuiwave::controller::{Key, TuiWave};
use tuiwave::ingest::{make_value_tree, Declaration};
use tuiwave::selection::{draw_scope_tree, list_values, UICache};
use tuiwave::timeseries::{Bits, Sample, Scope, ScopeItem, ScopeValue, TimeSeries, ValueChangeStream as S};

fn var(name: &str, code: u32) -> Declaration {
    Declaration::Var { name: name.to_string(), var_type: vcd::VarType::Wire, code: vcd::IdCode::from(code) }
}

fn scope(name: &str, items: Vec<Declaration>) -> Declaration {
    Declaration::Scope { name: name.to_string(), items }
}

fn sample_trace() -> TimeSeries {
    let decls = vec![
        var("rst", 10),
        scope("cpu", vec![var("pc", 11), var("acc", 12)]),
        var("clk", 13),
        scope("alu", vec![var("out", 14)]),
    ];
    let (mut ts, _) = make_value_tree(&decls);
    for i in 0..5 {
        ts.append(i, 0, Sample::Bits(Bits::B(false))).unwrap();
        ts.append(i, 3, Sample::Bits(Bits::B(true))).unwrap();
    }
    ts
}

fn entry(path: &str, name: &str, index: usize) -> ((String, String), usize) {
    ((path.to_string(), name.to_string()), index)
}

fn lines(v: &[&str]) -> Vec<String> {
    v.iter().map(|s| s.to_string()).collect()
}

#[test]
fn declarations_build_a_sorted_tree() {
    let decls = vec![
        var("rst", 10),
        scope("cpu", vec![var("pc", 11), var("acc", 12)]),
        var("clk", 13),
        scope("alu", vec![var("out", 14)]),
    ];
    let (ts, codes) = make_value_tree(&decls);
    assert_eq!(ts.scope.name, "top");
    assert_eq!(ts.values.len(), 5);
    let expected: Vec<(vcd::IdCode, usize)> = vec![
        (vcd::IdCode::from(10u32), 0),
        (vcd::IdCode::from(13u32), 1),
        (vcd::IdCode::from(11u32), 2),
        (vcd::IdCode::from(12u32), 3),
        (vcd::IdCode::from(14u32), 4),
    ];
    assert_eq!(codes, expected);
    let names: Vec<String> = ts
        .scope
        .items
        .iter()
        .map(|i| match i {
            ScopeItem::Value(v) => format!("v:{}:{}", v.name, v.index),
            ScopeItem::Scope(s) => format!("s:{}", s.name),
        })
        .collect();
    assert_eq!(names, vec!["v:clk:1", "v:rst:0", "s:alu", "s:cpu"]);
}

#[test]
fn declared_variable_types_choose_stream_kinds() {
    let decls = vec![
        Declaration::Var { name: "r".to_string(), var_type: vcd::VarType::Real, code: vcd::IdCode::from(1u32) },
        Declaration::Var { name: "s".to_string(), var_type: vcd::VarType::String, code: vcd::IdCode::from(2u32) },
        Declaration::Var { name: "g".to_string(), var_type: vcd::VarType::Reg, code: vcd::IdCode::from(3u32) },
        Declaration::Var { name: "e".to_string(), var_type: vcd::VarType::Event, code: vcd::IdCode::from(4u32) },
    ];
    let (ts, _) = make_value_tree(&decls);
    assert!(matches!(ts.values[0], S::Real(_)));
    assert!(matches!(ts.values[1], S::String(_)));
    assert!(matches!(ts.values[2], S::Bits(_)));
    assert!(matches!(ts.values[3], S::Unknown));
}

#[test]
fn flattened_list_and_outline() {
    let ts = sample_trace();
    assert_eq!(
        list_values(&ts.scope),
        vec![
            entry("t.", "clk", 1),
            entry("t.", "rst", 0),
            entry("t.a.", "out", 4),
            entry("t.c.", "acc", 3),
            entry("t.c.", "pc", 2),
        ]
    );
    assert_eq!(
        draw_scope_tree(&ts.scope),
        lines(&[
            "top",
            "├╴☑ clk",
            "├╴☑ rst",
            "├╴▼ alu",
            "│ └╴☑ out",
            "└╴▼ cpu",
            "  ├╴☑ acc",
            "  └╴☑ pc",
        ])
    );
}

#[test]
fn unselected_signals_and_empty_scopes_are_skipped() {
    let mut root = Scope::new("top");
    let mut hidden = Scope::new("hid");
    let mut off = ScopeValue::new("off", 0);
    off.render = false;
    hidden.items.push(ScopeItem::Value(off));
    root.items.push(ScopeItem::Value(ScopeValue::new("on", 1)));
    root.items.push(ScopeItem::Scope(hidden));
    assert!(!root.items[1].should_be_rendered());
    assert!(root.should_be_rendered());
    assert_eq!(list_values(&root), vec![entry("t.", "on", 1)]);
    assert_eq!(draw_scope_tree(&root), lines(&["top", "├╴☑ on", "└╴▼ hid", "  └╴☐ off"]));
}

#[test]
fn rebuilding_twice_gives_the_same_views() {
    let ts = sample_trace();
    let mut cache = UICache::new(&ts);
    cache.update_selection(&ts);
    let first = (cache.selected_values.clone(), cache.scope_tree_lines.clone());
    cache.update_selection(&ts);
    assert_eq!((cache.selected_values.clone(), cache.scope_tree_lines.clone()), first);
}

fn viewer() -> TuiWave {
    let mut app = TuiWave::new(sample_trace());
    app.setup_with_terminal_size(100, 41);
    app
}

fn focus_tree_row(app: &mut TuiWave, row: usize) {
    app.key_press(Key::Char('w'), true);
    app.key_press(Key::Char('h'), false);
    for _ in 0..row {
        app.key_press(Key::Char('j'), false);
    }
    assert_eq!(app.focus_tree, row);
}

#[test]
fn toggling_a_signal_twice_restores_the_views() {
    let mut app = viewer();
    let list = app.cache.selected_values.clone();
    let outline = app.cache.scope_tree_lines.clone();
    focus_tree_row(&mut app, 2);
    app.key_press(Key::Enter, false);
    assert_eq!(app.cache.selected_values.len(), 4);
    assert_eq!(app.cache.scope_tree_lines[2], "├╴☐ rst");
    app.key_press(Key::Enter, false);
    assert_eq!(app.cache.selected_values, list);
    assert_eq!(app.cache.scope_tree_lines, outline);
}

#[test]
fn collapsed_scope_hides_its_signals_until_expanded() {
    let mut app = viewer();
    focus_tree_row(&mut app, 5);
    app.key_press(Key::Enter, false);
    assert_eq!(app.cache.scope_tree_lines.len(), 6);
    assert_eq!(app.cache.scope_tree_lines[5], "└╴▶ cpu");
    assert_eq!(
        app.cache.selected_values,
        vec![entry("t.", "clk", 1), entry("t.", "rst", 0), entry("t.a.", "out", 4)]
    );
    app.key_press(Key::Enter, false);
    assert_eq!(app.cache.scope_tree_lines.len(), 8);
    assert_eq!(app.cache.selected_values.len(), 5);
    assert_eq!(app.cache.selected_values[3], entry("t.c.", "acc", 3));
    assert_eq!(app.cache.selected_values[4], entry("t.c.", "pc", 2));
}

#[test]
fn collapsed_scope_with_two_selected_signals() {
    let mut root = Scope::new("top");
    let mut sub = Scope::new("blk");
    sub.items.push(ScopeItem::Value(ScopeValue::new("a", 0)));
    sub.items.push(ScopeItem::Value(ScopeValue::new("b", 1)));
    sub.open = false;
    root.items.push(ScopeItem::Scope(sub));
    assert!(list_values(&root).is_empty());
    assert_eq!(draw_scope_tree(&root), lines(&["top", "└╴▶ blk"]));
    if let ScopeItem::Scope(s) = &mut root.items[0] {
        s.open = true;
    }
    assert_eq!(list_values(&root), vec![entry("t.b.", "a", 0), entry("t.b.", "b", 1)]);
}

#[test]
fn deselecting_every_signal_of_a_scope_drops_it_from_the_list() {
    let mut app = viewer();
    focus_tree_row(&mut app, 4);
    app.key_press(Key::Enter, false);
    assert_eq!(
        app.cache.selected_values,
        vec![entry("t.", "clk", 1), entry("t.", "rst", 0), entry("t.c.", "acc", 3), entry("t.c.", "pc", 2)]
    );
}
