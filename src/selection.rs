//! Views derived from the scope tree: the flattened list of displayed
//! signals and the printable outline of the tree.

use vstd::prelude::*;
use vstd::string::*;
use crate::render::{Segment, StyledString, segments_view};
use crate::text::push_char;
use crate::timeseries::{
    ItemView, Scope, ScopeItem, ScopeView, SignalView, TimeSeries, item_view, items_below, items_view,
    lemma_items_view, scope_rendered, signals_below,
};

verus! {

/// A displayed signal: (scope path, signal name) and the index of its stream.
pub type Entry = ((Seq<char>, Seq<char>), usize);

pub open spec fn entry_view(e: ((String, String), usize)) -> Entry {
    ((e.0.0@, e.0.1@), e.1)
}

pub open spec fn entries_view(v: Seq<((String, String), usize)>) -> Seq<Entry> {
    v.map_values(|e: ((String, String), usize)| entry_view(e))
}

pub open spec fn lines_view(v: Seq<String>) -> Seq<Seq<char>> {
    v.map_values(|s: String| s@)
}

/// The first character of a name, as a path component.
pub open spec fn initial(name: Seq<char>) -> Seq<char> {
    if name.len() > 0 {
        name.take(1)
    } else {
        Seq::empty()
    }
}

/// The displayed signals among the direct items.
pub open spec fn value_entries(items: Seq<ItemView>, path: Seq<char>) -> Seq<Entry>
    decreases items.len(),
{
    if items.len() == 0 {
        Seq::empty()
    } else {
        value_entries(items.drop_last(), path) + match items.last() {
            ItemView::Value(v) => if v.render {
                seq![((path.push('.'), v.name), v.index)]
            } else {
                Seq::empty()
            },
            ItemView::Scope(_) => Seq::empty(),
        }
    }
}

/// The displayed signals below the expanded, rendered subscopes among the
/// items: a collapsed scope hides its signals.
pub open spec fn scope_entries(items: Seq<ItemView>, path: Seq<char>) -> Seq<Entry>
    decreases items, 0nat,
{
    if items.len() == 0 {
        Seq::empty()
    } else {
        scope_entries(items.drop_last(), path) + match items.last() {
            ItemView::Scope(sub) => if sub.open && scope_rendered(sub) {
                flattened_scope(sub, path.push('.') + initial(sub.name))
            } else {
                Seq::empty()
            },
            ItemView::Value(_) => Seq::empty(),
        }
    }
}

/// The displayed signals of a scope whose path is `path`: its own first,
/// then those of its expanded, rendered subscopes, depth first.
pub open spec fn flattened_scope(s: ScopeView, path: Seq<char>) -> Seq<Entry>
    decreases s, 1nat,
{
    value_entries(s.items, path) + scope_entries(s.items, path)
}

/// The flattened list of displayed signals of a tree.
pub open spec fn flattened(root: ScopeView) -> Seq<Entry> {
    flattened_scope(root, initial(root.name))
}

pub open spec fn count_values(items: Seq<ItemView>) -> nat
    decreases items.len(),
{
    if items.len() == 0 {
        0
    } else {
        count_values(items.drop_last()) + if items.last() is Value { 1nat } else { 0nat }
    }
}

pub open spec fn count_scopes(items: Seq<ItemView>) -> nat
    decreases items.len(),
{
    if items.len() == 0 {
        0
    } else {
        count_scopes(items.drop_last()) + if items.last() is Scope { 1nat } else { 0nat }
    }
}

pub const TEE: char = '\u{251c}';
pub const ELBOW: char = '\u{2514}';
pub const PIPE: char = '\u{2502}';
pub const STUB: char = '\u{2574}';
pub const CHECKED: char = '\u{2611}';
pub const UNCHECKED: char = '\u{2610}';
pub const OPENED: char = '\u{25bc}';
pub const CLOSED: char = '\u{25b6}';

/// One outline row: indentation, connector, glyph and name.
pub open spec fn outline_line(indent: Seq<char>, last: bool, icon: char, name: Seq<char>) -> Seq<
    char,
> {
    indent + seq![if last { ELBOW } else { TEE }, STUB, icon, ' '] + name
}

/// Rows of the signals among the items of a scope that holds `nv` signals
/// and `ns` subscopes.
pub open spec fn value_lines(items: Seq<ItemView>, indent: Seq<char>, nv: nat, ns: nat) -> Seq<
    Seq<char>,
>
    decreases items.len(),
{
    if items.len() == 0 {
        Seq::empty()
    } else {
        value_lines(items.drop_last(), indent, nv, ns) + match items.last() {
            ItemView::Value(v) => seq![
                outline_line(
                    indent,
                    ns == 0 && count_values(items) == nv,
                    if v.render { CHECKED } else { UNCHECKED },
                    v.name,
                ),
            ],
            ItemView::Scope(_) => Seq::empty(),
        }
    }
}

/// Rows of the subscopes among the items of a scope that holds `ns`
/// subscopes, each followed by its own rows.
pub open spec fn scope_lines(items: Seq<ItemView>, indent: Seq<char>, ns: nat) -> Seq<Seq<char>>
    decreases items, 0nat,
{
    if items.len() == 0 {
        Seq::empty()
    } else {
        scope_lines(items.drop_last(), indent, ns) + match items.last() {
            ItemView::Scope(sub) => {
                let last = count_scopes(items) == ns;
                seq![outline_line(indent, last, if sub.open { OPENED } else { CLOSED }, sub.name)]
                    + outline_body(sub, indent + if last { seq![' ', ' '] } else { seq![PIPE, ' '] })
            },
            ItemView::Value(_) => Seq::empty(),
        }
    }
}

/// Rows below the header of a scope: none when it is closed.
pub open spec fn outline_body(s: ScopeView, indent: Seq<char>) -> Seq<Seq<char>>
    decreases s, 1nat,
{
    if !s.open {
        Seq::empty()
    } else {
        value_lines(s.items, indent, count_values(s.items), count_scopes(s.items)) + scope_lines(
            s.items,
            indent,
            count_scopes(s.items),
        )
    }
}

/// The printable outline of a tree: the root's name, then its rows.
pub open spec fn outline(root: ScopeView) -> Seq<Seq<char>> {
    seq![root.name] + outline_body(root, Seq::empty())
}

/// Copies `s` and appends a dot.
fn path_with_dot(s: &str) -> (r: String)
    ensures
        r@ == s@.push('.'),
{
    let mut p = s.to_string();
    push_char(&mut p, '.');
    p
}

/// Appends the dotted path of the displayed signals of `s` to `vs`.
fn list_values_impl(s: &Scope, path: &str, vs: &mut Vec<((String, String), usize)>)
    ensures
        entries_view(final(vs)@) == entries_view(old(vs)@) + flattened_scope(s@, path@),
    decreases s,
{
    let ghost iv = items_view(s.items@);
    proof {
        lemma_items_view(s.items@);
    }
    let n = s.items.len();
    let mut i: usize = 0;
    while i < n
        invariant
            n == s.items@.len(),
            i <= n,
            iv == items_view(s.items@),
            iv.len() == n,
            forall|j: int| 0 <= j < n ==> #[trigger] iv[j] == item_view(s.items@[j]),
            entries_view(vs@) == entries_view(old(vs)@) + value_entries(iv.take(i as int), path@),
        decreases n - i,
    {
        assert(iv.take(i + 1).drop_last() =~= iv.take(i as int));
        let ghost before = vs@;
        if let ScopeItem::Value(v) = &s.items[i] {
            if v.should_be_rendered() {
                let p = path_with_dot(path);
                vs.push(((p, v.name.clone()), v.index));
                assert(entries_view(vs@) =~= entries_view(before) + seq![
                    ((path@.push('.'), v.name@), v.index),
                ]);
            }
        }
        i += 1;
    }
    assert(iv.take(n as int) =~= iv);
    let mut i: usize = 0;
    while i < n
        invariant
            n == s.items@.len(),
            i <= n,
            iv == items_view(s.items@),
            iv.len() == n,
            forall|j: int| 0 <= j < n ==> #[trigger] iv[j] == item_view(s.items@[j]),
            entries_view(vs@) == entries_view(old(vs)@) + value_entries(iv, path@) + scope_entries(
                iv.take(i as int),
                path@,
            ),
        decreases n - i,
    {
        assert(iv.take(i + 1).drop_last() =~= iv.take(i as int));
        if let ScopeItem::Scope(subscope) = &s.items[i] {
            if subscope.open && subscope.should_be_rendered() {
                let mut p = path_with_dot(path);
                if subscope.name.as_str().unicode_len() > 0 {
                    let c = subscope.name.as_str().get_char(0);
                    push_char(&mut p, c);
                    assert(p@ =~= path@.push('.') + initial(subscope.name@));
                } else {
                    assert(p@ =~= path@.push('.') + initial(subscope.name@));
                }
                let ghost before = vs@;
                list_values_impl(subscope, p.as_str(), vs);
            }
        }
        i += 1;
    }
    assert(iv.take(n as int) =~= iv);
}

/// The flattened list of displayed signals of a tree.
pub fn list_values(root: &Scope) -> (r: Vec<((String, String), usize)>)
    ensures
        entries_view(r@) == flattened(root@),
{
    let mut vs = Vec::new();
    let mut first = String::new();
    if root.name.as_str().unicode_len() > 0 {
        push_char(&mut first, root.name.as_str().get_char(0));
    }
    assert(first@ =~= initial(root.name@));
    list_values_impl(root, first.as_str(), &mut vs);
    assert(entries_view(vs@) =~= flattened(root@));
    vs
}


/// Counts the signals and the subscopes among the items.
fn count_items(items: &Vec<ScopeItem>) -> (r: (usize, usize))
    ensures
        r.0 == count_values(items_view(items@)),
        r.1 == count_scopes(items_view(items@)),
{
    let ghost iv = items_view(items@);
    proof {
        lemma_items_view(items@);
    }
    let mut nv: usize = 0;
    let mut ns: usize = 0;
    let mut i: usize = 0;
    while i < items.len()
        invariant
            i <= items@.len(),
            iv.len() == items@.len(),
            iv == items_view(items@),
            forall|j: int| 0 <= j < items@.len() ==> #[trigger] iv[j] == item_view(items@[j]),
            nv == count_values(iv.take(i as int)),
            ns == count_scopes(iv.take(i as int)),
            nv + ns == i,
        decreases items@.len() - i,
    {
        assert(iv.take(i + 1).drop_last() =~= iv.take(i as int));
        match &items[i] {
            ScopeItem::Value(_) => nv += 1,
            ScopeItem::Scope(_) => ns += 1,
        }
        i += 1;
    }
    assert(iv.take(i as int) =~= iv);
    (nv, ns)
}

/// One outline row.
fn make_line(indent: &String, last: bool, icon: char, name: &String) -> (r: String)
    ensures
        r@ == outline_line(indent@, last, icon, name@),
{
    let mut line = indent.clone();
    push_char(&mut line, if last { ELBOW } else { TEE });
    push_char(&mut line, STUB);
    push_char(&mut line, icon);
    push_char(&mut line, ' ');
    line.append(name.as_str());
    assert(line@ =~= outline_line(indent@, last, icon, name@));
    line
}

/// Appends the rows below the header of `s` to `lines`.
fn draw_scope_tree_impl(s: &Scope, lines: &mut Vec<String>, indent: String)
    ensures
        lines_view(final(lines)@) == lines_view(old(lines)@) + outline_body(s@, indent@),
    decreases s,
{
    if !s.open {
        assert(lines_view(lines@) =~= lines_view(lines@) + Seq::<Seq<char>>::empty());
        return;
    }
    let ghost iv = items_view(s.items@);
    proof {
        lemma_items_view(s.items@);
    }
    let (n_values, n_scopes) = count_items(&s.items);
    let n = s.items.len();
    let mut c_values: usize = 0;
    let mut i: usize = 0;
    while i < n
        invariant
            n == s.items@.len(),
            i <= n,
            iv == items_view(s.items@),
            iv.len() == n,
            forall|j: int| 0 <= j < n ==> #[trigger] iv[j] == item_view(s.items@[j]),
            n_values == count_values(iv),
            n_scopes == count_scopes(iv),
            c_values == count_values(iv.take(i as int)),
            c_values <= i,
            lines_view(lines@) == lines_view(old(lines)@) + value_lines(
                iv.take(i as int),
                indent@,
                n_values as nat,
                n_scopes as nat,
            ),
        decreases n - i,
    {
        assert(iv.take(i + 1).drop_last() =~= iv.take(i as int));
        proof {
            lemma_count_values_prefix(iv, i as int + 1);
        }
        if let ScopeItem::Value(v) = &s.items[i] {
            let is_last = n_scopes == 0 && c_values + 1 == n_values;
            let cbox = if v.should_be_rendered() { CHECKED } else { UNCHECKED };
            let ghost before = lines@;
            lines.push(make_line(&indent, is_last, cbox, &v.name));
            assert(lines_view(lines@) =~= lines_view(before) + seq![
                outline_line(indent@, is_last, cbox, v.name@),
            ]);
            c_values += 1;
        }
        i += 1;
    }
    assert(iv.take(n as int) =~= iv);
    let mut c_scopes: usize = 0;
    let mut i: usize = 0;
    while i < n
        invariant
            n == s.items@.len(),
            i <= n,
            s.open,
            iv == items_view(s.items@),
            iv.len() == n,
            forall|j: int| 0 <= j < n ==> #[trigger] iv[j] == item_view(s.items@[j]),
            n_values == count_values(iv),
            n_scopes == count_scopes(iv),
            c_scopes == count_scopes(iv.take(i as int)),
            c_scopes <= i,
            lines_view(lines@) == lines_view(old(lines)@) + value_lines(
                iv,
                indent@,
                n_values as nat,
                n_scopes as nat,
            ) + scope_lines(iv.take(i as int), indent@, n_scopes as nat),
        decreases n - i,
    {
        assert(iv.take(i + 1).drop_last() =~= iv.take(i as int));
        proof {
            lemma_count_scopes_prefix(iv, i as int + 1);
        }
        if let ScopeItem::Scope(subscope) = &s.items[i] {
            let is_last = c_scopes + 1 == n_scopes;
            let mut next_indent = indent.clone();
            if is_last {
                push_char(&mut next_indent, ' ');
            } else {
                push_char(&mut next_indent, PIPE);
            }
            push_char(&mut next_indent, ' ');
            let open_icon = if subscope.open { OPENED } else { CLOSED };
            let ghost before = lines@;
            lines.push(make_line(&indent, is_last, open_icon, &subscope.name));
            let ghost mid = lines@;
            assert(lines_view(mid) =~= lines_view(before) + seq![
                outline_line(indent@, is_last, open_icon, subscope.name@),
            ]);
            let ghost ni = next_indent@;
            assert(ni =~= indent@ + if is_last { seq![' ', ' '] } else { seq![PIPE, ' '] });
            draw_scope_tree_impl(subscope, lines, next_indent);
            assert(lines_view(lines@) =~= lines_view(before) + (seq![
                outline_line(indent@, is_last, open_icon, subscope.name@),
            ] + outline_body(subscope@, ni)));
            c_scopes += 1;
        }
        i += 1;
    }
    assert(iv.take(n as int) =~= iv);
}

proof fn lemma_count_values_prefix(iv: Seq<ItemView>, k: int)
    requires
        0 <= k <= iv.len(),
    ensures
        count_values(iv.take(k)) <= count_values(iv),
    decreases iv.len() - k,
{
    if k < iv.len() {
        lemma_count_values_prefix(iv, k + 1);
        assert(iv.take(k + 1).drop_last() =~= iv.take(k));
    } else {
        assert(iv.take(k) =~= iv);
    }
}

proof fn lemma_count_scopes_prefix(iv: Seq<ItemView>, k: int)
    requires
        0 <= k <= iv.len(),
    ensures
        count_scopes(iv.take(k)) <= count_scopes(iv),
    decreases iv.len() - k,
{
    if k < iv.len() {
        lemma_count_scopes_prefix(iv, k + 1);
        assert(iv.take(k + 1).drop_last() =~= iv.take(k));
    } else {
        assert(iv.take(k) =~= iv);
    }
}

/// The printable outline of a tree.
pub fn draw_scope_tree(root: &Scope) -> (r: Vec<String>)
    ensures
        lines_view(r@) == outline(root@),
{
    let mut tree = vec![root.name.clone()];
    assert(lines_view(tree@) =~= seq![root.name@]);
    draw_scope_tree_impl(root, &mut tree, String::new());
    assert(lines_view(tree@) =~= outline(root@));
    tree
}


/// Rows below the header of a scope.
pub open spec fn body_rows(s: ScopeView) -> nat
    decreases s, 1nat,
{
    if !s.open {
        0
    } else {
        count_values(s.items) + sub_rows(s.items)
    }
}

/// Rows taken by the subscopes among the items, their headers included.
pub open spec fn sub_rows(items: Seq<ItemView>) -> nat
    decreases items, 0nat,
{
    if items.len() == 0 {
        0
    } else {
        sub_rows(items.drop_last()) + match items.last() {
            ItemView::Scope(sub) => 1 + body_rows(sub),
            ItemView::Value(_) => 0nat,
        }
    }
}

/// Rows of the outline of a scope, its header included.
pub open spec fn rows(s: ScopeView) -> nat {
    1 + body_rows(s)
}

pub open spec fn flip_item(item: ItemView) -> ItemView {
    match item {
        ItemView::Value(v) => ItemView::Value(SignalView { render: !v.render, ..v }),
        ItemView::Scope(sub) => ItemView::Scope(sub),
    }
}

/// The items with the selection of their `k`-th signal flipped.
pub open spec fn toggle_values(items: Seq<ItemView>, k: int) -> Seq<ItemView>
    decreases items.len(),
{
    if items.len() == 0 {
        items
    } else {
        let pre = items.drop_last();
        if items.last() is Value && count_values(pre) == k {
            pre.push(flip_item(items.last()))
        } else {
            toggle_values(pre, k).push(items.last())
        }
    }
}

/// The items with the node at row `q` of their subscopes' rows flipped.
pub open spec fn toggle_subs(items: Seq<ItemView>, q: int) -> Seq<ItemView>
    decreases items, 0nat,
{
    if items.len() == 0 {
        items
    } else {
        let pre = items.drop_last();
        let c = sub_rows(pre);
        match items.last() {
            ItemView::Scope(sub) => if c <= q < c + rows(sub) {
                pre.push(ItemView::Scope(toggle_scope(sub, q - c)))
            } else {
                toggle_subs(pre, q).push(items.last())
            },
            ItemView::Value(_) => toggle_subs(pre, q).push(items.last()),
        }
    }
}

/// The tree with the node shown at row `p` of its outline flipped: the
/// disclosure of a scope, or the selection of a signal.
pub open spec fn toggle_scope(s: ScopeView, p: int) -> ScopeView
    decreases s, 1nat,
{
    if p == 0 {
        ScopeView { open: !s.open, ..s }
    } else if !s.open {
        s
    } else if p - 1 < count_values(s.items) {
        ScopeView { items: toggle_values(s.items, p - 1), ..s }
    } else {
        ScopeView { items: toggle_subs(s.items, p - 1 - count_values(s.items)), ..s }
    }
}

pub proof fn lemma_items_view_update(items: Seq<ScopeItem>, k: int, x: ScopeItem)
    requires
        0 <= k < items.len(),
    ensures
        items_view(items.update(k, x)) == items_view(items).update(k, item_view(x)),
{
    lemma_items_view(items);
    lemma_items_view(items.update(k, x));
    assert(items_view(items.update(k, x)) =~= items_view(items).update(k, item_view(x)));
}

proof fn lemma_toggle_values_hit(items: Seq<ItemView>, j: int)
    requires
        0 <= j < items.len(),
        items[j] is Value,
    ensures
        toggle_values(items, count_values(items.take(j)) as int) == items.update(
            j,
            flip_item(items[j]),
        ),
    decreases items.len(),
{
    let k = count_values(items.take(j)) as int;
    let pre = items.drop_last();
    if j == items.len() - 1 {
        assert(pre =~= items.take(j));
        assert(pre.push(flip_item(items.last())) =~= items.update(j, flip_item(items[j])));
    } else {
        assert(pre.take(j) =~= items.take(j));
        assert(pre.take(j + 1).drop_last() =~= pre.take(j));
        lemma_count_values_prefix(pre, j + 1);
        lemma_toggle_values_hit(pre, j);
        assert(toggle_values(pre, k).push(items.last()) =~= items.update(j, flip_item(items[j])));
    }
}

proof fn lemma_sub_rows_prefix(iv: Seq<ItemView>, k: int)
    requires
        0 <= k <= iv.len(),
    ensures
        sub_rows(iv.take(k)) <= sub_rows(iv),
    decreases iv.len() - k,
{
    if k < iv.len() {
        lemma_sub_rows_prefix(iv, k + 1);
        assert(iv.take(k + 1).drop_last() =~= iv.take(k));
    } else {
        assert(iv.take(k) =~= iv);
    }
}

proof fn lemma_toggle_subs_hit(items: Seq<ItemView>, j: int, q: int)
    requires
        0 <= j < items.len(),
        items[j] matches ItemView::Scope(sub) && sub_rows(items.take(j)) <= q < sub_rows(
            items.take(j),
        ) + rows(sub),
    ensures
        toggle_subs(items, q) == items.update(
            j,
            ItemView::Scope(toggle_scope(items[j]->Scope_0, q - sub_rows(items.take(j)))),
        ),
    decreases items.len(),
{
    let pre = items.drop_last();
    let sub = items[j]->Scope_0;
    if j == items.len() - 1 {
        assert(pre =~= items.take(j));
        assert(pre.push(ItemView::Scope(toggle_scope(sub, q - sub_rows(pre)))) =~= items.update(
            j,
            ItemView::Scope(toggle_scope(sub, q - sub_rows(items.take(j)))),
        ));
    } else {
        assert(pre.take(j) =~= items.take(j));
        assert(pre.take(j + 1).drop_last() =~= pre.take(j));
        lemma_sub_rows_prefix(pre, j + 1);
        lemma_toggle_subs_hit(pre, j, q);
        assert(toggle_subs(pre, q).push(items.last()) =~= items.update(
            j,
            ItemView::Scope(toggle_scope(sub, q - sub_rows(items.take(j)))),
        ));
    }
}

proof fn lemma_toggle_subs_miss(items: Seq<ItemView>, q: int)
    requires
        q >= sub_rows(items),
    ensures
        toggle_subs(items, q) == items,
    decreases items.len(),
{
    if items.len() > 0 {
        lemma_toggle_subs_miss(items.drop_last(), q);
        assert(items.drop_last().push(items.last()) =~= items);
    }
}


/// Walks the outline rows of `node` from row `*i` on and flips the node at
/// row `flipped` when it lies there; otherwise moves `*i` past the rows.
pub(crate) fn flip_scope_tree_impl(node: &mut Scope, i: &mut usize, flipped: usize) -> (r: bool)
    requires
        flipped < *old(i) ==> *old(i) + rows(old(node)@) <= usize::MAX,
    ensures
        r == (*old(i) <= flipped < *old(i) + rows(old(node)@)),
        r ==> final(node)@ == toggle_scope(old(node)@, flipped - *old(i)),
        !r ==> final(node)@ == old(node)@ && *final(i) == *old(i) + rows(old(node)@),
    decreases old(node)@,
{
    let ghost start = *i;
    let ghost iv = items_view(node.items@);
    proof {
        lemma_items_view(node.items@);
    }
    if *i == flipped {
        node.open = !node.open;
        assert(node@ =~= toggle_scope(old(node)@, 0));
        return true;
    }
    *i += 1;
    if !node.open {
        return false;
    }
    let n = node.items.len();
    let mut k: usize = 0;
    while k < n
        invariant
            n == node.items@.len(),
            k <= n,
            node.open,
            *node == *old(node),
            iv == items_view(node.items@),
            iv.len() == n,
            forall|j: int| 0 <= j < n ==> #[trigger] iv[j] == item_view(node.items@[j]),
            *i == start + 1 + count_values(iv.take(k as int)),
            start <= flipped ==> *i <= flipped,
            flipped < start ==> start + rows(old(node)@) <= usize::MAX,
            start == *old(i),
        decreases n - k,
    {
        assert(iv.take(k + 1).drop_last() =~= iv.take(k as int));
        let is_value = match &node.items[k] {
            ScopeItem::Value(_) => true,
            ScopeItem::Scope(_) => false,
        };
        if is_value {
            if *i == flipped {
                let ghost old_item = node.items@[k as int];
                proof {
                    lemma_toggle_values_hit(iv, k as int);
                    lemma_count_values_prefix(iv, k + 1);
                    assert(iv.take(k + 1).last() == iv[k as int]);
                    assert(iv[k as int] is Value);
                    assert(count_values(iv.take(k + 1)) == count_values(iv.take(k as int)) + 1);
                    assert(old(node)@.items == iv);
                    assert(rows(old(node)@) == 1 + count_values(iv) + sub_rows(iv));
                }
                match &mut node.items[k] {
                    ScopeItem::Value(v) => {
                        v.render = !v.render;
                    },
                    ScopeItem::Scope(_) => {},
                }
                proof {
                    let new_item = node.items@[k as int];
                    assert(node.items@ == old(node).items@.update(k as int, new_item));
                    lemma_items_view_update(old(node).items@, k as int, new_item);
                    assert(item_view(new_item) == flip_item(item_view(old_item)));
                    assert(node@ =~= toggle_scope(old(node)@, flipped - start));
                }
                return true;
            }
            proof {
                lemma_count_values_prefix(iv, k + 1);
                assert(count_values(iv.take(k + 1)) == count_values(iv.take(k as int)) + 1);
                assert(rows(old(node)@) == 1 + count_values(iv) + sub_rows(iv));
            }
            *i += 1;
        }
        k += 1;
    }
    assert(iv.take(n as int) =~= iv);
    let ghost nv = count_values(iv);
    let mut k: usize = 0;
    while k < n
        invariant
            n == node.items@.len(),
            k <= n,
            node.open,
            node@ == old(node)@,
            old(node)@.items == iv,
            iv.len() == n,
            forall|j: int| 0 <= j < n ==> #[trigger] iv[j] == item_view(node.items@[j]),
            nv == count_values(iv),
            *i == start + 1 + nv + sub_rows(iv.take(k as int)),
            start <= flipped ==> *i <= flipped,
            flipped < start ==> start + rows(old(node)@) <= usize::MAX,
            start == *old(i),
        decreases n - k,
    {
        assert(iv.take(k + 1).drop_last() =~= iv.take(k as int));
        let ghost cur = node.items@;
        let is_scope = match &node.items[k] {
            ScopeItem::Value(_) => false,
            ScopeItem::Scope(_) => true,
        };
        if is_scope {
            proof {
                lemma_sub_rows_prefix(iv, k + 1);
                assert(iv.take(k + 1).last() == iv[k as int]);
                assert(sub_rows(iv.take(k + 1)) == sub_rows(iv.take(k as int)) + rows(
                    iv[k as int]->Scope_0,
                ));
                assert(rows(old(node)@) == 1 + nv + sub_rows(iv));
                assert(decreases_to!(old(node)@ => old(node)@.items));
                assert(decreases_to!(old(node)@.items => iv[k as int]));
                assert(decreases_to!(iv[k as int] => iv[k as int]->Scope_0));
            }
            let done = match &mut node.items[k] {
                ScopeItem::Scope(sub) => flip_scope_tree_impl(sub, i, flipped),
                ScopeItem::Value(_) => false,
            };
            let ghost new_item = node.items@[k as int];
            proof {
                assert(node.items@ == cur.update(k as int, new_item));
                lemma_items_view_update(cur, k as int, new_item);
                lemma_items_view(node.items@);
            }
            if done {
                proof {
                    assert(iv.take(k + 1).last() == iv[k as int]);
                    assert(iv[k as int] is Scope);
                    assert(sub_rows(iv.take(k + 1)) == sub_rows(iv.take(k as int)) + rows(
                        iv[k as int]->Scope_0,
                    ));
                    assert(rows(old(node)@) == 1 + count_values(iv) + sub_rows(iv));
                    lemma_toggle_subs_hit(iv, k as int, flipped - start - 1 - nv);
                    assert(node@ =~= toggle_scope(old(node)@, flipped - start));
                }
                return true;
            }
            proof {
                assert(items_view(node.items@) =~= iv);
                assert(node@ =~= old(node)@);
            }
        }
        k += 1;
    }
    assert(iv.take(n as int) =~= iv);
    proof {
        if start <= flipped {
            lemma_toggle_subs_miss(iv, flipped - start - 1 - nv);
        }
    }
    false
}


proof fn lemma_value_lines_len(items: Seq<ItemView>, indent: Seq<char>, nv: nat, ns: nat)
    ensures
        value_lines(items, indent, nv, ns).len() == count_values(items),
    decreases items.len(),
{
    if items.len() > 0 {
        lemma_value_lines_len(items.drop_last(), indent, nv, ns);
    }
}

proof fn lemma_scope_lines_len(items: Seq<ItemView>, indent: Seq<char>, ns: nat)
    ensures
        scope_lines(items, indent, ns).len() == sub_rows(items),
    decreases items, 0nat,
{
    if items.len() > 0 {
        lemma_scope_lines_len(items.drop_last(), indent, ns);
        if let ItemView::Scope(sub) = items.last() {
            let last = count_scopes(items) == ns;
            lemma_outline_body_len(sub, indent + if last { seq![' ', ' '] } else { seq![PIPE, ' '] });
        }
    }
}

proof fn lemma_outline_body_len(s: ScopeView, indent: Seq<char>)
    ensures
        outline_body(s, indent).len() == body_rows(s),
    decreases s, 1nat,
{
    if s.open {
        lemma_value_lines_len(s.items, indent, count_values(s.items), count_scopes(s.items));
        lemma_scope_lines_len(s.items, indent, count_scopes(s.items));
    }
}

/// The outline has one row per position that the toggle walk counts.
pub proof fn lemma_outline_len(root: ScopeView)
    ensures
        outline(root).len() == rows(root),
{
    lemma_outline_body_len(root, Seq::empty());
}

proof fn lemma_toggle_values_twice(items: Seq<ItemView>, k: int)
    ensures
        count_values(toggle_values(items, k)) == count_values(items),
        sub_rows(toggle_values(items, k)) == sub_rows(items),
        toggle_values(toggle_values(items, k), k) == items,
    decreases items.len(),
{
    if items.len() > 0 {
        let pre = items.drop_last();
        lemma_toggle_values_twice(pre, k);
        let t = toggle_values(items, k);
        if items.last() is Value && count_values(pre) == k {
            assert(t.drop_last() =~= pre);
            assert(pre.push(flip_item(flip_item(items.last()))) =~= items);
        } else {
            assert(t.drop_last() =~= toggle_values(pre, k));
            assert(pre.push(items.last()) =~= items);
        }
    }
}

proof fn lemma_toggle_subs_twice(items: Seq<ItemView>, q: int)
    requires
        0 <= q < sub_rows(items),
    ensures
        count_values(toggle_subs(items, q)) == count_values(items),
        q < sub_rows(toggle_subs(items, q)),
        toggle_subs(toggle_subs(items, q), q) == items,
    decreases items, 0nat,
{
    let pre = items.drop_last();
    let c = sub_rows(pre);
    let t = toggle_subs(items, q);
    match items.last() {
        ItemView::Scope(sub) => {
            if c <= q < c + rows(sub) {
                lemma_toggle_scope_twice(sub, q - c);
                assert(t.drop_last() =~= pre);
                assert(pre.push(ItemView::Scope(sub)) =~= items);
            } else {
                lemma_toggle_subs_twice(pre, q);
                assert(t.drop_last() =~= toggle_subs(pre, q));
                assert(pre.push(items.last()) =~= items);
            }
        },
        ItemView::Value(_) => {
            lemma_toggle_subs_twice(pre, q);
            assert(t.drop_last() =~= toggle_subs(pre, q));
            assert(pre.push(items.last()) =~= items);
        },
    }
}

proof fn lemma_toggle_scope_twice(s: ScopeView, p: int)
    requires
        0 <= p < rows(s),
    ensures
        p < rows(toggle_scope(s, p)),
        toggle_scope(toggle_scope(s, p), p) == s,
    decreases s, 1nat,
{
    if p == 0 {
    } else if !s.open {
    } else if p - 1 < count_values(s.items) {
        lemma_toggle_values_twice(s.items, p - 1);
    } else {
        lemma_toggle_subs_twice(s.items, p - 1 - count_values(s.items));
    }
}

/// Toggling the same outline row twice restores the tree, and with it the
/// flattened signal list and the outline.
pub proof fn lemma_toggle_twice(root: ScopeView, p: int)
    requires
        0 <= p < outline(root).len(),
    ensures
        toggle_scope(toggle_scope(root, p), p) == root,
        flattened(toggle_scope(toggle_scope(root, p), p)) == flattened(root),
        outline(toggle_scope(toggle_scope(root, p), p)) == outline(root),
{
    lemma_outline_len(root);
    lemma_toggle_scope_twice(root, p);
}


proof fn lemma_value_entries_below(items: Seq<ItemView>, path: Seq<char>, n: nat)
    requires
        items_below(items, n),
    ensures
        forall|j: int| 0 <= j < value_entries(items, path).len() ==> #[trigger] value_entries(items, path)[j].1 < n,
    decreases items.len(),
{
    if items.len() > 0 {
        let a = value_entries(items.drop_last(), path);
        lemma_value_entries_below(items.drop_last(), path, n);
        let r = value_entries(items, path);
        assert forall|j: int| 0 <= j < r.len() implies #[trigger] r[j].1 < n by {
            if j < a.len() {
                assert(r[j] == a[j]);
            }
        }
    }
}

proof fn lemma_scope_entries_below(items: Seq<ItemView>, path: Seq<char>, n: nat)
    requires
        items_below(items, n),
    ensures
        forall|j: int| 0 <= j < scope_entries(items, path).len() ==> #[trigger] scope_entries(items, path)[j].1 < n,
    decreases items, 0nat,
{
    if items.len() > 0 {
        let a = scope_entries(items.drop_last(), path);
        lemma_scope_entries_below(items.drop_last(), path, n);
        let r = scope_entries(items, path);
        if let ItemView::Scope(sub) = items.last() {
            let b = flattened_scope(sub, path.push('.') + initial(sub.name));
            lemma_flattened_scope_below(sub, path.push('.') + initial(sub.name), n);
            assert forall|j: int| 0 <= j < r.len() implies #[trigger] r[j].1 < n by {
                if j < a.len() {
                    assert(r[j] == a[j]);
                } else if sub.open && scope_rendered(sub) {
                    assert(r[j] == b[j - a.len()]);
                }
            }
        } else {
            assert forall|j: int| 0 <= j < r.len() implies #[trigger] r[j].1 < n by {
                assert(r[j] == a[j]);
            }
        }
    }
}

proof fn lemma_flattened_scope_below(s: ScopeView, path: Seq<char>, n: nat)
    requires
        signals_below(s, n),
    ensures
        forall|j: int| 0 <= j < flattened_scope(s, path).len() ==> #[trigger] flattened_scope(s, path)[j].1 < n,
    decreases s, 1nat,
{
    let a = value_entries(s.items, path);
    let b = scope_entries(s.items, path);
    lemma_value_entries_below(s.items, path, n);
    lemma_scope_entries_below(s.items, path, n);
    let r = flattened_scope(s, path);
    assert forall|j: int| 0 <= j < r.len() implies #[trigger] r[j].1 < n by {
        if j < a.len() {
            assert(r[j] == a[j]);
        } else {
            assert(r[j] == b[j - a.len()]);
        }
    }
}

/// Every displayed signal refers to a stream of the store.
pub proof fn lemma_flattened_below(root: ScopeView, n: nat)
    requires
        signals_below(root, n),
    ensures
        forall|j: int| 0 <= j < flattened(root).len() ==> #[trigger] flattened(root)[j].1 < n,
{
    lemma_flattened_scope_below(root, initial(root.name), n);
}

/// The rendered row of one displayed signal: its styled path and name, and
/// the segments of its waveform.
pub type Timeline = ((Segment, Segment), Seq<Segment>);

pub open spec fn timeline_view(x: ((StyledString, StyledString), Vec<StyledString>)) -> Timeline {
    ((x.0.0@, x.0.1@), segments_view(x.1@))
}

pub open spec fn timelines_view(v: Seq<((StyledString, StyledString), Vec<StyledString>)>) -> Seq<
    Timeline,
> {
    v.map_values(|x: ((StyledString, StyledString), Vec<StyledString>)| timeline_view(x))
}

/// Derived views of the scope tree, kept for drawing, and the rendered rows
/// of the signals in view.
pub struct UICache {
    pub selected_values: Vec<((String, String), usize)>,
    pub scope_tree_lines: Vec<String>,
    pub signal_timelines: Vec<((StyledString, StyledString), Vec<StyledString>)>,
}

impl UICache {
    /// The flattened list and the outline are those of the tree.
    pub open spec fn matches_tree(&self, tree: ScopeView) -> bool {
        &&& entries_view(self.selected_values@) == flattened(tree)
        &&& lines_view(self.scope_tree_lines@) == outline(tree)
    }

    pub fn new(ts: &TimeSeries) -> (r: Self)
        ensures
            r.matches_tree(ts.scope@),
            r.signal_timelines@.len() == 0,
    {
        Self {
            selected_values: list_values(&ts.scope),
            scope_tree_lines: draw_scope_tree(&ts.scope),
            signal_timelines: Vec::new(),
        }
    }

    /// Rebuilds the flattened list and the outline from the tree.
    pub fn update_selection(&mut self, ts: &TimeSeries)
        ensures
            final(self).matches_tree(ts.scope@),
            final(self).signal_timelines == old(self).signal_timelines,
    {
        self.selected_values = list_values(&ts.scope);
        self.scope_tree_lines = draw_scope_tree(&ts.scope);
    }
}

/// Rebuilding is idempotent: two caches rebuilt from one unchanged tree,
/// for instance by two successive rebuilds, hold the same flattened list and
/// the same outline.
pub proof fn lemma_rebuild_idempotent(first: UICache, second: UICache, tree: ScopeView)
    requires
        first.matches_tree(tree),
        second.matches_tree(tree),
    ensures
        entries_view(first.selected_values@) == entries_view(second.selected_values@),
        lines_view(first.scope_tree_lines@) == lines_view(second.scope_tree_lines@),
{
}


proof fn lemma_toggle_values_below(items: Seq<ItemView>, k: int, n: nat)
    ensures
        items_below(toggle_values(items, k), n) == items_below(items, n),
    decreases items.len(),
{
    if items.len() > 0 {
        let pre = items.drop_last();
        lemma_toggle_values_below(pre, k, n);
        let t = toggle_values(items, k);
        if items.last() is Value && count_values(pre) == k {
            assert(t.drop_last() =~= pre);
        } else {
            assert(t.drop_last() =~= toggle_values(pre, k));
        }
    }
}

proof fn lemma_toggle_subs_below(items: Seq<ItemView>, q: int, n: nat)
    ensures
        items_below(toggle_subs(items, q), n) == items_below(items, n),
    decreases items, 0nat,
{
    if items.len() > 0 {
        let pre = items.drop_last();
        let c = sub_rows(pre);
        let t = toggle_subs(items, q);
        lemma_toggle_subs_below(pre, q, n);
        match items.last() {
            ItemView::Scope(sub) => {
                if c <= q < c + rows(sub) {
                    lemma_toggle_scope_below(sub, q - c, n);
                    assert(t.drop_last() =~= pre);
                } else {
                    assert(t.drop_last() =~= toggle_subs(pre, q));
                }
            },
            ItemView::Value(_) => {
                assert(t.drop_last() =~= toggle_subs(pre, q));
            },
        }
    }
}

/// Toggling a row keeps every signal's stream index.
pub proof fn lemma_toggle_scope_below(s: ScopeView, p: int, n: nat)
    ensures
        signals_below(toggle_scope(s, p), n) == signals_below(s, n),
    decreases s, 1nat,
{
    if p != 0 && s.open {
        if p - 1 < count_values(s.items) {
            lemma_toggle_values_below(s.items, p - 1, n);
        } else {
            lemma_toggle_subs_below(s.items, p - 1 - count_values(s.items), n);
        }
    }
}

} // verus!
