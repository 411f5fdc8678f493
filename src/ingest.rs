//! Building the scope tree and the stream store from declared scopes and
//! variables.

use vstd::prelude::*;
use vstd::string::*;
use crate::timeseries::{
    ItemView, Scope, ScopeItem, ScopeValue, ScopeView, SignalView, TimeSeries, ValueChangeStream,
    ValueChangeStreamImpl, item_view, items_below, items_view, lemma_items_view, signals_below,
    stream_samples,
};

verus! {

/// Lexicographic order of names, by code point.
pub open spec fn name_le(a: Seq<char>, b: Seq<char>) -> bool
    decreases a.len(),
{
    if a.len() == 0 {
        true
    } else if b.len() == 0 {
        false
    } else if (a[0] as u32) < (b[0] as u32) {
        true
    } else if (a[0] as u32) > (b[0] as u32) {
        false
    } else {
        name_le(a.drop_first(), b.drop_first())
    }
}

/// Sibling order: signals before subscopes, each group by name.
pub open spec fn item_le(a: ItemView, b: ItemView) -> bool {
    match (a, b) {
        (ItemView::Value(x), ItemView::Value(y)) => name_le(x.name, y.name),
        (ItemView::Scope(x), ItemView::Scope(y)) => name_le(x.name, y.name),
        (ItemView::Value(_), ItemView::Scope(_)) => true,
        (ItemView::Scope(_), ItemView::Value(_)) => false,
    }
}

/// `x` inserted into `s` after every item that does not follow it.
pub open spec fn insert_sorted(s: Seq<ItemView>, x: ItemView) -> Seq<ItemView>
    decreases s.len(),
{
    if s.len() == 0 || item_le(s.last(), x) {
        s.push(x)
    } else {
        insert_sorted(s.drop_last(), x).push(s.last())
    }
}

/// The items in sibling order; items that compare equal keep their order.
pub open spec fn sort_items(s: Seq<ItemView>) -> Seq<ItemView>
    decreases s.len(),
{
    if s.len() == 0 {
        s
    } else {
        insert_sorted(sort_items(s.drop_last()), s.last())
    }
}

fn name_le_exec(a: &String, b: &String) -> (r: bool)
    ensures
        r == name_le(a@, b@),
{
    let la = a.as_str().unicode_len();
    let lb = b.as_str().unicode_len();
    let mut i: usize = 0;
    assert(a@.skip(0) =~= a@);
    assert(b@.skip(0) =~= b@);
    while i < la && i < lb
        invariant
            la == a@.len(),
            lb == b@.len(),
            i <= la,
            i <= lb,
            name_le(a@, b@) == name_le(a@.skip(i as int), b@.skip(i as int)),
        decreases la - i,
    {
        let c = a.as_str().get_char(i) as u32;
        let d = b.as_str().get_char(i) as u32;
        assert(a@.skip(i as int)[0] == a@[i as int]);
        assert(b@.skip(i as int)[0] == b@[i as int]);
        if c < d {
            return true;
        }
        if c > d {
            return false;
        }
        assert(a@.skip(i as int).drop_first() =~= a@.skip(i + 1));
        assert(b@.skip(i as int).drop_first() =~= b@.skip(i + 1));
        i += 1;
    }
    i == la
}

fn item_le_exec(a: &ScopeItem, b: &ScopeItem) -> (r: bool)
    ensures
        r == item_le(item_view(*a), item_view(*b)),
{
    match (a, b) {
        (ScopeItem::Value(x), ScopeItem::Value(y)) => name_le_exec(&x.name, &y.name),
        (ScopeItem::Scope(x), ScopeItem::Scope(y)) => name_le_exec(&x.name, &y.name),
        (ScopeItem::Value(_), ScopeItem::Scope(_)) => true,
        (ScopeItem::Scope(_), ScopeItem::Value(_)) => false,
    }
}

proof fn lemma_insert_sorted_at(s: Seq<ItemView>, x: ItemView, j: int)
    requires
        0 <= j <= s.len(),
        j == 0 || item_le(s[j - 1], x),
        forall|k: int| j <= k < s.len() ==> !item_le(#[trigger] s[k], x),
    ensures
        insert_sorted(s, x) == s.insert(j, x),
    decreases s.len(),
{
    if s.len() == 0 {
        assert(s.push(x) =~= s.insert(j, x));
    } else if j == s.len() {
        assert(s.push(x) =~= s.insert(j, x));
    } else {
        lemma_insert_sorted_at(s.drop_last(), x, j);
        assert(s.drop_last().insert(j, x).push(s.last()) =~= s.insert(j, x));
    }
}

proof fn lemma_items_view_ext(a: Seq<ScopeItem>, b: Seq<ItemView>)
    requires
        a.len() == b.len(),
        forall|k: int| 0 <= k < a.len() ==> #[trigger] item_view(a[k]) == b[k],
    ensures
        items_view(a) == b,
{
    lemma_items_view(a);
    assert(items_view(a) =~= b);
}

/// Inserts `x` into the ordered items `v` after every item not following it.
fn insert_item(v: &mut Vec<ScopeItem>, x: ScopeItem)
    ensures
        items_view(final(v)@) == insert_sorted(items_view(old(v)@), item_view(x)),
{
    let ghost sv = items_view(v@);
    proof {
        lemma_items_view(v@);
    }
    let mut j = v.len();
    while j > 0 && !item_le_exec(&v[j - 1], &x)
        invariant
            j <= v@.len(),
            sv == items_view(v@),
            sv.len() == v@.len(),
            forall|k: int| 0 <= k < v@.len() ==> #[trigger] sv[k] == item_view(v@[k]),
            forall|k: int| j <= k < v@.len() ==> !item_le(#[trigger] sv[k], item_view(x)),
        decreases j,
    {
        j -= 1;
    }
    proof {
        lemma_insert_sorted_at(sv, item_view(x), j as int);
    }
    let ghost before = v@;
    v.insert(j, x);
    proof {
        lemma_items_view_ext(v@, sv.insert(j as int, item_view(x)));
    }
}

/// Puts the items in sibling order, keeping the order of equal items.
fn sort_scope_items(items: &mut Vec<ScopeItem>)
    ensures
        items_view(final(items)@) == sort_items(items_view(old(items)@)),
{
    let ghost all = items@;
    proof {
        lemma_items_view(all);
    }
    let mut sorted: Vec<ScopeItem> = Vec::new();
    let n = items.len();
    let mut i: usize = 0;
    while i < n
        invariant
            n == all.len(),
            i <= n,
            items@ == all.skip(i as int),
            items_view(sorted@) == sort_items(items_view(all.take(i as int))),
        decreases n - i,
    {
        let x = items.remove(0);
        assert(x == all[i as int]);
        proof {
            let p = all.take(i as int);
            let q = all.take(i + 1);
            lemma_items_view(p);
            lemma_items_view(q);
            assert(items_view(q).drop_last() =~= items_view(p));
            assert(items_view(q).last() == item_view(x));
        }
        insert_item(&mut sorted, x);
        assert(items@ =~= all.skip(i + 1));
        i += 1;
    }
    assert(all.take(n as int) =~= all);
    *items = sorted;
}


/// A declared item of a scope: a variable with its name, type and
/// identifier, or a nested scope with its name and items.
#[derive(Debug)]
pub enum Declaration {
    Var { name: String, var_type: vcd::VarType, code: vcd::IdCode },
    Scope { name: String, items: Vec<Declaration> },
}

pub ghost enum DeclView {
    Var { name: Seq<char>, var_type: vcd::VarType, code: vcd::IdCode },
    Scope { name: Seq<char>, items: Seq<DeclView> },
}

pub open spec fn decl_view(d: Declaration) -> DeclView
    decreases d, 1nat,
{
    match d {
        Declaration::Var { name, var_type, code } => DeclView::Var { name: name@, var_type, code },
        Declaration::Scope { name, items } => DeclView::Scope { name: name@, items: decls_view(items@) },
    }
}

pub open spec fn decls_view(ds: Seq<Declaration>) -> Seq<DeclView>
    decreases ds, 0nat,
{
    if ds.len() == 0 {
        Seq::empty()
    } else {
        decls_view(ds.drop_last()).push(decl_view(ds.last()))
    }
}

pub proof fn lemma_decls_view(ds: Seq<Declaration>)
    ensures
        decls_view(ds).len() == ds.len(),
        forall|j: int| 0 <= j < ds.len() ==> #[trigger] decls_view(ds)[j] == decl_view(ds[j]),
    decreases ds.len(),
{
    if ds.len() > 0 {
        lemma_decls_view(ds.drop_last());
    }
}

/// Type and identifier of the variables declared directly in the items.
pub open spec fn level_decls(ds: Seq<DeclView>) -> Seq<(vcd::VarType, vcd::IdCode)>
    decreases ds.len(),
{
    if ds.len() == 0 {
        Seq::empty()
    } else {
        level_decls(ds.drop_last()) + match ds.last() {
            DeclView::Var { var_type, code, .. } => seq![(var_type, code)],
            DeclView::Scope { .. } => Seq::empty(),
        }
    }
}

/// Type and identifier of the variables of the nested scopes, scope by scope.
pub open spec fn sub_decls(ds: Seq<DeclView>) -> Seq<(vcd::VarType, vcd::IdCode)>
    decreases ds, 0nat,
{
    if ds.len() == 0 {
        Seq::empty()
    } else {
        sub_decls(ds.drop_last()) + match ds.last() {
            DeclView::Scope { items, .. } => all_decls(items),
            DeclView::Var { .. } => Seq::empty(),
        }
    }
}

/// Type and identifier of every variable, in the order of their stream
/// indices: a scope's own variables first, then its nested scopes'.
pub open spec fn all_decls(ds: Seq<DeclView>) -> Seq<(vcd::VarType, vcd::IdCode)>
    decreases ds, 1nat,
{
    level_decls(ds) + sub_decls(ds)
}

/// Signal leaves for the variables declared directly in the items, numbered
/// from `base`.
pub open spec fn value_views(ds: Seq<DeclView>, base: nat) -> Seq<ItemView>
    decreases ds.len(),
{
    if ds.len() == 0 {
        Seq::empty()
    } else {
        value_views(ds.drop_last(), base) + match ds.last() {
            DeclView::Var { name, .. } => seq![
                ItemView::Value(
                    SignalView {
                        name,
                        index: (base + level_decls(ds.drop_last()).len()) as usize,
                        render: true,
                    },
                ),
            ],
            DeclView::Scope { .. } => Seq::empty(),
        }
    }
}

/// The nested scopes among the items, their variables numbered from `base`.
pub open spec fn scope_views(ds: Seq<DeclView>, base: nat) -> Seq<ItemView>
    decreases ds, 0nat,
{
    if ds.len() == 0 {
        Seq::empty()
    } else {
        scope_views(ds.drop_last(), base) + match ds.last() {
            DeclView::Scope { name, items } => seq![
                ItemView::Scope(
                    ScopeView {
                        name,
                        items: sort_items(new_items(items, base + sub_decls(ds.drop_last()).len())),
                        open: true,
                    },
                ),
            ],
            DeclView::Var { .. } => Seq::empty(),
        }
    }
}

/// The tree items built from declared items whose variables get stream
/// indices from `base` on, before sorting.
pub open spec fn new_items(ds: Seq<DeclView>, base: nat) -> Seq<ItemView>
    decreases ds, 1nat,
{
    value_views(ds, base) + scope_views(ds, base + level_decls(ds).len())
}

/// The empty stream that a variable of type `t` starts.
pub open spec fn opens(t: vcd::VarType, v: ValueChangeStream) -> bool {
    &&& stream_samples(v).len() == 0
    &&& match t {
        vcd::VarType::Wire | vcd::VarType::Reg => v is Bits,
        vcd::VarType::Real => v is Real,
        vcd::VarType::String => v is String,
        _ => v is Unknown,
    }
}

/// From `base` on, the streams are the empty streams the variables start.
pub open spec fn opened_for(
    vals: Seq<ValueChangeStream>,
    base: int,
    decls: Seq<(vcd::VarType, vcd::IdCode)>,
) -> bool {
    &&& vals.len() == base + decls.len()
    &&& forall|k: int| 0 <= k < decls.len() ==> #[trigger] opens(decls[k].0, vals[base + k])
}

/// Each variable's identifier paired with its stream index.
pub open spec fn coded(
    r: Seq<(vcd::IdCode, usize)>,
    base: int,
    decls: Seq<(vcd::VarType, vcd::IdCode)>,
) -> bool {
    &&& r.len() == decls.len()
    &&& forall|k: int| 0 <= k < decls.len() ==> #[trigger] r[k] == (decls[k].1, (base + k) as usize)
}

/// An empty stream for a variable of type `t`.
fn stream_for(t: vcd::VarType) -> (r: ValueChangeStream)
    ensures
        opens(t, r),
        r.wf(),
{
    let r = match t {
        vcd::VarType::Wire | vcd::VarType::Reg => ValueChangeStream::Bits(ValueChangeStreamImpl::new()),
        vcd::VarType::Real => ValueChangeStream::Real(ValueChangeStreamImpl::new()),
        vcd::VarType::String => ValueChangeStream::String(ValueChangeStreamImpl::new()),
        _ => ValueChangeStream::Unknown,
    };
    assert(stream_samples(r).len() == 0);
    r
}


/// Adds the declared items to `scope`: one signal and one empty stream per
/// variable, numbered in order from the current number of streams, then one
/// subscope per nested scope; the scope's items are then put in sibling
/// order. Returns each variable's identifier with its stream index.
pub fn append_to_scope(
    scope: &mut Scope,
    values: &mut Vec<ValueChangeStream>,
    items: &Vec<Declaration>,
) -> (r: Vec<(vcd::IdCode, usize)>)
    ensures
        final(scope)@ == (ScopeView {
            items: sort_items(old(scope)@.items + new_items(decls_view(items@), old(values)@.len())),
            ..old(scope)@
        }),
        final(values)@.take(old(values)@.len() as int) == old(values)@,
        opened_for(final(values)@, old(values)@.len() as int, all_decls(decls_view(items@))),
        coded(r@, old(values)@.len() as int, all_decls(decls_view(items@))),
    decreases items,
{
    let ghost ds = decls_view(items@);
    let ghost base = values@.len();
    let ghost old_items = scope@.items;
    proof {
        lemma_decls_view(items@);
    }
    let mut map: Vec<(vcd::IdCode, usize)> = Vec::new();
    let n = items.len();
    let mut k: usize = 0;
    while k < n
        invariant
            n == items@.len(),
            k <= n,
            ds == decls_view(items@),
            ds.len() == n,
            forall|j: int| 0 <= j < n ==> #[trigger] ds[j] == decl_view(items@[j]),
            base == old(values)@.len(),
            old_items == old(scope)@.items,
            scope.name == old(scope).name,
            scope.open == old(scope).open,
            values@.take(base as int) == old(values)@,
            opened_for(values@, base as int, level_decls(ds.take(k as int))),
            coded(map@, base as int, level_decls(ds.take(k as int))),
            items_view(scope.items@) == old_items + value_views(ds.take(k as int), base),
        decreases n - k,
    {
        let ghost pre = ds.take(k as int);
        assert(ds.take(k + 1).drop_last() =~= pre);
        assert(ds.take(k + 1).last() == ds[k as int]);
        if let Declaration::Var { name, var_type, code } = &items[k] {
            let idx = values.len();
            let ghost vb = values@;
            let ghost mb = map@;
            let ghost sb = scope.items@;
            values.push(stream_for(*var_type));
            map.push((*code, idx));
            let leaf = ScopeValue::new(name.as_str(), idx);
            scope.items.push(ScopeItem::Value(leaf));
            proof {
                let d = level_decls(ds.take(k + 1));
                assert(d =~= level_decls(pre).push((*var_type, *code)));
                assert(values@.take(base as int) =~= vb.take(base as int));
                assert forall|j: int| 0 <= j < d.len() implies #[trigger] opens(
                    d[j].0,
                    values@[base + j],
                ) by {
                    if j < d.len() - 1 {
                        assert(values@[base + j] == vb[base + j]);
                    }
                }
                assert forall|j: int| 0 <= j < d.len() implies #[trigger] map@[j] == (
                    d[j].1,
                    (base + j) as usize,
                ) by {
                    if j < d.len() - 1 {
                        assert(map@[j] == mb[j]);
                    }
                }
                lemma_items_view(sb);
                lemma_items_view(scope.items@);
                assert(items_view(scope.items@) =~= items_view(sb).push(item_view(scope.items@.last())));
                assert(value_views(ds.take(k + 1), base) =~= value_views(pre, base).push(
                    ItemView::Value(SignalView { name: name@, index: idx, render: true }),
                ));
            }
        } else {
            proof {
                assert(level_decls(ds.take(k + 1)) =~= level_decls(pre));
                assert(value_views(ds.take(k + 1), base) =~= value_views(pre, base));
            }
        }
        k += 1;
    }
    assert(ds.take(n as int) =~= ds);
    let ghost level = level_decls(ds);
    let ghost sbase = base + level.len();
    let mut k: usize = 0;
    while k < n
        invariant
            n == items@.len(),
            k <= n,
            ds == decls_view(items@),
            ds.len() == n,
            forall|j: int| 0 <= j < n ==> #[trigger] ds[j] == decl_view(items@[j]),
            base == old(values)@.len(),
            old_items == old(scope)@.items,
            level == level_decls(ds),
            sbase == base + level.len(),
            scope.name == old(scope).name,
            scope.open == old(scope).open,
            values@.take(base as int) == old(values)@,
            opened_for(values@, base as int, level + sub_decls(ds.take(k as int))),
            coded(map@, base as int, level + sub_decls(ds.take(k as int))),
            items_view(scope.items@) == old_items + value_views(ds, base) + scope_views(
                ds.take(k as int),
                sbase,
            ),
        decreases n - k,
    {
        let ghost pre = ds.take(k as int);
        assert(ds.take(k + 1).drop_last() =~= pre);
        assert(ds.take(k + 1).last() == ds[k as int]);
        if let Declaration::Scope { name, items: sub } = &items[k] {
            let mut subscope = Scope::new(name.as_str());
            let ghost vb = values@;
            let ghost mb = map@;
            let ghost sb = scope.items@;
            let ghost b2 = vb.len();
            proof {
                assert(subscope@.items =~= Seq::<ItemView>::empty());
                assert(b2 == sbase + sub_decls(pre).len());
            }
            let mut submap = append_to_scope(&mut subscope, values, sub);
            let ghost sm = submap@;
            map.append(&mut submap);
            scope.items.push(ScopeItem::Scope(subscope));
            proof {
                let inner = all_decls(decls_view(sub@));
                let d0 = level + sub_decls(pre);
                let d = level + sub_decls(ds.take(k + 1));
                assert(d =~= d0 + inner);
                assert(values@.take(b2 as int) == vb);
                assert(values@.take(base as int) =~= vb.take(base as int)) by {
                    assert(values@.take(base as int) =~= values@.take(b2 as int).take(base as int));
                }
                assert forall|j: int| 0 <= j < d.len() implies #[trigger] opens(
                    d[j].0,
                    values@[base + j],
                ) by {
                    if j < d0.len() {
                        assert(values@[base + j] == values@.take(b2 as int)[base + j]);
                        assert(d[j] == d0[j]);
                    } else {
                        assert(d[j] == inner[j - d0.len()]);
                        assert(opens(inner[j - d0.len()].0, values@[b2 + (j - d0.len())]));
                    }
                }
                assert forall|j: int| 0 <= j < d.len() implies #[trigger] map@[j] == (
                    d[j].1,
                    (base + j) as usize,
                ) by {
                    if j < d0.len() {
                        assert(map@[j] == mb[j]);
                        assert(d[j] == d0[j]);
                    } else {
                        assert(map@[j] == sm[j - d0.len()]);
                        assert(d[j] == inner[j - d0.len()]);
                    }
                }
                lemma_items_view(sb);
                lemma_items_view(scope.items@);
                assert(items_view(scope.items@) =~= items_view(sb).push(item_view(scope.items@.last())));
                assert(scope_views(ds.take(k + 1), sbase) =~= scope_views(pre, sbase).push(
                    ItemView::Scope(subscope@),
                ));
            }
        } else {
            proof {
                assert(sub_decls(ds.take(k + 1)) =~= sub_decls(pre));
                assert(scope_views(ds.take(k + 1), sbase) =~= scope_views(pre, sbase));
            }
        }
        k += 1;
    }
    assert(ds.take(n as int) =~= ds);
    let ghost before_sort = scope.items@;
    sort_scope_items(&mut scope.items);
    proof {
        assert(old_items + value_views(ds, base) + scope_views(ds, sbase) =~= old_items + new_items(
            ds,
            base,
        ));
        assert(scope@ =~= (ScopeView {
            items: sort_items(old(scope)@.items + new_items(ds, base)),
            ..old(scope)@
        }));
    }
    map
}


proof fn lemma_items_below_concat(a: Seq<ItemView>, b: Seq<ItemView>, n: nat)
    ensures
        items_below(a + b, n) == (items_below(a, n) && items_below(b, n)),
    decreases b.len(),
{
    if b.len() == 0 {
        assert(a + b =~= a);
    } else {
        lemma_items_below_concat(a, b.drop_last(), n);
        assert((a + b).drop_last() =~= a + b.drop_last());
    }
}

/// The item's signals refer to streams below `n`.
pub open spec fn item_below(x: ItemView, n: nat) -> bool {
    match x {
        ItemView::Scope(sub) => signals_below(sub, n),
        ItemView::Value(v) => v.index < n,
    }
}

proof fn lemma_items_below_push(s: Seq<ItemView>, x: ItemView, n: nat)
    ensures
        items_below(s.push(x), n) == (items_below(s, n) && item_below(x, n)),
{
    assert(s.push(x).drop_last() =~= s);
}

proof fn lemma_insert_sorted_below(s: Seq<ItemView>, x: ItemView, n: nat)
    requires
        items_below(s, n),
        item_below(x, n),
    ensures
        items_below(insert_sorted(s, x), n),
    decreases s.len(),
{
    if s.len() == 0 || item_le(s.last(), x) {
        lemma_items_below_push(s, x, n);
    } else {
        lemma_items_below_push(s.drop_last(), s.last(), n);
        assert(s.drop_last().push(s.last()) =~= s);
        lemma_insert_sorted_below(s.drop_last(), x, n);
        lemma_items_below_push(insert_sorted(s.drop_last(), x), s.last(), n);
    }
}

proof fn lemma_sort_below(s: Seq<ItemView>, n: nat)
    requires
        items_below(s, n),
    ensures
        items_below(sort_items(s), n),
    decreases s.len(),
{
    if s.len() > 0 {
        lemma_items_below_push(s.drop_last(), s.last(), n);
        assert(s.drop_last().push(s.last()) =~= s);
        lemma_sort_below(s.drop_last(), n);
        lemma_insert_sorted_below(sort_items(s.drop_last()), s.last(), n);
    }
}

proof fn lemma_value_views_below(ds: Seq<DeclView>, base: nat, n: nat)
    requires
        base + level_decls(ds).len() <= n <= usize::MAX,
    ensures
        items_below(value_views(ds, base), n),
    decreases ds.len(),
{
    if ds.len() > 0 {
        let pre = ds.drop_last();
        lemma_value_views_below(pre, base, n);
        match ds.last() {
            DeclView::Var { name, var_type, code } => {
                let x = ItemView::Value(
                    SignalView { name, index: (base + level_decls(pre).len()) as usize, render: true },
                );
                assert(level_decls(ds) =~= level_decls(pre).push((var_type, code)));
                assert(value_views(ds, base) =~= value_views(pre, base).push(x));
                lemma_items_below_push(value_views(pre, base), x, n);
            },
            DeclView::Scope { .. } => {
                assert(level_decls(ds) =~= level_decls(pre));
                assert(value_views(ds, base) =~= value_views(pre, base));
            },
        }
    }
}

proof fn lemma_scope_views_below(ds: Seq<DeclView>, base: nat, n: nat)
    requires
        base + sub_decls(ds).len() <= n <= usize::MAX,
    ensures
        items_below(scope_views(ds, base), n),
    decreases ds, 0nat,
{
    if ds.len() > 0 {
        let pre = ds.drop_last();
        match ds.last() {
            DeclView::Scope { name, items } => {
                let b = base + sub_decls(pre).len();
                assert(sub_decls(ds) =~= sub_decls(pre) + all_decls(items));
                lemma_scope_views_below(pre, base, n);
                lemma_new_items_below(items, b, n);
                lemma_sort_below(new_items(items, b), n);
                let x = ItemView::Scope(ScopeView { name, items: sort_items(new_items(items, b)), open: true });
                assert(scope_views(ds, base) =~= scope_views(pre, base).push(x));
                lemma_items_below_push(scope_views(pre, base), x, n);
            },
            DeclView::Var { .. } => {
                assert(sub_decls(ds) =~= sub_decls(pre));
                lemma_scope_views_below(pre, base, n);
                assert(scope_views(ds, base) =~= scope_views(pre, base));
            },
        }
    }
}

proof fn lemma_new_items_below(ds: Seq<DeclView>, base: nat, n: nat)
    requires
        base + all_decls(ds).len() <= n <= usize::MAX,
    ensures
        items_below(new_items(ds, base), n),
    decreases ds, 1nat,
{
    lemma_value_views_below(ds, base, n);
    lemma_scope_views_below(ds, base + level_decls(ds).len(), n);
    lemma_items_below_concat(value_views(ds, base), scope_views(ds, base + level_decls(ds).len()), n);
}

/// Builds a trace under a root scope `top` from the declared items, with an
/// empty stream per variable. Returns it with each variable's identifier
/// and stream index.
pub fn make_value_tree(items: &Vec<Declaration>) -> (r: (TimeSeries, Vec<(vcd::IdCode, usize)>))
    ensures
        r.0.wf(),
        r.0.scope@ == (ScopeView {
            name: "top"@,
            items: sort_items(new_items(decls_view(items@), 0)),
            open: true,
        }),
        opened_for(r.0.values@, 0, all_decls(decls_view(items@))),
        coded(r.1@, 0, all_decls(decls_view(items@))),
        r.0.time_scale.0 == 1,
        r.0.time_scale.1@ == "tau"@,
{
    let mut ts = TimeSeries::new();
    let map = append_to_scope(&mut ts.scope, &mut ts.values, items);
    let _count = ts.values.len();
    proof {
        let ds = decls_view(items@);
        assert(Seq::<ItemView>::empty() + new_items(ds, 0) =~= new_items(ds, 0));
        lemma_new_items_below(ds, 0, ts.values@.len());
        lemma_sort_below(new_items(ds, 0), ts.values@.len());
        assert forall|i: int| 0 <= i < ts.values@.len() implies #[trigger] ts.values@[i].wf() by {
            let d = all_decls(ds);
            assert(opens(d[i].0, ts.values@[0 + i]));
        }
    }
    (ts, map)
}

} // verus!
