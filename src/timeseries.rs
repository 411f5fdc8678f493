//! Logic values, time-ordered change streams and the scope hierarchy.

use vstd::arithmetic::power2::{lemma2_to64, lemma2_to64_rest, lemma_pow2_adds, lemma_pow2_pos, lemma_pow2_unfold, pow2};
use vstd::prelude::*;
use crate::vcd_types::{vector_bits, vector_values};

verus! {

/// An unsigned value of up to 128 bits together with its declared width.
#[derive(Debug, Clone, Copy, PartialEq, Eq, Structural)]
pub struct UInt {
    pub value: u128,
    pub width: usize,
}

impl UInt {
    pub fn new(value: u128, width: usize) -> (r: UInt)
        ensures
            r.value == value,
            r.width == width,
    {
        UInt { value, width }
    }
}

/// A 4-state logic sample: a single bit, a resolved vector, unknown or
/// high impedance.
#[derive(Debug, Clone, Copy, PartialEq, Eq, Structural)]
pub enum Bits {
    B(bool),
    V(UInt),
    X,
    Z,
}

/// The logic value of one vcd scalar.
pub open spec fn scalar_bits(v: vcd::Value) -> Bits {
    match v {
        vcd::Value::V0 => Bits::B(false),
        vcd::Value::V1 => Bits::B(true),
        vcd::Value::X => Bits::X,
        vcd::Value::Z => Bits::Z,
    }
}

/// The first unknown or floating scalar, most significant first, as a value.
pub open spec fn first_unresolved(bits: Seq<vcd::Value>) -> Option<Bits>
    decreases bits.len(),
{
    if bits.len() == 0 {
        None
    } else {
        match first_unresolved(bits.drop_last()) {
            Some(b) => Some(b),
            None => match bits.last() {
                vcd::Value::X => Some(Bits::X),
                vcd::Value::Z => Some(Bits::Z),
                _ => None,
            },
        }
    }
}

/// The unsigned number the scalars spell, most significant first, reading
/// unresolved scalars as 0.
pub open spec fn bits_number(bits: Seq<vcd::Value>) -> nat
    decreases bits.len(),
{
    if bits.len() == 0 {
        0
    } else {
        2 * bits_number(bits.drop_last()) + if bits.last() == vcd::Value::V1 { 1nat } else { 0nat }
    }
}

/// The logic value of a vcd vector: a bit for widths 0 and 1, else the first
/// unresolved scalar if there is one, else the number with its width.
pub open spec fn vector_value(bits: Seq<vcd::Value>) -> Bits {
    if bits.len() == 0 {
        Bits::B(false)
    } else if bits.len() == 1 {
        scalar_bits(bits[0])
    } else {
        match first_unresolved(bits) {
            Some(b) => b,
            None => Bits::V(UInt { value: bits_number(bits) as u128, width: bits.len() as usize }),
        }
    }
}

proof fn lemma_bits_number_bound(bits: Seq<vcd::Value>)
    ensures
        bits_number(bits) < pow2(bits.len()),
    decreases bits.len(),
{
    lemma_pow2_pos(bits.len());
    if bits.len() > 0 {
        lemma_bits_number_bound(bits.drop_last());
        lemma_pow2_unfold(bits.len());
    } else {
        lemma2_to64();
    }
}

proof fn lemma_first_unresolved_prefix(bits: Seq<vcd::Value>, k: int)
    requires
        0 <= k <= bits.len(),
        first_unresolved(bits.take(k)) is Some,
    ensures
        first_unresolved(bits) == first_unresolved(bits.take(k)),
    decreases bits.len() - k,
{
    if k < bits.len() {
        assert(bits.take(k + 1).drop_last() =~= bits.take(k));
        lemma_first_unresolved_prefix(bits, k + 1);
    } else {
        assert(bits.take(k) =~= bits);
    }
}

impl Bits {
    pub fn from_vcd_scalar(value: vcd::Value) -> (r: Self)
        ensures
            r == scalar_bits(value),
    {
        match value {
            vcd::Value::V0 => Bits::B(false),
            vcd::Value::V1 => Bits::B(true),
            vcd::Value::X => Bits::X,
            vcd::Value::Z => Bits::Z,
        }
    }

    /// Decodes a vector of at most 128 scalars.
    pub fn from_bit_values(bits: &Vec<vcd::Value>) -> (r: Self)
        requires
            bits@.len() <= 128,
        ensures
            r == vector_value(bits@),
    {
        let w = bits.len();
        if w == 0 {
            return Bits::B(false);
        }
        if w == 1 {
            return Bits::from_vcd_scalar(bits[0]);
        }
        let mut value: u128 = 0;
        let mut i: usize = 0;
        while i < w
            invariant
                w == bits@.len(),
                2 <= w <= 128,
                i <= w,
                first_unresolved(bits@.take(i as int)) is None,
                value == bits_number(bits@.take(i as int)),
            decreases w - i,
        {
            let ghost pre = bits@.take(i as int);
            assert(bits@.take(i + 1).drop_last() =~= pre);
            proof {
                lemma_bits_number_bound(pre);
                lemma_pow2_adds(i as nat, (128 - i) as nat);
                lemma_pow2_unfold((128 - i) as nat);
                lemma_pow2_pos((127 - i) as nat);
                lemma2_to64_rest();
                lemma_pow2_adds(64, 64);
                assert(pow2(64) * pow2(64) == u128::MAX + 1);
                assert(2 * value + 1 <= u128::MAX) by (nonlinear_arith)
                    requires
                        value < pow2(i as nat),
                        pow2(i as nat) * pow2((128 - i) as nat) == pow2(128),
                        pow2((128 - i) as nat) >= 2,
                        pow2(128) == u128::MAX + 1,
                ;
            }
            match bits[i] {
                vcd::Value::V0 => {
                    value = 2 * value;
                },
                vcd::Value::V1 => {
                    value = 2 * value + 1;
                },
                vcd::Value::X => {
                    proof {
                        lemma_first_unresolved_prefix(bits@, i + 1);
                    }
                    return Bits::X;
                },
                vcd::Value::Z => {
                    proof {
                        lemma_first_unresolved_prefix(bits@, i + 1);
                    }
                    return Bits::Z;
                },
            }
            i += 1;
        }
        assert(bits@.take(w as int) =~= bits@);
        Bits::V(UInt::new(value, w))
    }

    /// Decodes a vcd vector of at most 128 scalars.
    pub fn from_vcd_vector(value: vcd::Vector) -> (r: Self)
        requires
            vector_bits(value).len() <= 128,
        ensures
            r == vector_value(vector_bits(value)),
    {
        let bits = vector_values(&value);
        Bits::from_bit_values(&bits)
    }

    /// Decodes a vcd vector, or gives `None` where it is wider than 128
    /// scalars.
    pub fn checked_from_vcd_vector(value: vcd::Vector) -> (r: Option<Self>)
        ensures
            r is Some <==> vector_bits(value).len() <= 128,
            r matches Some(b) ==> b == vector_value(vector_bits(value)),
    {
        let bits = vector_values(&value);
        if bits.len() <= 128 {
            Some(Bits::from_bit_values(&bits))
        } else {
            None
        }
    }
}

/// One change of a signal: from `time` on, the signal holds `new_value`.
#[derive(Debug, Clone, PartialEq)]
pub struct ValueChange<T> {
    pub time: u64,
    pub new_value: T,
}

impl<T> ValueChange<T> {
    pub fn new(time: u64, new_value: T) -> (r: Self)
        ensures
            r.time == time,
            r.new_value == new_value,
    {
        Self { time, new_value }
    }
}

/// The sequence of changes of one signal, ordered by strictly increasing time.
#[derive(Debug, Clone, PartialEq)]
pub struct ValueChangeStreamImpl<T> {
    pub stream: Vec<ValueChange<T>>,
}

/// Times strictly increase along the sequence.
pub open spec fn times_increasing<T>(s: Seq<ValueChange<T>>) -> bool {
    forall|i: int, j: int| 0 <= i < j < s.len() ==> #[trigger] s[i].time < #[trigger] s[j].time
}

impl<T> ValueChangeStreamImpl<T> {
    pub open spec fn wf(&self) -> bool {
        times_increasing(self.stream@)
    }

    pub open spec fn len(&self) -> nat {
        self.stream@.len()
    }

    /// Time of the last change, 0 where there is none.
    pub open spec fn last_time(&self) -> u64 {
        if self.len() > 0 {
            self.stream@.last().time
        } else {
            0
        }
    }

    pub fn new() -> (r: Self)
        ensures
            r.stream@.len() == 0,
            r.wf(),
    {
        Self { stream: Vec::new() }
    }

    /// Index of the latest change at or before `t`.
    pub fn change_before(&self, t: u64) -> (r: Option<usize>)
        requires
            self.wf(),
        ensures
            r matches Some(i) ==> i < self.len() && self.stream@[i as int].time <= t && forall|j: int|
                i < j < self.len() ==> t < #[trigger] self.stream@[j].time,
            r is None ==> forall|j: int| 0 <= j < self.len() ==> t < #[trigger] self.stream@[j].time,
    {
        let n = self.stream.len();
        if n == 0 || t < self.stream[0].time {
            return None;
        }
        // invariant: time[lower] <= t, and every index at or past `upper` is after t
        let mut lower: usize = 0;
        let mut upper: usize = n;
        while 1 < upper - lower
            invariant
                self.wf(),
                n == self.len(),
                lower < upper <= n,
                self.stream@[lower as int].time <= t,
                forall|j: int| upper <= j < n ==> t < #[trigger] self.stream@[j].time,
            decreases upper - lower,
        {
            let mid = lower + (upper - lower) / 2;
            if self.stream[mid].time <= t {
                lower = mid;
            } else {
                upper = mid;
            }
        }
        Some(lower)
    }

    /// Index of the earliest change at or after `t`.
    pub fn change_after(&self, t: u64) -> (r: Option<usize>)
        requires
            self.wf(),
        ensures
            r matches Some(i) ==> i < self.len() && t <= self.stream@[i as int].time && forall|j: int|
                0 <= j < i ==> #[trigger] self.stream@[j].time < t,
            r is None ==> forall|j: int| 0 <= j < self.len() ==> #[trigger] self.stream@[j].time < t,
    {
        let n = self.stream.len();
        if n == 0 || self.stream[n - 1].time < t {
            return None;
        }
        // invariant: every index before `lower` is before t, and time[upper] >= t
        let mut lower: usize = 0;
        let mut upper: usize = n - 1;
        while lower < upper
            invariant
                self.wf(),
                n == self.len(),
                lower <= upper < n,
                t <= self.stream@[upper as int].time,
                forall|j: int| 0 <= j < lower ==> #[trigger] self.stream@[j].time < t,
            decreases upper - lower,
        {
            let mid = lower + (upper - lower) / 2;
            if self.stream[mid].time < t {
                lower = mid + 1;
            } else {
                upper = mid;
            }
        }
        Some(upper)
    }

    /// The time of the last change, or 0 for an empty stream.
    pub fn last_change_time(&self) -> (r: u64)
        requires
            self.wf(),
        ensures
            r == self.last_time(),
            forall|j: int| 0 <= j < self.len() ==> #[trigger] self.stream@[j].time <= r,
    {
        let n = self.stream.len();
        if n == 0 {
            0
        } else {
            self.stream[n - 1].time
        }
    }
}


/// The change stream of one signal, by kind. Real-valued samples are kept
/// as the IEEE-754 bit patterns of their `f64` values.
#[derive(Debug, Clone, PartialEq)]
pub enum ValueChangeStream {
    Bits(ValueChangeStreamImpl<Bits>),
    Real(ValueChangeStreamImpl<u64>),
    String(ValueChangeStreamImpl<String>),
    Unknown,
}

impl ValueChangeStream {
    pub open spec fn wf(&self) -> bool {
        match self {
            ValueChangeStream::Bits(xs) => xs.wf(),
            ValueChangeStream::Real(xs) => xs.wf(),
            ValueChangeStream::String(xs) => xs.wf(),
            ValueChangeStream::Unknown => true,
        }
    }

    /// Time of the last change of the stream, 0 where it holds none.
    pub open spec fn spec_last_change_time(&self) -> u64 {
        match self {
            ValueChangeStream::Bits(xs) => xs.last_time(),
            ValueChangeStream::Real(xs) => xs.last_time(),
            ValueChangeStream::String(xs) => xs.last_time(),
            ValueChangeStream::Unknown => 0,
        }
    }

    pub fn last_change_time(&self) -> (r: u64)
        requires
            self.wf(),
        ensures
            r == self.spec_last_change_time(),
    {
        match self {
            ValueChangeStream::Bits(xs) => xs.last_change_time(),
            ValueChangeStream::Real(xs) => xs.last_change_time(),
            ValueChangeStream::String(xs) => xs.last_change_time(),
            ValueChangeStream::Unknown => 0,
        }
    }
}

/// A named node of the signal hierarchy. `open` is the disclosure state of
/// the node in the tree pane.
#[derive(Debug, PartialEq)]
pub struct Scope {
    pub name: String,
    pub items: Vec<ScopeItem>,
    pub open: bool,
}

/// A signal leaf: its name, the index of its stream in the store, and
/// whether it is selected for display.
#[derive(Debug, Clone, PartialEq)]
pub struct ScopeValue {
    pub name: String,
    pub index: usize,
    pub render: bool,
}

#[derive(Debug, PartialEq)]
pub enum ScopeItem {
    Scope(Scope),
    Value(ScopeValue),
}

/// The mathematical view of a scope.
pub ghost struct ScopeView {
    pub name: Seq<char>,
    pub items: Seq<ItemView>,
    pub open: bool,
}

/// The mathematical view of a signal leaf.
pub ghost struct SignalView {
    pub name: Seq<char>,
    pub index: usize,
    pub render: bool,
}

pub ghost enum ItemView {
    Scope(ScopeView),
    Value(SignalView),
}

pub open spec fn scope_view(s: Scope) -> ScopeView
    decreases s, 1nat,
{
    ScopeView { name: s.name@, items: items_view(s.items@), open: s.open }
}

pub open spec fn items_view(items: Seq<ScopeItem>) -> Seq<ItemView>
    decreases items, 0nat,
{
    if items.len() == 0 {
        Seq::empty()
    } else {
        items_view(items.drop_last()).push(item_view(items.last()))
    }
}

pub open spec fn item_view(item: ScopeItem) -> ItemView
    decreases item, 2nat,
{
    match item {
        ScopeItem::Scope(s) => ItemView::Scope(scope_view(s)),
        ScopeItem::Value(v) => ItemView::Value(v@),
    }
}

impl View for Scope {
    type V = ScopeView;

    open spec fn view(&self) -> ScopeView {
        scope_view(*self)
    }
}

impl View for ScopeValue {
    type V = SignalView;

    open spec fn view(&self) -> SignalView {
        SignalView { name: self.name@, index: self.index, render: self.render }
    }
}

pub proof fn lemma_items_view(items: Seq<ScopeItem>)
    ensures
        items_view(items).len() == items.len(),
        forall|j: int| 0 <= j < items.len() ==> #[trigger] items_view(items)[j] == item_view(items[j]),
    decreases items.len(),
{
    if items.len() > 0 {
        lemma_items_view(items.drop_last());
    }
}

/// A scope is rendered iff one of its items is.
pub open spec fn scope_rendered(s: ScopeView) -> bool
    decreases s, 1nat,
{
    items_rendered(s.items)
}

/// Some item of the sequence is rendered.
pub open spec fn items_rendered(items: Seq<ItemView>) -> bool
    decreases items, 0nat,
{
    if items.len() == 0 {
        false
    } else {
        items_rendered(items.drop_last()) || item_rendered(items.last())
    }
}

pub open spec fn item_rendered(item: ItemView) -> bool
    decreases item, 2nat,
{
    match item {
        ItemView::Scope(s) => scope_rendered(s),
        ItemView::Value(v) => v.render,
    }
}

impl Scope {
    pub fn new(name: &str) -> (r: Self)
        ensures
            r.name@ == name@,
            r.items@.len() == 0,
            r.open,
    {
        Scope { name: name.to_string(), items: Vec::new(), open: true }
    }

    pub fn should_be_rendered(&self) -> (r: bool)
        ensures
            r == scope_rendered(self@),
        decreases self, 1nat,
    {
        let ghost iv = items_view(self.items@);
        proof {
            lemma_items_view(self.items@);
        }
        let mut acc = false;
        let mut i: usize = 0;
        while i < self.items.len()
            invariant
                i <= self.items@.len(),
                iv.len() == self.items@.len(),
                forall|j: int| 0 <= j < iv.len() ==> #[trigger] iv[j] == item_view(self.items@[j]),
                iv == items_view(self.items@),
                acc == items_rendered(iv.subrange(0, i as int)),
            decreases self.items@.len() - i,
        {
            proof {
                assert(iv.subrange(0, i + 1).drop_last() == iv.subrange(0, i as int));
            }
            let e = self.items[i].should_be_rendered();
            acc = acc || e;
            i += 1;
        }
        proof {
            assert(iv.subrange(0, i as int) == iv);
        }
        acc
    }
}

impl ScopeValue {
    pub fn new(name: &str, index: usize) -> (r: Self)
        ensures
            r.name@ == name@,
            r.index == index,
            r.render,
    {
        ScopeValue { name: name.to_string(), index, render: true }
    }

    pub fn should_be_rendered(&self) -> (r: bool)
        ensures
            r == self.render,
    {
        self.render
    }
}

impl ScopeItem {
    pub fn should_be_rendered(&self) -> (r: bool)
        ensures
            r == item_rendered(item_view(*self)),
        decreases self, 2nat,
    {
        match self {
            ScopeItem::Scope(s) => s.should_be_rendered(),
            ScopeItem::Value(v) => v.should_be_rendered(),
        }
    }
}


/// Every signal below the scope refers to a stream index below `n`.
pub open spec fn signals_below(s: ScopeView, n: nat) -> bool
    decreases s, 1nat,
{
    items_below(s.items, n)
}

pub open spec fn items_below(items: Seq<ItemView>, n: nat) -> bool
    decreases items, 0nat,
{
    if items.len() == 0 {
        true
    } else {
        items_below(items.drop_last(), n) && match items.last() {
            ItemView::Scope(sub) => signals_below(sub, n),
            ItemView::Value(v) => v.index < n,
        }
    }
}

/// The largest last-change time over the streams, 0 where there are none.
pub open spec fn max_last_time(values: Seq<ValueChangeStream>) -> u64
    decreases values.len(),
{
    if values.len() == 0 {
        0
    } else {
        let m = max_last_time(values.drop_last());
        let t = values.last().spec_last_change_time();
        if t > m {
            t
        } else {
            m
        }
    }
}

/// One sample to store, by signal kind. A real sample is the IEEE-754 bit
/// pattern of its `f64` value.
#[derive(Debug, Clone, PartialEq)]
pub enum Sample {
    Bits(Bits),
    Real(u64),
    String(String),
}

/// Why a sample could not be stored.
#[derive(Debug, Clone, Copy, PartialEq, Eq, Structural)]
pub enum StoreError {
    /// no stream has the given index
    IndexOutOfRange,
    /// the stream holds samples of another kind
    KindMismatch,
}

/// The stream with `value` recorded at `time`: it replaces a change already
/// recorded at that time, else it is appended.
pub open spec fn with_change<T>(s: Seq<ValueChange<T>>, time: u64, value: T) -> Seq<ValueChange<T>> {
    if s.len() > 0 && s.last().time == time {
        s.drop_last().push(ValueChange { time, new_value: value })
    } else {
        s.push(ValueChange { time, new_value: value })
    }
}

/// The changes of a stream, with the values in the form of a sample.
pub open spec fn stream_samples(v: ValueChangeStream) -> Seq<ValueChange<Sample>> {
    match v {
        ValueChangeStream::Bits(xs) => xs.stream@.map_values(
            |c: ValueChange<Bits>| ValueChange { time: c.time, new_value: Sample::Bits(c.new_value) },
        ),
        ValueChangeStream::Real(xs) => xs.stream@.map_values(
            |c: ValueChange<u64>| ValueChange { time: c.time, new_value: Sample::Real(c.new_value) },
        ),
        ValueChangeStream::String(xs) => xs.stream@.map_values(
            |c: ValueChange<String>| ValueChange { time: c.time, new_value: Sample::String(c.new_value) },
        ),
        ValueChangeStream::Unknown => Seq::empty(),
    }
}

/// The sample is of the stream's kind.
pub open spec fn kind_matches(v: ValueChangeStream, sample: Sample) -> bool {
    match (v, sample) {
        (ValueChangeStream::Bits(_), Sample::Bits(_)) => true,
        (ValueChangeStream::Real(_), Sample::Real(_)) => true,
        (ValueChangeStream::String(_), Sample::String(_)) => true,
        _ => false,
    }
}

/// The same streams but perhaps the one at `k`.
pub open spec fn others_kept(a: Seq<ValueChangeStream>, b: Seq<ValueChangeStream>, k: int) -> bool {
    &&& a.len() == b.len()
    &&& forall|i: int| 0 <= i < a.len() && i != k ==> #[trigger] a[i] == b[i]
}

/// The stream's last change is at or before `time`.
pub open spec fn accepts_time(v: ValueChangeStream, time: u64) -> bool {
    v.spec_last_change_time() <= time
}

fn push_change<T>(xs: &mut ValueChangeStreamImpl<T>, time: u64, value: T)
    requires
        old(xs).wf(),
        old(xs).last_time() <= time,
    ensures
        final(xs).wf(),
        final(xs).stream@ == with_change(old(xs).stream@, time, value),
{
    let n = xs.stream.len();
    if n > 0 && xs.stream[n - 1].time == time {
        xs.stream.pop();
    }
    xs.stream.push(ValueChange::new(time, value));
}

/// A loaded trace: the scope hierarchy, one change stream per signal, and
/// the time unit (a multiplier and a unit name).
#[derive(Debug)]
pub struct TimeSeries {
    pub scope: Scope,
    pub values: Vec<ValueChangeStream>,
    pub time_scale: (u32, String),
}

impl TimeSeries {
    /// Streams are time-ordered and every signal of the tree has a stream.
    pub open spec fn wf(&self) -> bool {
        &&& signals_below(self.scope@, self.values@.len())
        &&& forall|i: int| 0 <= i < self.values@.len() ==> #[trigger] self.values@[i].wf()
    }

    pub fn new() -> (r: Self)
        ensures
            r.scope@.name == "top"@,
            r.scope@.items.len() == 0,
            r.scope@.open,
            r.values@.len() == 0,
            r.time_scale.0 == 1,
            r.time_scale.1@ == "tau"@,
            r.wf(),
    {
        TimeSeries { scope: Scope::new("top"), values: Vec::new(), time_scale: (1, "tau".to_string()) }
    }

    /// Records `sample` at `time` on stream `signal_index`; a change already
    /// recorded at that time is replaced (the last write of a tick wins).
    pub fn append(&mut self, signal_index: usize, time: u64, sample: Sample) -> (r: Result<
        (),
        StoreError,
    >)
        requires
            old(self).wf(),
            signal_index < old(self).values@.len() ==> accepts_time(
                old(self).values@[signal_index as int],
                time,
            ),
        ensures
            final(self).wf(),
            final(self).scope == old(self).scope,
            final(self).time_scale == old(self).time_scale,
            signal_index >= old(self).values@.len() <==> r == Err::<(), StoreError>(
                StoreError::IndexOutOfRange,
            ),
            signal_index < old(self).values@.len() && !kind_matches(
                old(self).values@[signal_index as int],
                sample,
            ) <==> r == Err::<(), StoreError>(StoreError::KindMismatch),
            r is Err ==> final(self).values@ == old(self).values@,
            r is Ok ==> others_kept(final(self).values@, old(self).values@, signal_index as int),
            r is Ok ==> stream_samples(final(self).values@[signal_index as int]) == with_change(
                stream_samples(old(self).values@[signal_index as int]),
                time,
                sample,
            ),
            r is Ok ==> kind_matches(final(self).values@[signal_index as int], sample),
    {
        if signal_index >= self.values.len() {
            return Err(StoreError::IndexOutOfRange);
        }
        let ghost old_stream = self.values@[signal_index as int];
        let ghost before = self.values@;
        let matched = match (&self.values[signal_index], &sample) {
            (ValueChangeStream::Bits(_), Sample::Bits(_)) => true,
            (ValueChangeStream::Real(_), Sample::Real(_)) => true,
            (ValueChangeStream::String(_), Sample::String(_)) => true,
            _ => false,
        };
        if !matched {
            return Err(StoreError::KindMismatch);
        }
        assert(self.values@[signal_index as int].wf());
        match (&mut self.values[signal_index], sample) {
            (ValueChangeStream::Bits(xs), Sample::Bits(b)) => push_change(xs, time, b),
            (ValueChangeStream::Real(xs), Sample::Real(b)) => push_change(xs, time, b),
            (ValueChangeStream::String(xs), Sample::String(b)) => push_change(xs, time, b),
            _ => {},
        }
        proof {
            let now = self.values@[signal_index as int];
            assert(self.values@ == before.update(signal_index as int, now));
            let o = stream_samples(old_stream);
            let f = stream_samples(now);
            assert(f =~= with_change(o, time, sample));
            assert forall|i: int| 0 <= i < self.values@.len() implies #[trigger] self.values@[i].wf() by {
                if i != signal_index {
                    assert(self.values@[i] == before[i]);
                }
            }
            assert(items_below(self.scope@.items, self.values@.len()) == items_below(self.scope@.items, before.len()));
        }
        Ok(())
    }
}

} // verus!
