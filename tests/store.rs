use vcd::Value::{V0, V1, X, Z};
use tuiwave::timeseries::{
    Bits, Sample, StoreError, TimeSeries, UInt, ValueChange, ValueChangeStream, ValueChangeStreamImpl,
};

fn stream_at(times: &[u64]) -> ValueChangeStreamImpl<Bits> {
    let mut s = ValueChangeStreamImpl::new();
    for (k, t) in times.iter().enumerate() {
        s.stream.push(ValueChange::new(*t, Bits::B(k % 2 == 1)));
    }
    s
}

fn scan_before(times: &[u64], t: u64) -> Option<usize> {
    (0..times.len()).filter(|&i| times[i] <= t).last()
}

fn scan_after(times: &[u64], t: u64) -> Option<usize> {
    (0..times.len()).find(|&i| times[i] >= t)
}

#[test]
fn queries_agree_with_linear_scan() {
    let times = [1u64, 3, 5, 8, 13];
    let s = stream_at(&times);
    for t in 0..16u64 {
        assert_eq!(s.change_before(t), scan_before(&times, t), "change_before({})", t);
        assert_eq!(s.change_after(t), scan_after(&times, t), "change_after({})", t);
    }
}

#[test]
fn query_before_first_change() {
    let s = stream_at(&[5, 9]);
    assert_eq!(s.change_before(0), None);
    assert_eq!(s.change_after(0), Some(0));
}

#[test]
fn exact_time_is_found_by_both_queries() {
    let s = stream_at(&[2, 4, 6]);
    assert_eq!(s.change_before(4), Some(1));
    assert_eq!(s.change_after(4), Some(1));
    assert_eq!(s.change_after(7), None);
}

#[test]
fn empty_stream_queries() {
    let s: ValueChangeStreamImpl<Bits> = ValueChangeStreamImpl::new();
    assert_eq!(s.change_before(0), None);
    assert_eq!(s.change_after(0), None);
    assert_eq!(s.change_before(u64::MAX), None);
    assert_eq!(s.last_change_time(), 0);
}

#[test]
fn largest_time_queries() {
    let s = stream_at(&[0, u64::MAX]);
    assert_eq!(s.change_before(u64::MAX), Some(1));
    assert_eq!(s.change_after(u64::MAX), Some(1));
    assert_eq!(s.change_before(0), Some(0));
    assert_eq!(s.last_change_time(), u64::MAX);
}

#[test]
fn last_change_time_of_streams() {
    let s = stream_at(&[3, 7, 11]);
    assert_eq!(s.last_change_time(), 11);
    assert_eq!(ValueChangeStream::Bits(s).last_change_time(), 11);
    assert_eq!(ValueChangeStream::Unknown.last_change_time(), 0);
}

fn store_with_kinds() -> TimeSeries {
    let mut ts = TimeSeries::new();
    ts.values.push(ValueChangeStream::Bits(ValueChangeStreamImpl::new()));
    ts.values.push(ValueChangeStream::Real(ValueChangeStreamImpl::new()));
    ts.values.push(ValueChangeStream::String(ValueChangeStreamImpl::new()));
    ts
}

#[test]
fn append_rejects_a_missing_stream() {
    let mut ts = store_with_kinds();
    assert_eq!(ts.append(3, 0, Sample::Bits(Bits::X)), Err(StoreError::IndexOutOfRange));
    assert_eq!(ts.values.len(), 3);
}

#[test]
fn append_rejects_another_kind() {
    let mut ts = store_with_kinds();
    assert_eq!(ts.append(0, 0, Sample::Real(1.5f64.to_bits())), Err(StoreError::KindMismatch));
    assert_eq!(ts.append(1, 0, Sample::String("a".to_string())), Err(StoreError::KindMismatch));
    assert_eq!(ts.append(2, 0, Sample::Bits(Bits::Z)), Err(StoreError::KindMismatch));
}

#[test]
fn append_keeps_the_last_write_of_a_tick() {
    let mut ts = store_with_kinds();
    assert_eq!(ts.append(0, 4, Sample::Bits(Bits::B(false))), Ok(()));
    assert_eq!(ts.append(0, 4, Sample::Bits(Bits::B(true))), Ok(()));
    assert_eq!(ts.append(0, 6, Sample::Bits(Bits::X)), Ok(()));
    match &ts.values[0] {
        ValueChangeStream::Bits(xs) => {
            assert_eq!(xs.stream, vec![ValueChange::new(4, Bits::B(true)), ValueChange::new(6, Bits::X)]);
        }
        _ => panic!("stream kind changed"),
    }
}

#[test]
fn append_real_and_text_samples() {
    let mut ts = store_with_kinds();
    assert_eq!(ts.append(1, 2, Sample::Real(0.25f64.to_bits())), Ok(()));
    assert_eq!(ts.append(2, 3, Sample::String("idle".to_string())), Ok(()));
    match (&ts.values[1], &ts.values[2]) {
        (ValueChangeStream::Real(r), ValueChangeStream::String(s)) => {
            assert_eq!(f64::from_bits(r.stream[0].new_value), 0.25);
            assert_eq!(s.stream[0].new_value, "idle");
            assert_eq!(s.stream[0].time, 3);
        }
        _ => panic!("stream kinds changed"),
    }
}

#[test]
fn scalar_decoding() {
    assert_eq!(Bits::from_vcd_scalar(vcd::Value::V0), Bits::B(false));
    assert_eq!(Bits::from_vcd_scalar(vcd::Value::V1), Bits::B(true));
    assert_eq!(Bits::from_vcd_scalar(vcd::Value::X), Bits::X);
    assert_eq!(Bits::from_vcd_scalar(vcd::Value::Z), Bits::Z);
}

#[test]
fn vector_decoding_reads_most_significant_first() {
    let v = vcd::Vector::from(vec![V1, V0, V1, V1]);
    assert_eq!(Bits::from_vcd_vector(v), Bits::V(UInt::new(0b1011, 4)));
    let v = vcd::Vector::from(vec![V0, Z, V1, X]);
    assert_eq!(Bits::from_vcd_vector(v), Bits::Z);
    let v = vcd::Vector::from(vec![X, Z]);
    assert_eq!(Bits::from_vcd_vector(v), Bits::X);
}

#[test]
fn vector_decoding_of_narrow_vectors() {
    assert_eq!(Bits::from_vcd_vector(vcd::Vector::from(Vec::new())), Bits::B(false));
    assert_eq!(Bits::from_vcd_vector(vcd::Vector::from(vec![V1])), Bits::B(true));
    assert_eq!(Bits::from_vcd_vector(vcd::Vector::from(vec![Z])), Bits::Z);
}

#[test]
fn vector_decoding_of_the_widest_vector() {
    let v = vcd::Vector::from(vec![vcd::Value::V1; 128]);
    assert_eq!(Bits::from_vcd_vector(v), Bits::V(UInt::new(u128::MAX, 128)));
    let mut bits = vec![vcd::Value::V0; 128];
    bits[0] = vcd::Value::V1;
    assert_eq!(Bits::from_bit_values(&bits), Bits::V(UInt::new(1u128 << 127, 128)));
}

#[test]
fn over_wide_vectors_are_refused() {
    let v = vcd::Vector::from(vec![vcd::Value::V1; 129]);
    assert_eq!(Bits::checked_from_vcd_vector(v), None);
    let v = vcd::Vector::from(vec![vcd::Value::V1, vcd::Value::V0]);
    assert_eq!(Bits::checked_from_vcd_vector(v), Some(Bits::V(UInt::new(2, 2))));
}
