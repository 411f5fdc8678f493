use tuiwave::render::{
    format_time_series_bits, StyleTag, StyledString, FALLING, HIGH, LOW, NEUTRAL, RISING, WARNING,
};
use tuiwave::timeseries::{Bits, UInt, ValueChange, ValueChangeStreamImpl};

fn stream(changes: &[(u64, Bits)]) -> ValueChangeStreamImpl<Bits> {
    let mut s = ValueChangeStreamImpl::new();
    for (t, v) in changes {
        s.stream.push(ValueChange::new(*t, *v));
    }
    s
}

fn parts(segs: &[StyledString]) -> Vec<(String, StyleTag)> {
    segs.iter().map(|s| (s.string.clone(), s.style)).collect()
}

fn width(segs: &[StyledString]) -> usize {
    segs.iter().map(|s| s.string.chars().count()).sum()
}

fn rep(c: char, n: usize) -> String {
    std::iter::repeat(c).take(n).collect()
}

#[test]
fn scenario_three_changes() {
    let s = stream(&[(0, Bits::B(false)), (3, Bits::B(true)), (5, Bits::X)]);
    let segs = format_time_series_bits(&s, 0, 8, 2);
    assert_eq!(
        parts(&segs),
        vec![
            (rep(LOW, 5), StyleTag::Level),
            (RISING.to_string(), StyleTag::Level),
            (rep(HIGH, 3), StyleTag::Level),
            (WARNING.to_string(), StyleTag::Warning),
            ("  X   ".to_string(), StyleTag::Alarm),
        ]
    );
    assert_eq!(width(&segs), 16);
}

#[test]
fn empty_stream_renders_high_impedance() {
    let s = stream(&[]);
    let segs = format_time_series_bits(&s, 2, 5, 2);
    assert_eq!(parts(&segs), vec![("  Z   ".to_string(), StyleTag::Alarm)]);
    let segs = format_time_series_bits(&s, 0, 1, 3);
    assert_eq!(parts(&segs), vec![(" Z ".to_string(), StyleTag::Alarm)]);
}

#[test]
fn empty_window_renders_nothing() {
    let s = stream(&[(4, Bits::B(true))]);
    assert_eq!(format_time_series_bits(&s, 4, 4, 2).len(), 0);
    assert_eq!(format_time_series_bits(&s, 9, 9, 5).len(), 0);
}

#[test]
fn width_is_exact_for_every_window() {
    let s = stream(&[
        (1, Bits::B(true)),
        (2, Bits::B(false)),
        (4, Bits::V(UInt::new(0xbeef, 16))),
        (9, Bits::Z),
        (10, Bits::B(true)),
    ]);
    for w in 2..5u64 {
        for from in 0..12u64 {
            for to in from..13u64 {
                let segs = format_time_series_bits(&s, from, to, w);
                assert_eq!(width(&segs) as u64, w * (to - from), "window [{}, {}) at {}", from, to, w);
            }
        }
    }
}

#[test]
fn value_in_effect_before_the_window() {
    let s = stream(&[(1, Bits::B(true)), (6, Bits::B(false))]);
    let segs = format_time_series_bits(&s, 3, 8, 2);
    assert_eq!(
        parts(&segs),
        vec![
            (rep(HIGH, 5), StyleTag::Level),
            (FALLING.to_string(), StyleTag::Level),
            (rep(LOW, 4), StyleTag::Level),
        ]
    );
}

#[test]
fn change_at_window_start_sets_the_first_value() {
    let s = stream(&[(2, Bits::B(true)), (4, Bits::B(false))]);
    let segs = format_time_series_bits(&s, 2, 5, 2);
    assert_eq!(
        parts(&segs),
        vec![
            (rep(HIGH, 3), StyleTag::Level),
            (FALLING.to_string(), StyleTag::Level),
            (rep(LOW, 2), StyleTag::Level),
        ]
    );
}

#[test]
fn vectors_render_as_padded_or_cut_hex() {
    let s = stream(&[(0, Bits::V(UInt::new(0xab, 8))), (3, Bits::V(UInt::new(0x1234f, 20)))]);
    let segs = format_time_series_bits(&s, 0, 4, 2);
    assert_eq!(
        parts(&segs),
        vec![
            ("ab   ".to_string(), StyleTag::Vector),
            (NEUTRAL.to_string(), StyleTag::Level),
            ("12".to_string(), StyleTag::Vector),
        ]
    );
}

#[test]
fn edges_into_and_out_of_unresolved_values_warn() {
    let s = stream(&[(0, Bits::Z), (1, Bits::B(true)), (2, Bits::X), (3, Bits::Z)]);
    let segs = format_time_series_bits(&s, 0, 4, 3);
    let glyphs: Vec<(String, StyleTag)> = parts(&segs).into_iter().skip(1).step_by(2).collect();
    assert_eq!(
        glyphs,
        vec![
            (WARNING.to_string(), StyleTag::Warning),
            (WARNING.to_string(), StyleTag::Warning),
            (WARNING.to_string(), StyleTag::Warning),
        ]
    );
    assert_eq!(segs[0].string, "Z ");
    assert_eq!(segs[4].string, "X ");
}
