use physsim::rng::{draw_below, steps_below, Stream, UNIT_STEPS};
use physsim::text::{
    i64_from_text, is_text, push_decimal, push_signed_decimal, same_text, starts_with_dashes,
    u64_from_text, usize_from_text,
};
use rand::rngs::StdRng;
use rand::{Rng, RngCore, SeedableRng};

#[test]
fn unsigned_texts_read_as_rust_reads_them() {
    assert_eq!(usize_from_text("0"), Some(0));
    assert_eq!(usize_from_text("007"), Some(7));
    assert_eq!(usize_from_text("+12"), Some(12));
    assert_eq!(usize_from_text(""), None);
    assert_eq!(usize_from_text("+"), None);
    assert_eq!(usize_from_text("-1"), None);
    assert_eq!(usize_from_text("1 "), None);
    assert_eq!(usize_from_text("1e3"), None);
    assert_eq!(u64_from_text("18446744073709551615"), Some(u64::MAX));
    assert_eq!(u64_from_text("18446744073709551616"), None);
    for s in ["42", "+42", "-0", "abc", "99999999999999999999"] {
        assert_eq!(u64_from_text(s), s.parse::<u64>().ok(), "{s}");
    }
}

#[test]
fn signed_texts_read_as_rust_reads_them() {
    assert_eq!(i64_from_text("-9223372036854775808"), Some(i64::MIN));
    assert_eq!(i64_from_text("9223372036854775807"), Some(i64::MAX));
    assert_eq!(i64_from_text("9223372036854775808"), None);
    assert_eq!(i64_from_text("-"), None);
    for s in ["-5", "+5", "5", "--5", "-+5", "0", "-0"] {
        assert_eq!(i64_from_text(s), s.parse::<i64>().ok(), "{s}");
    }
}

#[test]
fn decimals_are_written_as_to_string_writes_them() {
    let mut s = String::from("n = ");
    push_decimal(&mut s, 1234567890123);
    assert_eq!(s, "n = 1234567890123");
    for v in [0i64, -1, 42, i64::MIN, i64::MAX] {
        let mut t = String::new();
        push_signed_decimal(&mut t, v);
        assert_eq!(t, v.to_string());
    }
}

#[test]
fn text_comparisons() {
    assert!(same_text("run", "run"));
    assert!(!same_text("run", "runs"));
    assert!(is_text(&"--n".to_string(), "--n"));
    assert!(starts_with_dashes("--out"));
    assert!(!starts_with_dashes("-o"));
    assert!(!starts_with_dashes("dir"));
}

#[test]
fn draws_compare_like_a_uniform_float_draw() {
    let mut a = Stream::new(99);
    let mut b = StdRng::seed_from_u64(99);
    for p in [0.0, 0.1, 0.25, 0.5, 0.9, 1.0] {
        for _ in 0..200 {
            let threshold = (p * UNIT_STEPS as f64).ceil() as u64;
            let u: f64 = b.gen_range(0.0..1.0);
            assert_eq!(draw_below(&mut a, threshold).0, u < p);
        }
    }
    let mut c = Stream::new(1);
    assert!(draw_below(&mut c, UNIT_STEPS).0);
    assert!(!draw_below(&mut c, 0).0);
    for threshold in [1u64, 1 << 20, 1 << 40, 1 << 51] {
        let (taken, word) = draw_below(&mut c, threshold);
        assert_eq!(taken, (word >> 12) < threshold);
    }
}

#[test]
fn step_comparison_uses_the_top_52_bits() {
    assert!(steps_below(0x1000, 2));
    assert!(!steps_below(0x2000, 2));
    assert!(!steps_below(0xfff, 0));
    assert!(steps_below(0xfff, 1));
    assert!(steps_below(u64::MAX, UNIT_STEPS));
    assert!(!steps_below(u64::MAX, UNIT_STEPS - 1));
}

#[test]
fn stream_words_are_the_seeded_generator_words() {
    let mut stream = Stream::new(2026);
    let mut reference = StdRng::seed_from_u64(2026);
    for _ in 0..8 {
        let (_, word) = draw_below(&mut stream, UNIT_STEPS / 2);
        assert_eq!(word, reference.next_u64());
    }
}
