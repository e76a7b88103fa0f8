use lidar_point_cloud_classifier::codec::{
    get_u16, get_u32, get_u64, get_words, push_bytes, push_u16, push_u32, push_u64, push_words,
    read_u16,
};
use lidar_point_cloud_classifier::error::ClassifierError;
use lidar_point_cloud_classifier::ieee::{Real32, Real64};
use lidar_point_cloud_classifier::preprocessing::block_id;
use lidar_point_cloud_classifier::preprocessing::eigen_prepass::compute_n_strips;
use lidar_point_cloud_classifier::preprocessing::subset::sort_refs;
use lidar_point_cloud_classifier::text::{
    chars_of, decimal5_text, decimal_text, is_whitespace, parse_u64_text, parse_u8_text,
    parse_usize_text, signed_decimal_text, split_trimmed, trimmed_text,
};
use lidar_point_cloud_classifier::text_map::{same_map, TextMap};

const NUMBERS: [f64; 16] = [
    0.0,
    -0.0,
    1.0,
    -1.0,
    0.5,
    -2.5,
    50.0,
    1e300,
    -1e300,
    f64::MIN_POSITIVE,
    5e-324,
    f64::MAX,
    f64::MIN,
    f64::INFINITY,
    f64::NEG_INFINITY,
    f64::NAN,
];

fn num(x: f64) -> Real64 {
    Real64 { bits: x.to_bits() }
}

#[test]
fn reals_compare_as_the_machine_does() {
    for a in NUMBERS {
        assert_eq!(num(a).is_finite(), a.is_finite(), "{a}");
        assert_eq!(num(a).is_positive(), a > 0.0, "{a}");
        for b in NUMBERS {
            assert_eq!(num(a).lt(num(b)), a < b, "{a} {b}");
            assert_eq!(num(a).le(num(b)), a <= b, "{a} {b}");
        }
    }
}

#[test]
fn halves_are_exact() {
    for a in NUMBERS {
        let half = f64::from_bits(num(a).half().bits);
        if !a.is_nan() {
            assert_eq!(half.to_bits(), (a / 2.0).to_bits(), "{a}");
        }
    }
    for k in 0..200u64 {
        let a = f64::from_bits(0x0008_0000_0000_0000 + k * 0x0000_1234_5678_9ABD);
        assert_eq!(num(a).half().bits, (a / 2.0).to_bits(), "{a}");
    }
}

#[test]
fn triples_are_rounded_as_the_machine_does() {
    for a in NUMBERS {
        if !a.is_nan() {
            assert_eq!(num(a).triple().bits, (3.0 * a).to_bits(), "{a}");
        }
    }
    let mut bits: u64 = 0x1234_5678_9ABC_DEF1;
    for _ in 0..20_000 {
        bits = bits.wrapping_mul(6_364_136_223_846_793_005).wrapping_add(1_442_695_040_888_963_407);
        let a = f64::from_bits(bits);
        if !a.is_nan() {
            assert_eq!(num(a).triple().bits, (3.0 * a).to_bits(), "{a}");
        }
        let tiny = f64::from_bits(bits >> 11);
        assert_eq!(num(tiny).triple().bits, (3.0 * tiny).to_bits(), "{tiny}");
    }
    for k in 0..64u64 {
        let low = f64::from_bits(0x3FF5_5555_5555_5540 + k);
        assert_eq!(num(low).triple().bits, (3.0 * low).to_bits(), "{low}");
    }
}

#[test]
fn clamps_bound_on_either_side() {
    for a in NUMBERS {
        for limit in [0.0, 5e-324, 1.0, 49.5, f64::MAX, f64::INFINITY] {
            let c = f64::from_bits(num(a).clamp(num(limit)).bits);
            if a.is_nan() {
                assert!(c.is_nan());
            } else {
                assert_eq!(c, a.clamp(-limit, limit), "{a} {limit}");
                assert!(c.abs() <= limit);
            }
        }
        assert_eq!(num(a).negate().bits, (-a).to_bits(), "{a}");
    }
}

#[test]
fn single_reals_compare_as_the_machine_does() {
    let list = [0.0f32, -0.0, 1.5, -1.5, f32::MAX, f32::INFINITY, f32::NAN, 1e-45];
    let one = |x: f32| Real32 { bits: x.to_bits() };
    for a in list {
        assert_eq!(one(a).is_finite(), a.is_finite());
        assert_eq!(one(a).is_positive(), a > 0.0);
        for b in list {
            assert_eq!(one(a).lt(one(b)), a < b);
        }
    }
}

#[test]
fn numbers_are_little_endian_and_read_back() {
    let mut out = vec![7u8];
    push_u16(&mut out, 0x0102);
    push_u32(&mut out, 0x0304_0506);
    push_u64(&mut out, 0x0708_090A_0B0C_0D0E);
    push_words(&mut out, &vec![1, u32::MAX]);
    push_bytes(&mut out, &vec![9, 9]);
    let mut expected = vec![7u8];
    expected.extend_from_slice(&0x0102u16.to_le_bytes());
    expected.extend_from_slice(&0x0304_0506u32.to_le_bytes());
    expected.extend_from_slice(&0x0708_090A_0B0C_0D0Eu64.to_le_bytes());
    expected.extend_from_slice(&1u32.to_le_bytes());
    expected.extend_from_slice(&u32::MAX.to_le_bytes());
    expected.extend_from_slice(&[9, 9]);
    assert_eq!(out, expected);
    assert_eq!(get_u16(&out, 1), 0x0102);
    assert_eq!(get_u32(&out, 3), 0x0304_0506);
    assert_eq!(get_u64(&out, 7), 0x0708_090A_0B0C_0D0E);
    assert_eq!(get_words(&out, 15, 2), vec![1, u32::MAX]);
}

#[test]
fn short_fields_are_refused() {
    for v in [0u16, 1, 255, 256, 0x0102, u16::MAX] {
        let mut b = vec![9u8];
        push_u16(&mut b, v);
        assert_eq!(b[1..], v.to_le_bytes());
        assert_eq!(read_u16(&b, 1), Some(v));
        for at in [2usize, 3, 4, usize::MAX] {
            assert_eq!(read_u16(&b, at), None);
        }
    }
    assert_eq!(read_u16(&vec![], 0), None);
    assert_eq!(read_u16(&vec![1], 0), None);
}

#[test]
fn decimals_read_back() {
    for n in [0u64, 1, 9, 10, 99, 12345, 100_000, u64::MAX] {
        assert_eq!(decimal_text(n), n.to_string());
        assert_eq!(decimal5_text(n), format!("{n:05}"));
        assert_eq!(parse_u64_text(&decimal_text(n)), Some(n));
    }
    for n in [0i32, -1, 7, i32::MIN, i32::MAX] {
        assert_eq!(signed_decimal_text(n), n.to_string());
    }
}

#[test]
fn numbers_are_read_as_the_standard_does() {
    let texts = [
        "", "+", "-", "0", "00", "+7", "-7", "-0", "255", "256", " 1", "1 ", "1_0", "0x1",
        "18446744073709551615", "18446744073709551616", "99999999999999999999999", "٣",
    ];
    for t in texts {
        assert_eq!(parse_u64_text(t), t.parse::<u64>().ok(), "{t}");
        assert_eq!(parse_usize_text(t), t.parse::<usize>().ok(), "{t}");
        assert_eq!(parse_u8_text(t), t.parse::<u8>().ok(), "{t}");
    }
}

#[test]
fn whitespace_is_that_of_the_standard() {
    for c in (0..=0x10FFFFu32).filter_map(char::from_u32) {
        assert_eq!(is_whitespace(c), c.is_whitespace(), "{:x}", c as u32);
    }
    for t in ["", "  a b\t", "\u{2003}x\u{a0}", "\n", "x"] {
        assert_eq!(trimmed_text(&chars_of(t)), t.trim());
    }
    assert_eq!(split_trimmed(" a ,b,, c", ','), vec!["a", "b", "", "c"]);
    assert_eq!(split_trimmed("", ','), vec![""]);
}

#[test]
fn text_maps_replace_and_compare() {
    let mut a: TextMap<u8> = TextMap::new();
    a.insert("x", 1);
    a.insert("y", 2);
    a.insert("x", 3);
    assert_eq!(a.len(), 2);
    assert_eq!(a.get("x"), Some(3));
    assert_eq!(a.get("z"), None);
    let mut b: TextMap<u8> = TextMap::new();
    b.insert("y", 2);
    b.insert("x", 3);
    assert!(same_map(&a, &b));
    b.insert("y", 4);
    assert!(!same_map(&a, &b));
    let keys: Vec<&str> = (0..a.len()).map(|i| a.key_at(i)).collect();
    assert!(keys.contains(&"x") && keys.contains(&"y"));
    assert_eq!(a.value_at(0) as usize + a.value_at(1) as usize, 5);
}

#[test]
fn blocks_of_a_grid_have_ids_of_their_own() {
    let mut ids: Vec<u64> = Vec::new();
    for row in 0..7 {
        for col in 0..5 {
            ids.push(block_id(row, col, 5));
        }
    }
    let mut sorted = ids.clone();
    sorted.sort_unstable();
    sorted.dedup();
    assert_eq!(sorted.len(), 35);
    assert_eq!(block_id(-1, 0, 5), (-1i64 as u64).wrapping_mul(5));
}

#[test]
fn strips_fit_the_budget() {
    for (estimated, budget) in [(100usize, 40usize), (1_000_003, 17), (41, 40)] {
        let n = compute_n_strips(estimated, budget);
        assert!(n * budget >= estimated);
        assert!(n == 2 || (n - 1) * budget < estimated);
    }
    assert_eq!(compute_n_strips(5, 0), 5);
    assert_eq!(compute_n_strips(1, 0), 2);
}

#[test]
fn references_sort_by_input_and_id() {
    let mut refs = vec![(1usize, 5u64), (0, 9), (1, 2), (0, 9), (0, 1)];
    let sorted = sort_refs(&refs);
    refs.sort_unstable();
    assert_eq!(sorted, refs);
}

#[test]
fn errors_have_messages() {
    let texts = [
        (ClassifierError::UnexpectedEof, "I/O error: failed to fill whole buffer"),
        (
            ClassifierError::UnsupportedFormat { path: "a.ply".to_string() },
            "Unsupported LiDAR format: a.ply",
        ),
        (
            ClassifierError::SpillCorrupt { path: "s".to_string() },
            "Spill file missing or corrupt: s",
        ),
        (ClassifierError::Pipeline("m".to_string()), "Pipeline error: m"),
    ];
    for (e, text) in texts {
        assert_eq!(e.message(), text);
    }
}
