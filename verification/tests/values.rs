//! Values: their texts, their order, their bytes.
use mangle::calendar::{format_duration_nanos, format_time_nanos};
use mangle::codec::{deserialize_tuple, encode_index_key, serialize_tuple};
use mangle::disk_names::{index_table, primary_table_for, Tier};
use mangle::ir::{Inst, Ir};
use mangle::name_trie::split_name;
use mangle::planner::hash_join_default;
use mangle::value::{compare, copy_values, to_float_bits, value_eq, values_eq, CompoundKind, Order, Piece, Value};

fn text(v: &Value) -> String {
    let mut text = String::new();
    for piece in v.pieces() {
        match piece {
            Piece::Text(s) => text.push_str(&s),
            Piece::Float(bits) => text.push_str(&f64::from_bits(bits).to_string()),
        }
    }
    text
}

fn float(x: f64) -> Value {
    Value::Float(x.to_bits())
}

#[test]
fn times_are_written_by_the_calendar() {
    assert_eq!(format_time_nanos(0), "1970-01-01T00:00:00Z");
    assert_eq!(format_time_nanos(1704412800_000_000_000), "2024-01-05T00:00:00Z");
    assert_eq!(format_time_nanos(951_782_400_000_000_000), "2000-02-29T00:00:00Z");
    assert_eq!(format_time_nanos(1_700_000_000_123_456_789), "2023-11-14T22:13:20.123456789Z");
    assert_eq!(format_time_nanos(1_500_000_000), "1970-01-01T00:00:01.5Z");
    assert_eq!(format_time_nanos(-1), "1969-12-31T23:59:59.999999999Z");
    assert_eq!(format_time_nanos(i64::MAX), "2262-04-11T23:47:16.854775807Z");
    assert_eq!(format_time_nanos(i64::MIN), "1677-09-21T00:12:43.145224192Z");
}

#[test]
fn every_day_has_its_date() {
    // Days follow each other through four centuries.
    let mut last = String::new();
    for day in (-100_000i64..=100_000).step_by(1) {
        let date = format_time_nanos(day * 86_400_000_000_000)[..10].to_string();
        assert!(last < date, "{} is not before {}", last, date);
        last = date;
    }
}

#[test]
fn durations_are_written_by_their_size() {
    assert_eq!(format_duration_nanos(0), "0s");
    assert_eq!(format_duration_nanos(7), "7ns");
    assert_eq!(format_duration_nanos(1_500), "1.5\u{b5}s");
    assert_eq!(format_duration_nanos(2_000), "2\u{b5}s");
    assert_eq!(format_duration_nanos(2_050_000), "2.05ms");
    assert_eq!(format_duration_nanos(3_000_000), "3ms");
    assert_eq!(format_duration_nanos(1_000_000_000), "1s");
    assert_eq!(format_duration_nanos(90_250_000_000), "1m30.25s");
    assert_eq!(format_duration_nanos(3_600_000_000_000), "1h0m0s");
    assert_eq!(format_duration_nanos(-42), "-42ns");
    assert_eq!(format_duration_nanos(i64::MIN), "-2562047h47m16.854775808s");
}

#[test]
fn values_are_written() {
    assert_eq!(text(&Value::Number(i64::MIN)), "-9223372036854775808");
    assert_eq!(text(&float(2.5)), "2.5");
    assert_eq!(text(&Value::String("a\"b\n".to_string())), "\"a\\\"b\\n\"");
    assert_eq!(text(&Value::Name("/a/b".to_string())), "/a/b");
    assert_eq!(text(&Value::Null), "null");
    assert_eq!(text(&Value::Time(0)), "1970-01-01T00:00:00Z");
    assert_eq!(text(&Value::Duration(5)), "5ns");
    let items = vec![Value::Number(1), Value::Number(2), Value::Number(3)];
    assert_eq!(text(&Value::Compound(CompoundKind::List, items.clone())), "[1, 2, 3]");
    assert_eq!(text(&Value::Compound(CompoundKind::Pair, items.clone())), "[1, 2, 3]");
    // A key without a value is left out.
    assert_eq!(text(&Value::Compound(CompoundKind::Dict, items.clone())), "[1: 2]");
    let fields = vec![Value::Name("/x".to_string()), Value::Number(1), Value::Name("/y".to_string()), float(0.5)];
    assert_eq!(text(&Value::Compound(CompoundKind::Struct, fields)), "{/x: 1, /y: 0.5}");
    assert_eq!(text(&Value::Compound(CompoundKind::Struct, vec![])), "{}");
}

#[test]
fn integers_become_the_nearest_floats() {
    for n in [
        0,
        1,
        -1,
        42,
        -7,
        i64::MAX,
        i64::MIN,
        i64::MAX - 511,
        i64::MAX - 512,
        i64::MAX - 513,
        9_007_199_254_740_991,
        9_007_199_254_740_992,
        9_007_199_254_740_993,
        9_007_199_254_740_995,
        -9_007_199_254_740_993,
        1_000_000_007 * 1_000_000_009,
    ] {
        assert_eq!(to_float_bits(n), (n as f64).to_bits(), "{}", n);
    }
}

#[test]
fn numbers_compare_across_types() {
    assert_eq!(compare(&Value::Number(1), &Value::Number(2)), Order::Less);
    assert_eq!(compare(&Value::Number(42), &float(41.5)), Order::Greater);
    assert_eq!(compare(&float(99.5), &Value::Number(85)), Order::Greater);
    assert_eq!(compare(&float(-0.5), &float(0.25)), Order::Less);
    assert_eq!(compare(&Value::Number(2), &float(2.0)), Order::Equal);
}

#[test]
fn comparison_is_transitive_for_exact_numbers() {
    let two53 = 9_007_199_254_740_992;
    let values = [
        Value::Number(-two53),
        float(-1.5),
        Value::Number(0),
        Value::Number(two53 - 1),
        float(two53 as f64),
        Value::Number(two53),
        Value::String("a".to_string()),
        Value::Compound(CompoundKind::List, vec![Value::Number(1), float(2.0)]),
        Value::Compound(CompoundKind::List, vec![float(1.0), Value::Number(3)]),
    ];
    for a in &values {
        for b in &values {
            for c in &values {
                if compare(a, b) != Order::Greater && compare(b, c) != Order::Greater {
                    assert_ne!(compare(a, c), Order::Greater);
                }
            }
        }
    }
    // A float may be equal to integers that are not equal.
    assert_eq!(compare(&Value::Number(two53 + 1), &float(two53 as f64)), Order::Equal);
    assert_eq!(compare(&float(two53 as f64), &Value::Number(two53)), Order::Equal);
    assert_eq!(compare(&Value::Number(two53 + 1), &Value::Number(two53)), Order::Greater);
}

#[test]
fn equal_order_means_equal_values() {
    let a = Value::Compound(CompoundKind::Pair, vec![Value::String("x".to_string()), float(0.5)]);
    let b = Value::Compound(CompoundKind::Pair, vec![Value::String("x".to_string()), float(0.5)]);
    assert_eq!(compare(&a, &b), Order::Equal);
    assert!(value_eq(&a, &b));
    // But for an integer and a float.
    assert_eq!(compare(&Value::Number(1), &float(1.0)), Order::Equal);
    assert!(!value_eq(&Value::Number(1), &float(1.0)));
}

#[test]
fn comparison_is_reversed_by_swapping() {
    let values = [
        Value::Number(3),
        float(2.5),
        float(f64::NAN),
        Value::String("b".to_string()),
        Value::String("a".to_string()),
        Value::Name("/n".to_string()),
        Value::Time(1),
        Value::Duration(2),
        Value::Compound(CompoundKind::List, vec![Value::Number(1)]),
        Value::Compound(CompoundKind::List, vec![Value::Number(1), Value::Null]),
        Value::Null,
    ];
    for a in &values {
        assert_eq!(compare(a, a), Order::Equal);
        for b in &values {
            let back = match compare(b, a) {
                Order::Less => Order::Greater,
                Order::Equal => Order::Equal,
                Order::Greater => Order::Less,
            };
            assert_eq!(compare(a, b), back);
        }
    }
    assert_eq!(compare(&values[4], &values[3]), Order::Less);
    assert_eq!(compare(&values[8], &values[9]), Order::Less);
}

#[test]
fn values_are_equal_by_what_they_hold() {
    let row = vec![float(f64::NAN), Value::Compound(CompoundKind::Pair, vec![Value::Null])];
    let copy = copy_values(&row);
    assert!(values_eq(&row, &copy) && row == copy);
    assert!(!value_eq(&float(0.0), &float(-0.0)));
    assert!(!value_eq(&Value::Number(1), &float(1.0)));
    assert!(!value_eq(&Value::String("/a".to_string()), &Value::Name("/a".to_string())));
}

#[test]
fn rows_have_the_bytes_of_the_format() {
    assert_eq!(serialize_tuple(&vec![]), vec![0]);
    // One value, the number 1: one value, variant 0, twice the number.
    assert_eq!(serialize_tuple(&vec![Value::Number(1)]), vec![1, 0, 2]);
    assert_eq!(serialize_tuple(&vec![Value::Number(-1)]), vec![1, 0, 1]);
    assert_eq!(encode_index_key(&Value::String("hi".to_string())), vec![2, 2, b'h', b'i']);
    assert_eq!(encode_index_key(&Value::Null), vec![7]);
    assert_eq!(encode_index_key(&float(1.0)), vec![1, 0, 0, 0, 0, 0, 0, 0xf0, 0x3f]);
    assert_eq!(
        encode_index_key(&Value::Compound(CompoundKind::Struct, vec![Value::Duration(300)])),
        vec![6, 3, 1, 5, 0xd8, 0x04]
    );
}

#[test]
fn bytes_that_are_no_row() {
    for bytes in [&[1u8][..], &[1, 9], &[1, 2, 5, b'a'], &[1, 2, 1, 0xff], &[2, 7], &[1, 6, 4, 0]] {
        let e = deserialize_tuple(bytes).unwrap_err();
        assert!(e.message().starts_with("failed to decode tuple: "), "{}", e.message());
    }
    // Bytes after a row are not looked at.
    assert_eq!(deserialize_tuple(&[1, 7, 99]).unwrap(), vec![Value::Null]);
}

#[test]
fn names_of_tables() {
    assert_eq!(primary_table_for("stable", "edge"), "stable:edge");
    assert_eq!(index_table("delta", "edge", 12), "idx_delta:edge:12");
    assert_eq!(Tier::NextDelta.name(), "next_delta");
    // Names of relations may have colons: tables are told apart all the same.
    assert_ne!(primary_table_for("delta", "a"), primary_table_for("next_delta", "a"));
    assert_ne!(index_table("delta", "a:1", 2), index_table("delta", "a", 12));
}

#[test]
fn names_are_split() {
    assert_eq!(split_name("/foo/bar"), vec!["foo", "bar"]);
    assert_eq!(split_name("//foo//"), vec!["foo"]);
    assert!(split_name("/").is_empty());
}

#[test]
fn interning_keeps_names_apart() {
    let mut ir = Ir::new();
    let a = ir.intern_name("a");
    let b = ir.intern_name("b");
    assert_eq!(ir.intern_name("a"), a);
    assert_ne!(a, b);
    assert_eq!(ir.resolve_name(b), "b");
    assert_eq!(ir.lookup_name("b"), Some(b));
    assert_eq!(ir.lookup_name("c"), None);
    let s = ir.intern_string("a");
    assert_eq!(ir.intern_string("a"), s);
    assert_eq!((ir.num_names(), ir.num_strings(), ir.len()), (2, 1, 0));
    let id = ir.add_inst(Inst::Name(a));
    assert!(matches!(ir.get(id), Inst::Name(n) if *n == a));
    assert!(!ir.is_temporal(a));
    ir.mark_temporal(a);
    assert!(ir.is_temporal(a) && !ir.is_temporal(b));
}

#[test]
fn hash_joins_are_asked_for() {
    assert!(hash_join_default(Some("1")));
    assert!(hash_join_default(Some("true")));
    assert!(hash_join_default(Some("TRUE")));
    assert!(!hash_join_default(Some("0")));
    assert!(!hash_join_default(Some("yes")));
    assert!(!hash_join_default(None));
}

/// The nanoseconds of a duration such as `-1h30m2.5s`.
fn read_duration(s: &str) -> i128 {
    let (sign, rest) = match s.strip_prefix('-') {
        Some(rest) => (-1, rest),
        None => (1, s),
    };
    let mut total: i128 = 0;
    let mut digits = String::new();
    let mut unit = String::new();
    let add = |digits: &str, unit: &str| -> i128 {
        let (whole, part) = digits.split_once('.').unwrap_or((digits, ""));
        assert!(!part.ends_with('0') && (digits.contains('.') != part.is_empty()));
        let nanos: i128 = match unit {
            "h" => 3_600_000_000_000,
            "m" => 60_000_000_000,
            "s" => 1_000_000_000,
            "ms" => 1_000_000,
            "\u{b5}s" => 1_000,
            "ns" => 1,
            other => panic!("{}", other),
        };
        format!("{}{}", whole, part).parse::<i128>().unwrap() * nanos / 10i128.pow(part.len() as u32)
    };
    for c in rest.chars() {
        if c.is_ascii_digit() || c == '.' {
            if !unit.is_empty() {
                total += add(&digits, &unit);
                digits.clear();
                unit.clear();
            }
            digits.push(c);
        } else {
            unit.push(c);
        }
    }
    sign * (total + add(&digits, &unit))
}

#[test]
fn durations_read_back() {
    let mut n: i64 = 1;
    while n < i64::MAX / 7 {
        for m in [n, -n, n - 1, n + 1, n * 3, n * 7 - 5] {
            assert_eq!(read_duration(&format_duration_nanos(m)), m as i128);
        }
        n *= 6;
    }
    for m in [i64::MIN, i64::MAX, 0] {
        assert_eq!(read_duration(&format_duration_nanos(m)), m as i128);
    }
}

#[test]
fn times_read_back() {
    let read = |s: &str| -> i128 {
        let part = |from: usize, to: usize| s[from..to].parse::<i128>().unwrap();
        let (y, m, d) = (part(0, 4), part(5, 7), part(8, 10));
        assert!((1..=12).contains(&m) && (1..=31).contains(&d));
        let (y, m) = if m <= 2 { (y - 1, m + 9) } else { (y, m - 3) };
        let days = 365 * y + y / 4 - y / 100 + y / 400 + (153 * m + 2) / 5 + d - 1 - 719_468;
        let seconds = days * 86_400 + part(11, 13) * 3600 + part(14, 16) * 60 + part(17, 19);
        let rest = s[19..].strip_suffix('Z').unwrap();
        let nanos = match rest.strip_prefix('.') {
            Some(f) => f.parse::<i128>().unwrap() * 10i128.pow(9 - f.len() as u32),
            None => 0,
        };
        seconds * 1_000_000_000 + nanos
    };
    let mut n: i64 = 1;
    while n < i64::MAX / 7 {
        for m in [n, -n, n * 3, n * 7 - 5, 5 - n * 7] {
            assert_eq!(read(&format_time_nanos(m)), m as i128);
        }
        n *= 6;
    }
    for m in [i64::MIN, i64::MAX, 0] {
        assert_eq!(read(&format_time_nanos(m)), m as i128);
    }
}

#[test]
fn splitting_undoes_joining() {
    for segments in [vec![], vec!["a"], vec!["foo", "bar", "b"]] {
        let name: String = segments.iter().map(|s| format!("/{}", s)).collect();
        assert_eq!(split_name(&name), segments);
    }
    for segment in split_name("a//b/c/") {
        assert!(!segment.is_empty() && !segment.contains('/'));
    }
}
