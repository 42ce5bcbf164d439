//! Columnar and partitioned tables.
use mangle::columns::{array_to_values, batch_is_ok, column_is_ok, record_batch_to_values, Batch, Column, TimeUnit};
use mangle::delta::{
    extract_partition_filters, partition_query, plan_scan, recheck, table_info, value_to_partition_string,
    version_fingerprint, PartitionFilter, PartitionValue, ScanPlan,
};
use mangle::source::{ColumnPredicate, PredicateOp};
use mangle::value::{CompoundKind, Piece, Value};

fn texts(names: &[&str]) -> Vec<String> {
    names.iter().map(|s| s.to_string()).collect()
}

#[test]
fn numbers_and_texts() {
    assert_eq!(
        array_to_values(&Column::Boolean(vec![Some(true), Some(false), None])),
        vec![Value::Number(1), Value::Number(0), Value::Null]
    );
    assert_eq!(array_to_values(&Column::Int8(vec![Some(-1), None])), vec![Value::Number(-1), Value::Null]);
    assert_eq!(array_to_values(&Column::Int16(vec![Some(-300)])), vec![Value::Number(-300)]);
    assert_eq!(array_to_values(&Column::Int32(vec![Some(i32::MIN)])), vec![Value::Number(-2147483648)]);
    assert_eq!(array_to_values(&Column::Int64(vec![Some(i64::MAX)])), vec![Value::Number(i64::MAX)]);
    assert_eq!(array_to_values(&Column::UInt8(vec![Some(255)])), vec![Value::Number(255)]);
    assert_eq!(array_to_values(&Column::UInt16(vec![Some(65535)])), vec![Value::Number(65535)]);
    assert_eq!(array_to_values(&Column::UInt32(vec![Some(u32::MAX)])), vec![Value::Number(4294967295)]);
    // Large numbers are truncated.
    assert_eq!(array_to_values(&Column::UInt64(vec![Some(5), Some(u64::MAX)])), vec![
        Value::Number(5),
        Value::Number(-1)
    ]);
    assert_eq!(array_to_values(&Column::Float(vec![Some(1.5f64.to_bits())])), vec![Value::Float(1.5f64.to_bits())]);
    assert_eq!(
        array_to_values(&Column::Text(vec![Some("a".to_string()), None])),
        vec![Value::String("a".to_string()), Value::Null]
    );
    assert_eq!(array_to_values(&Column::Null(2)), vec![Value::Null, Value::Null]);
    assert_eq!(
        array_to_values(&Column::Other { len: 1, texts: Some(vec![Some("0x00".to_string())]) }),
        vec![Value::String("0x00".to_string())]
    );
    assert_eq!(
        array_to_values(&Column::Other { len: 1, texts: None }),
        vec![Value::String("<unsupported>".to_string())]
    );
}

#[test]
fn times_are_in_nanoseconds() {
    for (unit, nanos) in [
        (TimeUnit::Second, 1_000_000_000),
        (TimeUnit::Millisecond, 1_000_000),
        (TimeUnit::Microsecond, 1_000),
        (TimeUnit::Nanosecond, 1),
    ] {
        assert_eq!(array_to_values(&Column::Timestamp(unit, vec![Some(3), None])), vec![
            Value::Time(3 * nanos),
            Value::Null
        ]);
        assert_eq!(array_to_values(&Column::Duration(unit, vec![Some(-3)])), vec![Value::Duration(-3 * nanos)]);
    }
    assert_eq!(array_to_values(&Column::Date32(vec![Some(2)])), vec![Value::Time(172_800_000_000_000)]);
    assert_eq!(array_to_values(&Column::Date64(vec![Some(2)])), vec![Value::Time(2_000_000)]);
}

#[test]
fn columns_out_of_order() {
    assert!(!column_is_ok(&Column::Timestamp(TimeUnit::Second, vec![Some(i64::MAX)])));
    assert!(column_is_ok(&Column::Timestamp(TimeUnit::Nanosecond, vec![Some(i64::MAX)])));
    assert!(!column_is_ok(&Column::Date32(vec![Some(i32::MAX)])));
    assert!(!column_is_ok(&Column::Date64(vec![Some(i64::MIN)])));
    assert!(!column_is_ok(&Column::Struct {
        names: texts(&["a"]),
        columns: vec![Column::Null(2)],
        valid: vec![true]
    }));
    assert!(!column_is_ok(&Column::List { ranges: vec![Some((0, 3))], items: Box::new(Column::Null(2)) }));
    assert!(!column_is_ok(&Column::Other { len: 2, texts: Some(vec![None]) }));
    let batch = Batch { num_rows: 2, columns: vec![Column::Null(2), Column::Null(1)] };
    assert!(!batch_is_ok(&batch));
}

#[test]
fn nested_columns() {
    let points = Column::Struct {
        names: texts(&["x", "y"]),
        columns: vec![Column::Int64(vec![Some(1), Some(2)]), Column::Text(vec![None, Some("b".to_string())])],
        valid: vec![true, false],
    };
    assert_eq!(array_to_values(&points), vec![
        Value::Compound(CompoundKind::Struct, vec![
            Value::Name("x".to_string()),
            Value::Number(1),
            Value::Name("y".to_string()),
            Value::Null
        ]),
        Value::Null
    ]);
    let lists = Column::List {
        ranges: vec![Some((0, 2)), None, Some((2, 2))],
        items: Box::new(Column::Int8(vec![Some(7), Some(8)])),
    };
    assert_eq!(array_to_values(&lists), vec![
        Value::Compound(CompoundKind::List, vec![Value::Number(7), Value::Number(8)]),
        Value::Null,
        Value::Compound(CompoundKind::List, vec![])
    ]);
}

#[test]
fn batches_are_turned_into_rows() {
    let batch = Batch {
        num_rows: 2,
        columns: vec![
            Column::Int32(vec![Some(1), Some(2)]),
            Column::Text(vec![Some("a".to_string()), Some("b".to_string())]),
        ],
    };
    assert!(batch_is_ok(&batch));
    assert_eq!(record_batch_to_values(&batch), vec![
        vec![Value::Number(1), Value::String("a".to_string())],
        vec![Value::Number(2), Value::String("b".to_string())]
    ]);
    let empty = Batch { num_rows: 3, columns: vec![] };
    assert_eq!(record_batch_to_values(&empty), vec![Vec::<Value>::new(), vec![], vec![]]);
}

#[test]
fn partitions_are_asked_for_by_equality() {
    let columns = texts(&["id", "region", "amount"]);
    let partitions = texts(&["region"]);
    let us = ColumnPredicate::new(1, PredicateOp::Eq, Value::String("US".to_string()));
    let predicates = vec![
        us.clone(),
        ColumnPredicate::new(1, PredicateOp::Neq, Value::String("EU".to_string())),
        ColumnPredicate::new(2, PredicateOp::Eq, Value::Number(5)),
        ColumnPredicate::new(9, PredicateOp::Eq, Value::Number(5)),
    ];
    let asked = extract_partition_filters(&predicates, &columns, &partitions);
    assert_eq!(asked, vec![("region".to_string(), vec![Piece::Text("US".to_string())])]);

    assert!(matches!(plan_scan("orders", "other", &predicates, &columns, &partitions), ScanPlan::Nothing));
    assert!(matches!(plan_scan("orders", "orders", &vec![], &columns, &partitions), ScanPlan::All));
    match plan_scan("orders", "orders", &predicates, &columns, &partitions) {
        ScanPlan::Filtered(filters) => assert_eq!(filters, asked),
        other => panic!("{:?}", other),
    }
    // A value that has no text of its own is not asked for: all rows are read and rechecked.
    let null = ColumnPredicate::new(1, PredicateOp::Eq, Value::Null);
    let list = ColumnPredicate::new(1, PredicateOp::Eq, Value::Compound(CompoundKind::List, vec![]));
    assert!(extract_partition_filters(&vec![null.clone(), list], &columns, &partitions).is_empty());
    let kept = vec![vec![Value::Number(3), Value::Null]];
    assert_eq!(recheck(kept.clone(), &vec![null]), kept);
    let rows = vec![
        vec![Value::Number(1), Value::String("US".to_string())],
        vec![Value::Number(2), Value::String("EU".to_string())],
    ];
    assert_eq!(recheck(rows.clone(), &vec![us]), vec![rows[0].clone()]);
}

#[test]
fn values_in_names_of_partitions() {
    let of = |v: &Value| match value_to_partition_string(v).as_slice() {
        [Piece::Text(s)] => s.clone(),
        [Piece::Float(bits)] => f64::from_bits(*bits).to_string(),
        [] => String::new(),
        other => panic!("{:?}", other),
    };
    assert_eq!(of(&Value::Number(-3)), "-3");
    assert_eq!(of(&Value::Float(0.5f64.to_bits())), "0.5");
    assert_eq!(of(&Value::String("a b".to_string())), "a b");
    assert_eq!(of(&Value::Name("/a".to_string())), "/a");
    assert_eq!(of(&Value::Time(0)), "1970-01-01T00:00:00Z");
    assert_eq!(of(&Value::Duration(0)), "0s");
    assert_eq!(of(&Value::Null), "");
    assert_eq!(of(&Value::Compound(CompoundKind::List, vec![])), "");
}

#[test]
fn queries_for_partitions() {
    assert_eq!(partition_query("orders", &vec![]), "SELECT * FROM orders");
    let filter = |value: PartitionValue| PartitionFilter { key: "k".to_string(), value };
    assert_eq!(
        partition_query("orders", &vec![
            filter(PartitionValue::Equal("a".to_string())),
            filter(PartitionValue::NotEqual("b".to_string())),
            filter(PartitionValue::In(texts(&["c", "d"]))),
            filter(PartitionValue::NotIn(texts(&["e"]))),
            filter(PartitionValue::LessThanOrEqual("f".to_string())),
            filter(PartitionValue::LessThan("g".to_string())),
            filter(PartitionValue::GreaterThanOrEqual("h".to_string())),
            filter(PartitionValue::GreaterThan("i".to_string())),
        ]),
        "SELECT * FROM orders WHERE k = 'a' AND k != 'b' AND k IN ('c', 'd') AND k NOT IN ('e') \
         AND k <= 'f' AND k < 'g' AND k >= 'h' AND k > 'i'"
    );
}

#[test]
fn versions_and_sizes_of_tables() {
    assert_eq!(version_fingerprint(Some(258)).0, vec![2, 1, 0, 0, 0, 0, 0, 0]);
    assert_eq!(version_fingerprint(None).0, vec![0; 8]);
    let info = table_info("orders", 3);
    assert_eq!((info.name.as_str(), info.estimated_rows), ("orders", 300_000));
}
