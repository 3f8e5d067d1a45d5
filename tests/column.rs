use stream_core::array::{ArrayImpl, Column};
use stream_core::types::{DataType, Date, Datum, Decimal, Scalar, Time, Timestamp};

fn round_trip(data_type: DataType, values: Vec<Datum>) -> ArrayImpl {
    let cardinality = values.len();
    let col = Column::new(ArrayImpl::from_values(data_type, values).unwrap());
    let new_col = Column::from_bytes(&col.to_bytes(), cardinality).unwrap();
    assert_eq!(new_col.array_ref().len(), cardinality);
    new_col.into_inner()
}

#[test]
fn test_column_protobuf_conversion() {
    let cardinality = 2048;
    let mut values = Vec::new();
    for i in 0..cardinality {
        if i % 2 == 0 {
            values.push(Some(Scalar::Int32(i as i32)));
        } else {
            values.push(None);
        }
    }
    let arr = round_trip(DataType::Int32, values);
    assert_eq!(arr.values.len(), cardinality);
    for (i, x) in arr.values.iter().enumerate() {
        if i % 2 == 0 {
            assert!(matches!(x, Some(Scalar::Int32(v)) if *v == i as i32));
        } else {
            assert!(x.is_none());
        }
    }
}

#[test]
fn test_bool_column_protobuf_conversion() {
    let cardinality = 2048;
    let mut values = Vec::new();
    for i in 0..cardinality {
        match i % 3 {
            0 => values.push(Some(Scalar::Bool(false))),
            1 => values.push(Some(Scalar::Bool(true))),
            _ => values.push(None),
        }
    }
    let arr = round_trip(DataType::Boolean, values);
    assert_eq!(arr.values.len(), cardinality);
    for (i, x) in arr.values.iter().enumerate() {
        match i % 3 {
            0 => assert!(matches!(x, Some(Scalar::Bool(false)))),
            1 => assert!(matches!(x, Some(Scalar::Bool(true)))),
            _ => assert!(x.is_none()),
        }
    }
}

#[test]
fn test_utf8_column_conversion() {
    let cardinality = 2048;
    let mut values = Vec::new();
    for i in 0..cardinality {
        if i % 2 == 0 {
            values.push(Some(Scalar::Utf8("abc".to_string())));
        } else {
            values.push(None);
        }
    }
    let arr = round_trip(DataType::Varchar, values);
    for (i, x) in arr.values.iter().enumerate() {
        if i % 2 == 0 {
            assert!(matches!(x, Some(Scalar::Utf8(s)) if s == "abc"));
        } else {
            assert!(x.is_none());
        }
    }
}

#[test]
fn test_decimal_protobuf_conversion() {
    let cardinality = 2048;
    let mut values = Vec::new();
    for i in 0..cardinality {
        if i % 2 == 0 {
            values.push(Some(Scalar::Decimal(Decimal { mantissa: i as i64, scale: 0 })));
        } else {
            values.push(None);
        }
    }
    let arr = round_trip(DataType::Decimal, values);
    assert_eq!(arr.values.len(), cardinality);
    for (i, x) in arr.values.iter().enumerate() {
        if i % 2 == 0 {
            assert!(matches!(x, Some(Scalar::Decimal(d)) if *d == Decimal { mantissa: i as i64, scale: 0 }));
        } else {
            assert!(x.is_none());
        }
    }
}

#[test]
fn test_naivedate_protobuf_conversion() {
    let cardinality = 2048;
    let mut values = Vec::new();
    for i in 0..cardinality {
        if i % 2 == 0 {
            values.push(Some(Scalar::Date(Date { days: i as i32 })));
        } else {
            values.push(None);
        }
    }
    let arr = round_trip(DataType::Date, values);
    assert_eq!(arr.values.len(), cardinality);
    for (i, x) in arr.values.iter().enumerate() {
        if i % 2 == 0 {
            assert!(matches!(x, Some(Scalar::Date(d)) if *d == Date { days: i as i32 }));
        } else {
            assert!(x.is_none());
        }
    }
}

#[test]
fn test_naivetime_protobuf_conversion() {
    let cardinality = 2048;
    let mut values = Vec::new();
    for i in 0..cardinality {
        if i % 2 == 0 {
            values.push(Some(Scalar::Time(Time { secs: i as u32, nanos: i as u32 * 1000 })));
        } else {
            values.push(None);
        }
    }
    let arr = round_trip(DataType::Time, values);
    assert_eq!(arr.values.len(), cardinality);
    for (i, x) in arr.values.iter().enumerate() {
        if i % 2 == 0 {
            assert!(matches!(x, Some(Scalar::Time(t)) if *t == Time { secs: i as u32, nanos: i as u32 * 1000 }));
        } else {
            assert!(x.is_none());
        }
    }
}

#[test]
fn test_naivedatetime_protobuf_conversion() {
    let cardinality = 2048;
    let mut values = Vec::new();
    for i in 0..cardinality {
        if i % 2 == 0 {
            values.push(Some(Scalar::Timestamp(Timestamp { secs: i as i64, nsecs: i as u32 * 1000 })));
        } else {
            values.push(None);
        }
    }
    let arr = round_trip(DataType::Timestamp, values);
    assert_eq!(arr.values.len(), cardinality);
    for (i, x) in arr.values.iter().enumerate() {
        if i % 2 == 0 {
            assert!(
                matches!(x, Some(Scalar::Timestamp(t)) if *t == Timestamp { secs: i as i64, nsecs: i as u32 * 1000 })
            );
        } else {
            assert!(x.is_none());
        }
    }
}

#[test]
fn column_accessors_share_the_array() {
    let a = ArrayImpl::from_values(DataType::Int64, vec![Some(Scalar::Int64(-7)), None]).unwrap();
    let col = Column::new(a);
    let copy = col.array();
    assert_eq!(copy.values.len(), 2);
    assert!(matches!(col.array_ref().values[0], Some(Scalar::Int64(-7))));
    assert!(matches!(copy.values[0], Some(Scalar::Int64(-7))));
    assert!(col.into_inner().values[1].is_none());
}

#[test]
fn from_values_refuses_a_value_of_another_type() {
    assert!(ArrayImpl::from_values(DataType::Int32, vec![Some(Scalar::Int64(1))]).is_none());
    assert!(ArrayImpl::from_values(DataType::Int32, vec![None, Some(Scalar::Int32(1))]).is_some());
}

#[test]
fn column_bytes_are_little_endian_with_presence_bytes() {
    let col = Column::new(
        ArrayImpl::from_values(DataType::Int16, vec![Some(Scalar::Int16(-2)), None]).unwrap(),
    );
    let bytes = col.to_bytes();
    assert_eq!(bytes, vec![0, 2, 0, 0, 0, 0, 0, 0, 0, 1, 0xfe, 0xff, 0]);
}

#[test]
fn column_from_bytes_refuses_wrong_cardinality_and_garbage() {
    let col = Column::new(ArrayImpl::from_values(DataType::Int64, vec![Some(Scalar::Int64(5))]).unwrap());
    let bytes = col.to_bytes();
    assert!(Column::from_bytes(&bytes, 2).is_err());
    let mut longer = bytes.clone();
    longer.push(0);
    assert!(Column::from_bytes(&longer, 1).is_err());
    assert!(Column::from_bytes(&vec![9, 0, 0], 0).is_err());
}

#[test]
fn utf8_round_trip_keeps_multibyte_text() {
    let arr = round_trip(DataType::Varchar, vec![Some(Scalar::Utf8("héllo, 世界".to_string())), None]);
    assert!(matches!(&arr.values[0], Some(Scalar::Utf8(s)) if s == "héllo, 世界"));
}

#[test]
fn invalid_utf8_does_not_decode() {
    // type tag 8, one value, present, length 2, bytes that are not UTF-8
    let bytes = vec![8, 1, 0, 0, 0, 0, 0, 0, 0, 1, 2, 0, 0, 0, 0, 0, 0, 0, 0xff, 0xfe];
    assert!(Column::from_bytes(&bytes, 1).is_err());
}
