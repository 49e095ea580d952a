use columnar_exec::cast::{
    cast_route, cast_string_array_to_decimal, cast_string_array_to_int16,
    cast_string_array_to_int32, cast_string_array_to_int64, cast_string_array_to_int8,
    cast_string_scalar_to_decimal, cast_string_scalar_to_int32, to_decimal, to_int16, to_int32,
    to_int64, to_int8, CastRoute, LogicalType,
};

#[test]
fn int32_basic() {
    assert_eq!(to_int32(b"123"), Some(123));
    assert_eq!(to_int32(b"-0"), Some(0));
    assert_eq!(to_int32(b"3.9"), Some(3));
    assert_eq!(to_int32(b"3.9x"), None);
    assert_eq!(to_int32(b""), None);
    assert_eq!(to_int32(b"+"), None);
    assert_eq!(to_int32(b"-"), None);
}

#[test]
fn int32_overflow_boundary() {
    assert_eq!(to_int32(b"2147483648"), None);
    assert_eq!(to_int32(b"2147483647"), Some(i32::MAX));
    assert_eq!(to_int32(b"-2147483648"), Some(i32::MIN));
    assert_eq!(to_int32(b"-2147483649"), None);
    assert_eq!(to_int32(b"99999999999999999999"), None);
}

#[test]
fn int32_oddities() {
    // A bare separator has an empty integer part, which counts as zero.
    assert_eq!(to_int32(b"."), Some(0));
    assert_eq!(to_int32(b"+.5"), Some(0));
    assert_eq!(to_int32(b".5"), Some(0));
    assert_eq!(to_int32(b"+42"), Some(42));
    assert_eq!(to_int32(b"1.2.3"), None);
    assert_eq!(to_int32(b" 12"), None);
    assert_eq!(to_int32(b"12 "), None);
    assert_eq!(to_int32(b"0012"), Some(12));
}

#[test]
fn int8_boundaries() {
    assert_eq!(to_int8(b"127"), Some(i8::MAX));
    assert_eq!(to_int8(b"128"), None);
    assert_eq!(to_int8(b"-128"), Some(i8::MIN));
    assert_eq!(to_int8(b"-129"), None);
}

#[test]
fn int16_boundaries() {
    assert_eq!(to_int16(b"32767"), Some(i16::MAX));
    assert_eq!(to_int16(b"32768"), None);
    assert_eq!(to_int16(b"-32768"), Some(i16::MIN));
    assert_eq!(to_int16(b"-32769"), None);
}

#[test]
fn int64_boundaries() {
    assert_eq!(to_int64(b"9223372036854775807"), Some(i64::MAX));
    assert_eq!(to_int64(b"9223372036854775808"), None);
    assert_eq!(to_int64(b"-9223372036854775808"), Some(i64::MIN));
    assert_eq!(to_int64(b"-9223372036854775809"), None);
}

fn col(values: &[Option<&[u8]>]) -> Vec<Option<Vec<u8>>> {
    values.iter().map(|v| v.map(|s| s.to_vec())).collect()
}

#[test]
fn int_arrays_keep_nulls_and_order() {
    let column = col(&[Some(b"1"), None, Some(b"x"), Some(b"-2.75")]);
    assert_eq!(
        cast_string_array_to_int8(&column),
        vec![Some(1), None, None, Some(-2)]
    );
    assert_eq!(
        cast_string_array_to_int16(&column),
        vec![Some(1), None, None, Some(-2)]
    );
    assert_eq!(
        cast_string_array_to_int32(&column),
        vec![Some(1), None, None, Some(-2)]
    );
    assert_eq!(
        cast_string_array_to_int64(&column),
        vec![Some(1), None, None, Some(-2)]
    );
}

#[test]
fn int_scalar_agrees_with_array() {
    assert_eq!(cast_string_scalar_to_int32(Some(b"7".to_vec())), Some(7));
    assert_eq!(cast_string_scalar_to_int32(Some(b"7q".to_vec())), None);
    assert_eq!(cast_string_scalar_to_int32(None), None);
}

#[test]
fn decimal_basic() {
    let column = col(&[Some(b"3.14"), None, Some(b"abc"), Some(b"-7.999")]);
    assert_eq!(
        cast_string_array_to_decimal(&column, 5, 2),
        vec![Some(314), None, None, Some(-799)]
    );
}

#[test]
fn decimal_scalar() {
    assert_eq!(
        cast_string_scalar_to_decimal(Some(b"0.5".to_vec()), 4, 1),
        Some(5)
    );
    assert_eq!(cast_string_scalar_to_decimal(Some(b"12".to_vec()), 10, 3), Some(12000));
    assert_eq!(cast_string_scalar_to_decimal(None, 4, 1), None);
}

#[test]
fn decimal_overflow_is_null() {
    // 38 nines rescaled by two more digits no longer fits 128 bits.
    let wide = b"99999999999999999999999999999999999999";
    assert_eq!(cast_string_scalar_to_decimal(Some(wide.to_vec()), 38, 2), None);
}

#[test]
fn decimal_exponents() {
    assert_eq!(to_decimal(b"12e2", 10, 2), Some(120000));
    assert_eq!(to_decimal(b"5e-3", 10, 2), Some(0));
    assert_eq!(to_decimal(b"1.5e1", 10, 1), Some(150));
    assert_eq!(to_decimal(b"1e", 10, 2), None);
    assert_eq!(to_decimal(b"1e+", 10, 2), None);
    assert_eq!(to_decimal(b"1e4x", 10, 2), None);
    assert_eq!(to_decimal(b"1e2.5", 10, 2), None);
}

#[test]
fn decimal_extreme_exponents() {
    // Exponents near the i64 bounds: astronomically small values truncate
    // to zero, astronomically large ones overflow to null, and a zero
    // mantissa stays zero.
    assert_eq!(to_decimal(b"1e-9223372036854775790", 38, 10), Some(0));
    assert_eq!(to_decimal(b"1e9223372036854775790", 38, 10), None);
    assert_eq!(to_decimal(b"0e99999999999999999999999999", 38, 10), Some(0));
    assert_eq!(to_decimal(b"-2e-100001", 38, 2), Some(0));
    // Leading zeros keep the field's value, not its width, in bounds.
    assert_eq!(to_decimal(b"1e-00000000000000000000001", 10, 2), Some(10));
    let wide = b"99999999999999999999999999999999999999999e9223372036854775809";
    assert_eq!(to_decimal(wide, 38, 2), None);
}

#[test]
fn decimal_oversized_input_is_null() {
    let mut huge = vec![b'1'; 65537];
    assert_eq!(to_decimal(&huge, 10, 2), None);
    huge.truncate(8);
    assert_eq!(to_decimal(&huge, 10, 0), Some(11111111));
}

#[test]
fn cast_routes() {
    assert!(matches!(
        cast_route(&LogicalType::Utf8, &LogicalType::Int8),
        CastRoute::ParseInt8
    ));
    assert!(matches!(
        cast_route(&LogicalType::Utf8, &LogicalType::Int16),
        CastRoute::ParseInt16
    ));
    assert!(matches!(
        cast_route(&LogicalType::Utf8, &LogicalType::Int32),
        CastRoute::ParseInt32
    ));
    assert!(matches!(
        cast_route(&LogicalType::Utf8, &LogicalType::Int64),
        CastRoute::ParseInt64
    ));
    assert!(matches!(
        cast_route(
            &LogicalType::Utf8,
            &LogicalType::Decimal { precision: 10, scale: 2 }
        ),
        CastRoute::ParseDecimal { precision: 10, scale: 2 }
    ));
    assert!(matches!(
        cast_route(&LogicalType::Int32, &LogicalType::Int64),
        CastRoute::Generic
    ));
    assert!(matches!(
        cast_route(&LogicalType::Utf8, &LogicalType::Utf8),
        CastRoute::Generic
    ));
    assert!(matches!(
        cast_route(&LogicalType::Other, &LogicalType::Int32),
        CastRoute::Generic
    ));
}
