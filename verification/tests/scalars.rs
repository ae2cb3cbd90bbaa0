use memflow_py::descriptor::InternalDT;
use memflow_py::error::MemflowPyError;
use memflow_py::value::Value;

fn round_trip(dt: InternalDT, bytes: Vec<u8>, expected: Value) {
    let decoded = dt.py_from_bytes(bytes.clone());
    assert_eq!(decoded, Ok(expected));
    let value = decoded.unwrap();
    assert_eq!(dt.py_to_bytes(&value), Ok(bytes));
}

#[test]
fn int_decodes_and_encodes_one() {
    let decoded = InternalDT::Int.py_from_bytes(vec![0x01, 0x00, 0x00, 0x00]);
    assert_eq!(decoded, Ok(Value::Int(1)));
    let encoded = InternalDT::Int.py_to_bytes(&Value::Int(1));
    assert_eq!(encoded, Ok(vec![0x01, 0x00, 0x00, 0x00]));
}

#[test]
fn long_double_never_decodes() {
    let decoded = InternalDT::LongDouble.py_from_bytes(vec![0; 16]);
    assert_eq!(decoded, Err(MemflowPyError::UnsupportedIdentifier));
    let short = InternalDT::LongDouble.py_from_bytes(vec![0; 3]);
    assert_eq!(short, Err(MemflowPyError::UnsupportedIdentifier));
}

#[test]
fn long_double_never_encodes() {
    let encoded = InternalDT::LongDouble.py_to_bytes(&Value::Double(0));
    assert_eq!(encoded, Err(MemflowPyError::UnsupportedIdentifier));
}

#[test]
fn signed_kinds_round_trip() {
    round_trip(InternalDT::Byte, vec![0xff], Value::Int(-1));
    round_trip(InternalDT::Byte, vec![0x80], Value::Int(-128));
    round_trip(InternalDT::Byte, vec![0x7f], Value::Int(127));
    round_trip(InternalDT::Char, vec![0x41], Value::Int(65));
    round_trip(InternalDT::Char, vec![0xfe], Value::Int(-2));
    round_trip(InternalDT::Short, vec![0x00, 0x80], Value::Int(-32768));
    round_trip(InternalDT::Short, vec![0x34, 0x12], Value::Int(0x1234));
    round_trip(InternalDT::Int, vec![0xff, 0xff, 0xff, 0xff], Value::Int(-1));
    round_trip(InternalDT::Int, vec![0x00, 0x00, 0x00, 0x80], Value::Int(-2147483648));
    round_trip(InternalDT::Long, vec![0xfe, 0xff, 0xff, 0xff, 0xff, 0xff, 0xff, 0xff], Value::Int(-2));
    round_trip(
        InternalDT::LongLong,
        vec![0x00, 0x00, 0x00, 0x00, 0x00, 0x00, 0x00, 0x80],
        Value::Int(i64::MIN as i128),
    );
}

#[test]
fn unsigned_kinds_round_trip() {
    round_trip(InternalDT::UByte, vec![0xff], Value::Int(255));
    round_trip(InternalDT::WideChar, vec![0xac, 0x20], Value::Int(0x20ac));
    round_trip(InternalDT::UShort, vec![0xff, 0xff], Value::Int(65535));
    round_trip(InternalDT::UInt, vec![0x78, 0x56, 0x34, 0x12], Value::Int(0x12345678));
    round_trip(InternalDT::UInt, vec![0xff, 0xff, 0xff, 0xff], Value::Int(4294967295));
    round_trip(
        InternalDT::ULong,
        vec![0x08, 0x07, 0x06, 0x05, 0x04, 0x03, 0x02, 0x01],
        Value::Int(0x0102030405060708),
    );
    round_trip(InternalDT::ULongLong, vec![0xff; 8], Value::Int(u64::MAX as i128));
}

#[test]
fn float_kinds_round_trip_as_bit_patterns() {
    let one: f32 = 1.0;
    round_trip(InternalDT::Float, one.to_le_bytes().to_vec(), Value::Float(one.to_bits()));
    assert_eq!(one.to_bits(), 0x3f800000);
    let half: f64 = -0.5;
    round_trip(InternalDT::Double, half.to_le_bytes().to_vec(), Value::Double(half.to_bits()));
    let quiet = f64::NAN;
    round_trip(InternalDT::Double, quiet.to_le_bytes().to_vec(), Value::Double(quiet.to_bits()));
}

#[test]
fn scalar_of_wrong_length_is_a_slice_conversion() {
    assert_eq!(InternalDT::Int.py_from_bytes(vec![1, 0, 0]), Err(MemflowPyError::SliceConversion));
    assert_eq!(
        InternalDT::Int.py_from_bytes(vec![1, 0, 0, 0, 0]),
        Err(MemflowPyError::SliceConversion)
    );
    assert_eq!(InternalDT::UByte.py_from_bytes(vec![]), Err(MemflowPyError::SliceConversion));
    assert_eq!(InternalDT::Float.py_from_bytes(vec![0; 8]), Err(MemflowPyError::SliceConversion));
    assert_eq!(InternalDT::Double.py_from_bytes(vec![0; 4]), Err(MemflowPyError::SliceConversion));
}

#[test]
fn integer_out_of_range_is_a_host_failure() {
    assert_eq!(InternalDT::Byte.py_to_bytes(&Value::Int(128)), Err(MemflowPyError::HostModelError));
    assert_eq!(InternalDT::Byte.py_to_bytes(&Value::Int(-129)), Err(MemflowPyError::HostModelError));
    assert_eq!(InternalDT::UByte.py_to_bytes(&Value::Int(-1)), Err(MemflowPyError::HostModelError));
    assert_eq!(InternalDT::UByte.py_to_bytes(&Value::Int(256)), Err(MemflowPyError::HostModelError));
    assert_eq!(
        InternalDT::UInt.py_to_bytes(&Value::Int(1 << 32)),
        Err(MemflowPyError::HostModelError)
    );
    assert_eq!(
        InternalDT::ULongLong.py_to_bytes(&Value::Int(1 << 64)),
        Err(MemflowPyError::HostModelError)
    );
    assert_eq!(
        InternalDT::LongLong.py_to_bytes(&Value::Int(i128::MIN)),
        Err(MemflowPyError::HostModelError)
    );
    assert_eq!(InternalDT::Byte.py_to_bytes(&Value::Int(-128)), Ok(vec![0x80]));
}

#[test]
fn object_of_the_wrong_kind_is_a_host_failure() {
    assert_eq!(InternalDT::Int.py_to_bytes(&Value::Float(0)), Err(MemflowPyError::HostModelError));
    assert_eq!(InternalDT::Float.py_to_bytes(&Value::Int(0)), Err(MemflowPyError::HostModelError));
    assert_eq!(InternalDT::Double.py_to_bytes(&Value::Float(0)), Err(MemflowPyError::HostModelError));
    assert_eq!(InternalDT::Float.py_to_bytes(&Value::Double(0)), Err(MemflowPyError::HostModelError));
}

#[test]
fn encoded_length_is_the_size() {
    let kinds = vec![
        (InternalDT::Byte, Value::Int(1)),
        (InternalDT::UByte, Value::Int(1)),
        (InternalDT::Char, Value::Int(1)),
        (InternalDT::WideChar, Value::Int(1)),
        (InternalDT::Short, Value::Int(1)),
        (InternalDT::UShort, Value::Int(1)),
        (InternalDT::Int, Value::Int(1)),
        (InternalDT::UInt, Value::Int(1)),
        (InternalDT::Long, Value::Int(1)),
        (InternalDT::ULong, Value::Int(1)),
        (InternalDT::LongLong, Value::Int(1)),
        (InternalDT::ULongLong, Value::Int(1)),
        (InternalDT::Float, Value::Float(1)),
        (InternalDT::Double, Value::Double(1)),
    ];
    for (dt, value) in kinds {
        let bytes = dt.py_to_bytes(&value).unwrap();
        assert_eq!(bytes.len(), dt.size());
    }
}
