use memflow_py::descriptor::{Field, FieldMap, InternalDT, OwnerHandle};
use memflow_py::error::MemflowPyError;
use memflow_py::value::{Attribute, Value};

fn field(name: &str, offset: usize, dt: InternalDT) -> Field {
    Field { name: name.to_string(), offset, dt }
}

fn structure(owner: usize, fields: Vec<Field>) -> InternalDT {
    let mut map = FieldMap::new();
    for f in fields {
        map.insert(f);
    }
    InternalDT::Structure(OwnerHandle(owner), map)
}

fn attr(name: &str, value: Value) -> Attribute {
    Attribute { name: name.to_string(), value }
}

fn byte_and_short() -> InternalDT {
    structure(9, vec![field("a", 0, InternalDT::UByte), field("b", 1, InternalDT::UShort)])
}

#[test]
fn structure_decodes_its_fields() {
    let dt = byte_and_short();
    assert_eq!(dt.size(), 3);
    let decoded = dt.py_from_bytes(vec![0x05, 0x02, 0x00]);
    assert_eq!(
        decoded,
        Ok(Value::Structure(OwnerHandle(9), vec![attr("a", Value::Int(5)), attr("b", Value::Int(2))]))
    );
}

#[test]
fn structure_encodes_its_fields() {
    let dt = byte_and_short();
    let obj = Value::Structure(OwnerHandle(1), vec![attr("b", Value::Int(2)), attr("a", Value::Int(5))]);
    assert_eq!(dt.py_to_bytes(&obj), Ok(vec![0x05, 0x02, 0x00]));
}

#[test]
fn missing_attribute_is_reported_by_name() {
    let dt = byte_and_short();
    let obj = Value::Structure(OwnerHandle(1), vec![attr("a", Value::Int(5))]);
    assert_eq!(dt.py_to_bytes(&obj), Err(MemflowPyError::MissingAttribute("b".to_string())));
    let nothing = Value::Int(3);
    assert_eq!(dt.py_to_bytes(&nothing), Err(MemflowPyError::MissingAttribute("a".to_string())));
}

#[test]
fn first_failing_field_decides() {
    let dt = byte_and_short();
    let obj = Value::Structure(OwnerHandle(1), vec![attr("a", Value::Int(300))]);
    assert_eq!(dt.py_to_bytes(&obj), Err(MemflowPyError::HostModelError));
}

#[test]
fn structure_ignores_the_class_and_extra_attributes() {
    let dt = byte_and_short();
    let obj = Value::Structure(
        OwnerHandle(12345),
        vec![attr("z", Value::Double(1)), attr("a", Value::Int(1)), attr("b", Value::Int(0x0302))],
    );
    assert_eq!(dt.py_to_bytes(&obj), Ok(vec![0x01, 0x02, 0x03]));
}

#[test]
fn uncovered_bytes_stay_zero() {
    let dt = structure(1, vec![field("a", 1, InternalDT::UByte), field("b", 4, InternalDT::UShort)]);
    assert_eq!(dt.size(), 6);
    let obj = Value::Structure(OwnerHandle(1), vec![attr("a", Value::Int(0xaa)), attr("b", Value::Int(0xbbcc))]);
    assert_eq!(dt.py_to_bytes(&obj), Ok(vec![0x00, 0xaa, 0x00, 0x00, 0xcc, 0xbb]));
}

#[test]
fn overlapping_fields_decode_from_the_same_bytes() {
    let dt = structure(
        4,
        vec![
            field("whole", 0, InternalDT::UInt),
            field("again", 0, InternalDT::UInt),
            field("low", 0, InternalDT::UShort),
            field("high", 2, InternalDT::UShort),
        ],
    );
    assert_eq!(dt.size(), 4);
    let decoded = dt.py_from_bytes(vec![0x01, 0x02, 0x03, 0x04]);
    assert_eq!(
        decoded,
        Ok(Value::Structure(
            OwnerHandle(4),
            vec![
                attr("whole", Value::Int(0x04030201)),
                attr("again", Value::Int(0x04030201)),
                attr("low", Value::Int(0x0201)),
                attr("high", Value::Int(0x0403)),
            ]
        ))
    );
}

#[test]
fn later_overlapping_field_is_written_last() {
    let dt = structure(4, vec![field("whole", 0, InternalDT::UInt), field("low", 0, InternalDT::UShort)]);
    let obj = Value::Structure(
        OwnerHandle(4),
        vec![attr("whole", Value::Int(0x11223344)), attr("low", Value::Int(0xaabb))],
    );
    assert_eq!(dt.py_to_bytes(&obj), Ok(vec![0xbb, 0xaa, 0x22, 0x11]));
}

#[test]
fn structure_of_wrong_length_is_a_slice_conversion() {
    let dt = byte_and_short();
    assert_eq!(dt.py_from_bytes(vec![0x05, 0x02]), Err(MemflowPyError::SliceConversion));
    assert_eq!(dt.py_from_bytes(vec![0x05, 0x02, 0, 0]), Err(MemflowPyError::SliceConversion));
}

#[test]
fn empty_structure_decodes_and_encodes_nothing() {
    let dt = structure(2, vec![]);
    assert_eq!(dt.py_from_bytes(vec![]), Ok(Value::Structure(OwnerHandle(2), vec![])));
    assert_eq!(dt.py_to_bytes(&Value::Int(0)), Ok(vec![]));
}

#[test]
fn array_decodes_every_element_in_order() {
    let dt = InternalDT::Array(OwnerHandle(3), Box::new(InternalDT::UShort), 3);
    let decoded = dt.py_from_bytes(vec![1, 0, 2, 0, 3, 0]);
    assert_eq!(
        decoded,
        Ok(Value::Array(OwnerHandle(3), vec![Value::Int(1), Value::Int(2), Value::Int(3)]))
    );
}

#[test]
fn array_encodes_its_length_and_ignores_extra_items() {
    let dt = InternalDT::Array(OwnerHandle(3), Box::new(InternalDT::UShort), 2);
    let obj = Value::Array(OwnerHandle(0), vec![Value::Int(1), Value::Int(2), Value::Int(70000)]);
    assert_eq!(dt.py_to_bytes(&obj), Ok(vec![1, 0, 2, 0]));
}

#[test]
fn array_with_too_few_items_is_a_host_failure() {
    let dt = InternalDT::Array(OwnerHandle(3), Box::new(InternalDT::UShort), 3);
    let obj = Value::Array(OwnerHandle(0), vec![Value::Int(1), Value::Int(2)]);
    assert_eq!(dt.py_to_bytes(&obj), Err(MemflowPyError::HostModelError));
    assert_eq!(dt.py_to_bytes(&Value::Int(1)), Err(MemflowPyError::HostModelError));
}

#[test]
fn array_of_wrong_length_is_a_slice_conversion() {
    let dt = InternalDT::Array(OwnerHandle(3), Box::new(InternalDT::UShort), 3);
    assert_eq!(dt.py_from_bytes(vec![1, 0, 2, 0, 3]), Err(MemflowPyError::SliceConversion));
    assert_eq!(dt.py_from_bytes(vec![1, 0, 2, 0, 3, 0, 4]), Err(MemflowPyError::SliceConversion));
}

#[test]
fn empty_array_decodes_and_encodes_nothing() {
    let dt = InternalDT::Array(OwnerHandle(3), Box::new(InternalDT::LongDouble), 0);
    assert_eq!(dt.py_from_bytes(vec![]), Ok(Value::Array(OwnerHandle(3), vec![])));
    assert_eq!(dt.py_to_bytes(&Value::Int(0)), Ok(vec![]));
}

#[test]
fn failure_inside_a_composite_comes_out_unchanged() {
    let dt = InternalDT::Array(OwnerHandle(3), Box::new(InternalDT::LongDouble), 1);
    assert_eq!(dt.py_from_bytes(vec![0; 16]), Err(MemflowPyError::UnsupportedIdentifier));
    let st = structure(1, vec![field("x", 0, InternalDT::Int), field("y", 4, InternalDT::LongDouble)]);
    assert_eq!(st.py_from_bytes(vec![0; 20]), Err(MemflowPyError::UnsupportedIdentifier));
}

#[test]
fn nested_composites_round_trip() {
    let inner = structure(5, vec![field("x", 0, InternalDT::Short), field("y", 2, InternalDT::Short)]);
    let dt = structure(
        6,
        vec![
            field("points", 0, InternalDT::Array(OwnerHandle(7), Box::new(inner), 2)),
            field("next", 8, InternalDT::Pointer(OwnerHandle(8), 8)),
        ],
    );
    assert_eq!(dt.size(), 16);
    let bytes = vec![1, 0, 0xff, 0xff, 3, 0, 4, 0, 0xef, 0xbe, 0xad, 0xde, 0, 0, 0, 0];
    let decoded = dt.py_from_bytes(bytes.clone()).unwrap();
    let point = |x: i128, y: i128| {
        Value::Structure(OwnerHandle(5), vec![attr("x", Value::Int(x)), attr("y", Value::Int(y))])
    };
    assert_eq!(
        decoded,
        Value::Structure(
            OwnerHandle(6),
            vec![
                attr("points", Value::Array(OwnerHandle(7), vec![point(1, -1), point(3, 4)])),
                attr("next", Value::Pointer(OwnerHandle(8), 0xdeadbeef)),
            ]
        )
    );
    assert_eq!(dt.py_to_bytes(&decoded), Ok(bytes));
}

#[test]
fn decode_range_reads_inside_a_larger_buffer() {
    let buffer = [0xee, 0x34, 0x12, 0xee];
    assert_eq!(InternalDT::UShort.decode_range(&buffer, 1, 3), Ok(Value::Int(0x1234)));
    assert_eq!(InternalDT::UShort.decode_range(&buffer, 1, 2), Err(MemflowPyError::SliceConversion));
}

#[test]
fn pointer_of_four_bytes_zero_extends_on_decode() {
    let dt = InternalDT::Pointer(OwnerHandle(11), 4);
    assert_eq!(
        dt.py_from_bytes(vec![0x78, 0x56, 0x34, 0x12]),
        Ok(Value::Pointer(OwnerHandle(11), 0x12345678))
    );
    assert_eq!(dt.py_from_bytes(vec![0xff; 4]), Ok(Value::Pointer(OwnerHandle(11), 0xffff_ffff)));
}

#[test]
fn pointer_of_four_bytes_truncates_on_encode() {
    let dt = InternalDT::Pointer(OwnerHandle(11), 4);
    let obj = Value::Pointer(OwnerHandle(0), 0x1122_3344_5566_7788);
    assert_eq!(dt.py_to_bytes(&obj), Ok(vec![0x88, 0x77, 0x66, 0x55]));
}

#[test]
fn pointer_of_eight_bytes_round_trips() {
    let dt = InternalDT::Pointer(OwnerHandle(11), 8);
    let bytes = vec![0x88, 0x77, 0x66, 0x55, 0x44, 0x33, 0x22, 0x11];
    assert_eq!(dt.py_from_bytes(bytes.clone()), Ok(Value::Pointer(OwnerHandle(11), 0x1122_3344_5566_7788)));
    assert_eq!(dt.py_to_bytes(&Value::Pointer(OwnerHandle(11), 0x1122_3344_5566_7788)), Ok(bytes));
}

#[test]
fn pointer_failures() {
    let dt = InternalDT::Pointer(OwnerHandle(11), 4);
    assert_eq!(dt.py_from_bytes(vec![0; 8]), Err(MemflowPyError::SliceConversion));
    assert_eq!(dt.py_to_bytes(&Value::Int(5)), Err(MemflowPyError::HostModelError));
    let wide = InternalDT::Pointer(OwnerHandle(11), 16);
    assert_eq!(wide.py_from_bytes(vec![0; 16]), Err(MemflowPyError::SliceConversion));
    assert_eq!(wide.py_to_bytes(&Value::Pointer(OwnerHandle(0), 1)), Err(MemflowPyError::SliceConversion));
}

#[test]
fn encoding_an_oversized_layout_is_a_size_overflow() {
    let big = InternalDT::Array(OwnerHandle(0), Box::new(InternalDT::ULongLong), u32::MAX);
    let bigger = InternalDT::Array(OwnerHandle(0), Box::new(big), u32::MAX);
    let biggest = InternalDT::Array(OwnerHandle(0), Box::new(bigger), u32::MAX);
    assert_eq!(biggest.py_to_bytes(&Value::Array(OwnerHandle(0), vec![])), Err(MemflowPyError::SizeOverflow));
    assert_eq!(biggest.py_from_bytes(vec![0; 4]), Err(MemflowPyError::SliceConversion));
    let far = structure(0, vec![field("x", usize::MAX, InternalDT::UByte)]);
    assert_eq!(far.py_to_bytes(&Value::Int(0)), Err(MemflowPyError::SizeOverflow));
}

#[test]
fn value_lookups() {
    let obj = Value::Structure(OwnerHandle(1), vec![attr("a", Value::Int(1)), attr("a", Value::Int(2))]);
    assert_eq!(obj.attribute(&"a".to_string()), Some(&Value::Int(1)));
    assert_eq!(obj.attribute(&"b".to_string()), None);
    assert_eq!(obj.item(0), None);
    let list = Value::Array(OwnerHandle(1), vec![Value::Int(7)]);
    assert_eq!(list.item(0), Some(&Value::Int(7)));
    assert_eq!(list.item(1), None);
    assert_eq!(list.attribute(&"a".to_string()), None);
}
