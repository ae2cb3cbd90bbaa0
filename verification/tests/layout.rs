use memflow_py::descriptor::{Field, FieldMap, InternalDT, OwnerHandle};

fn field(name: &str, offset: usize, dt: InternalDT) -> Field {
    Field { name: name.to_string(), offset, dt }
}

fn structure(fields: Vec<Field>) -> InternalDT {
    let mut map = FieldMap::new();
    for f in fields {
        map.insert(f);
    }
    InternalDT::Structure(OwnerHandle(7), map)
}

#[test]
fn scalar_sizes() {
    assert_eq!(InternalDT::Byte.size(), 1);
    assert_eq!(InternalDT::UByte.size(), 1);
    assert_eq!(InternalDT::Char.size(), 1);
    assert_eq!(InternalDT::WideChar.size(), 2);
    assert_eq!(InternalDT::Short.size(), 2);
    assert_eq!(InternalDT::UShort.size(), 2);
    assert_eq!(InternalDT::Float.size(), 4);
    assert_eq!(InternalDT::Int.size(), 4);
    assert_eq!(InternalDT::UInt.size(), 4);
    assert_eq!(InternalDT::Double.size(), 8);
    assert_eq!(InternalDT::Long.size(), 8);
    assert_eq!(InternalDT::ULong.size(), 8);
    assert_eq!(InternalDT::LongLong.size(), 8);
    assert_eq!(InternalDT::ULongLong.size(), 8);
    assert_eq!(InternalDT::LongDouble.size(), 16);
}

#[test]
fn pointer_size_is_its_byteness() {
    assert_eq!(InternalDT::Pointer(OwnerHandle(0), 4).size(), 4);
    assert_eq!(InternalDT::Pointer(OwnerHandle(0), 8).size(), 8);
    assert_eq!(InternalDT::Pointer(OwnerHandle(0), 0).size(), 0);
}

#[test]
fn array_size_is_element_size_times_length() {
    let array = InternalDT::Array(OwnerHandle(1), Box::new(InternalDT::Int), 5);
    assert_eq!(array.size(), 20);
    let empty = InternalDT::Array(OwnerHandle(1), Box::new(InternalDT::Double), 0);
    assert_eq!(empty.size(), 0);
    let nested = InternalDT::Array(OwnerHandle(1), Box::new(array), 3);
    assert_eq!(nested.size(), 60);
}

#[test]
fn structure_size_is_the_furthest_end() {
    let packed = structure(vec![field("a", 0, InternalDT::UByte), field("b", 1, InternalDT::UShort)]);
    assert_eq!(packed.size(), 3);
    let gap = structure(vec![field("a", 0, InternalDT::UByte), field("b", 8, InternalDT::Int)]);
    assert_eq!(gap.size(), 12);
    let overlap = structure(vec![field("wide", 0, InternalDT::ULongLong), field("low", 0, InternalDT::UInt)]);
    assert_eq!(overlap.size(), 8);
    let unordered = structure(vec![field("late", 10, InternalDT::Short), field("early", 0, InternalDT::Int)]);
    assert_eq!(unordered.size(), 12);
}

#[test]
fn empty_structure_has_size_zero() {
    assert_eq!(structure(vec![]).size(), 0);
    assert_eq!(structure(vec![]).checked_size(), Some(0));
}

#[test]
fn checked_size_agrees_with_size() {
    let dt = structure(vec![
        field("a", 0, InternalDT::Array(OwnerHandle(2), Box::new(InternalDT::Short), 4)),
        field("p", 8, InternalDT::Pointer(OwnerHandle(3), 8)),
    ]);
    assert_eq!(dt.checked_size(), Some(16));
    assert_eq!(dt.size(), 16);
}

#[test]
fn checked_size_reports_overflow() {
    let big = InternalDT::Array(OwnerHandle(0), Box::new(InternalDT::ULongLong), u32::MAX);
    let bigger = InternalDT::Array(OwnerHandle(0), Box::new(big), u32::MAX);
    let biggest = InternalDT::Array(OwnerHandle(0), Box::new(bigger), u32::MAX);
    assert_eq!(biggest.checked_size(), None);
    let none_taken = InternalDT::Array(OwnerHandle(0), Box::new(biggest), 0);
    assert_eq!(none_taken.checked_size(), Some(0));
    assert_eq!(none_taken.size(), 0);
    let far = structure(vec![field("x", usize::MAX, InternalDT::UByte)]);
    assert_eq!(far.checked_size(), None);
    let edge = structure(vec![field("x", usize::MAX - 1, InternalDT::UByte)]);
    assert_eq!(edge.checked_size(), Some(usize::MAX));
}

#[test]
fn field_map_keeps_names_unique_and_places_stable() {
    let mut map = FieldMap::new();
    assert_eq!(map.len(), 0);
    map.insert(field("a", 0, InternalDT::Int));
    map.insert(field("b", 4, InternalDT::Int));
    map.insert(field("a", 16, InternalDT::Short));
    assert_eq!(map.len(), 2);
    assert_eq!(map.entries[0], field("a", 16, InternalDT::Short));
    assert_eq!(map.entries[1], field("b", 4, InternalDT::Int));
    assert_eq!(map.get(&"a".to_string()), Some(&field("a", 16, InternalDT::Short)));
    assert_eq!(map.get(&"b".to_string()), Some(&field("b", 4, InternalDT::Int)));
    assert_eq!(map.get(&"c".to_string()), None);
}
