//! Decoding: from a byte buffer to a host object, as a descriptor directs.

use crate::descriptor::{FieldLayout, InternalDT, Layout};
use crate::endian::{
    from_twos_complement, le_value, lemma_le_value_bound, lemma_pow256_grows,
    lemma_pow256_values, power_of_256, read_le,
};
use crate::error::{outcome, Failure, MemflowPyError};
use crate::value::{objects_of, slots_of, Attribute, Object, Slot, Value};
use vstd::prelude::*;

verus! {

/// What `bytes` hold when read as one integer of `width` bytes.
pub open spec fn decode_integer(bytes: Seq<u8>, width: nat, signed: bool) -> Result<
    Object,
    Failure,
> {
    if bytes.len() != width {
        Err(Failure::SliceConversion)
    } else if signed {
        Ok(Object::Int(from_twos_complement(le_value(bytes), width)))
    } else {
        Ok(Object::Int(le_value(bytes) as int))
    }
}

/// The `index`-th run of `each` bytes in `bytes`.
pub open spec fn chunk(bytes: Seq<u8>, each: nat, index: nat) -> Seq<u8> {
    bytes.subrange((index * each) as int, (index * each + each) as int)
}

/// The bytes of `bytes` that `field` covers.
pub open spec fn field_bytes(bytes: Seq<u8>, field: FieldLayout) -> Seq<u8> {
    bytes.subrange(field.offset as int, (field.offset + field.dt.size()) as int)
}

/// The object that `bytes` hold under `layout`, or the failure.
///
/// The buffer must be exactly as long as the layout is large. An array
/// holds its elements back to back, a structure holds each field at its
/// offset, and the first part that fails decides the failure.
pub open spec fn decode(layout: Layout, bytes: Seq<u8>) -> Result<Object, Failure>
    decreases layout, 0nat,
{
    match layout {
        Layout::LongDouble => Err(Failure::UnsupportedIdentifier),
        Layout::Byte | Layout::Char => decode_integer(bytes, 1, true),
        Layout::UByte => decode_integer(bytes, 1, false),
        Layout::Short => decode_integer(bytes, 2, true),
        Layout::WideChar | Layout::UShort => decode_integer(bytes, 2, false),
        Layout::Int => decode_integer(bytes, 4, true),
        Layout::UInt => decode_integer(bytes, 4, false),
        Layout::Long | Layout::LongLong => decode_integer(bytes, 8, true),
        Layout::ULong | Layout::ULongLong => decode_integer(bytes, 8, false),
        Layout::Float => if bytes.len() != 4 {
            Err(Failure::SliceConversion)
        } else {
            Ok(Object::Float(le_value(bytes)))
        },
        Layout::Double => if bytes.len() != 8 {
            Err(Failure::SliceConversion)
        } else {
            Ok(Object::Double(le_value(bytes)))
        },
        Layout::Pointer(owner, byteness) => if bytes.len() != byteness || byteness > 8 {
            Err(Failure::SliceConversion)
        } else {
            Ok(Object::Pointer(owner, le_value(bytes)))
        },
        Layout::Array(owner, element, len) => if bytes.len() != layout.size() {
            Err(Failure::SliceConversion)
        } else {
            match decode_items(*element, bytes, len as nat) {
                Ok(items) => Ok(Object::Array(owner, items)),
                Err(e) => Err(e),
            }
        },
        Layout::Structure(owner, fields) => if bytes.len() != layout.size() {
            Err(Failure::SliceConversion)
        } else {
            match decode_fields(fields, bytes, fields.len()) {
                Ok(slots) => Ok(Object::Structure(owner, slots)),
                Err(e) => Err(e),
            }
        },
    }
}

/// The first `n` elements of an array, decoded in index order.
pub open spec fn decode_items(element: Layout, bytes: Seq<u8>, n: nat) -> Result<
    Seq<Object>,
    Failure,
>
    decreases element, n,
{
    if n == 0 {
        Ok(Seq::empty())
    } else {
        match decode_items(element, bytes, (n - 1) as nat) {
            Err(e) => Err(e),
            Ok(items) => match decode(element, chunk(bytes, element.size(), (n - 1) as nat)) {
                Err(e) => Err(e),
                Ok(item) => Ok(items.push(item)),
            },
        }
    }
}

/// The first `n` fields of a structure, decoded in field order.
pub open spec fn decode_fields(fields: Seq<FieldLayout>, bytes: Seq<u8>, n: nat) -> Result<
    Seq<Slot>,
    Failure,
>
    decreases fields, n,
{
    if n == 0 || n > fields.len() {
        Ok(Seq::empty())
    } else {
        match decode_fields(fields, bytes, (n - 1) as nat) {
            Err(e) => Err(e),
            Ok(slots) => match decode(fields[n - 1].dt, field_bytes(bytes, fields[n - 1])) {
                Err(e) => Err(e),
                Ok(value) => Ok(slots.push(Slot { name: fields[n - 1].name, value })),
            },
        }
    }
}

/// Once an element has failed, decoding more elements fails the same way.
pub proof fn lemma_decode_items_failure(element: Layout, bytes: Seq<u8>, n: nat, m: nat)
    requires
        n <= m,
        decode_items(element, bytes, n) is Err,
    ensures
        decode_items(element, bytes, m) == decode_items(element, bytes, n),
    decreases m,
{
    if n < m {
        lemma_decode_items_failure(element, bytes, n, (m - 1) as nat);
    }
}

/// Once a field has failed, decoding more fields fails the same way.
pub proof fn lemma_decode_fields_failure(fields: Seq<FieldLayout>, bytes: Seq<u8>, n: nat, m: nat)
    requires
        n <= m <= fields.len(),
        decode_fields(fields, bytes, n) is Err,
    ensures
        decode_fields(fields, bytes, m) == decode_fields(fields, bytes, n),
    decreases m,
{
    if n < m {
        lemma_decode_fields_failure(fields, bytes, n, (m - 1) as nat);
    }
}

/// Reads `bytes[start..end]` as one integer of `width` bytes.
fn integer_from_range(bytes: &[u8], start: usize, end: usize, width: usize, signed: bool) -> (r:
    Result<Value, MemflowPyError>)
    requires
        start <= end <= bytes@.len(),
        1 <= width <= 8,
    ensures
        outcome(r) == decode_integer(
            bytes@.subrange(start as int, end as int),
            width as nat,
            signed,
        ),
{
    if end - start != width {
        return Err(MemflowPyError::SliceConversion);
    }
    let raw = read_le(bytes, start, width);
    proof {
        lemma_le_value_bound(bytes@.subrange(start as int, end as int));
        lemma_pow256_grows(width as nat, 8);
        lemma_pow256_values();
    }
    if signed {
        let modulus = power_of_256(width);
        if 2 * (raw as u128) >= modulus {
            Ok(Value::Int(raw as i128 - modulus as i128))
        } else {
            Ok(Value::Int(raw as i128))
        }
    } else {
        Ok(Value::Int(raw as i128))
    }
}

impl InternalDT {
    /// Decodes the whole of `bytes` as one value of this type.
    pub fn py_from_bytes(&self, bytes: Vec<u8>) -> (r: Result<Value, MemflowPyError>)
        ensures
            outcome(r) == decode(self@, bytes@),
    {
        let end = bytes.len();
        assert(bytes@.subrange(0, end as int) =~= bytes@);
        self.decode_range(bytes.as_slice(), 0, end)
    }

    /// Decodes `bytes[start..end]` as one value of this type.
    pub fn decode_range(&self, bytes: &[u8], start: usize, end: usize) -> (r: Result<
        Value,
        MemflowPyError,
    >)
        requires
            start <= end <= bytes@.len(),
        ensures
            outcome(r) == decode(self@, bytes@.subrange(start as int, end as int)),
        decreases self,
    {
        let ghost part = bytes@.subrange(start as int, end as int);
        match self {
            InternalDT::LongDouble => Err(MemflowPyError::UnsupportedIdentifier),
            InternalDT::Byte | InternalDT::Char => integer_from_range(bytes, start, end, 1, true),
            InternalDT::UByte => integer_from_range(bytes, start, end, 1, false),
            InternalDT::Short => integer_from_range(bytes, start, end, 2, true),
            InternalDT::WideChar | InternalDT::UShort => integer_from_range(
                bytes,
                start,
                end,
                2,
                false,
            ),
            InternalDT::Int => integer_from_range(bytes, start, end, 4, true),
            InternalDT::UInt => integer_from_range(bytes, start, end, 4, false),
            InternalDT::Long | InternalDT::LongLong => integer_from_range(
                bytes,
                start,
                end,
                8,
                true,
            ),
            InternalDT::ULong | InternalDT::ULongLong => integer_from_range(
                bytes,
                start,
                end,
                8,
                false,
            ),
            InternalDT::Float => {
                if end - start != 4 {
                    return Err(MemflowPyError::SliceConversion);
                }
                proof {
                    lemma_le_value_bound(part);
                    lemma_pow256_values();
                }
                Ok(Value::Float(read_le(bytes, start, 4) as u32))
            },
            InternalDT::Double => {
                if end - start != 8 {
                    return Err(MemflowPyError::SliceConversion);
                }
                Ok(Value::Double(read_le(bytes, start, 8)))
            },
            InternalDT::Pointer(owner, byteness) => {
                if *byteness > 8 || end - start != *byteness as usize {
                    return Err(MemflowPyError::SliceConversion);
                }
                Ok(Value::Pointer(*owner, read_le(bytes, start, *byteness as usize)))
            },
            InternalDT::Array(owner, element, len) => {
                match self.checked_size() {
                    Some(total) => {
                        if total != end - start {
                            return Err(MemflowPyError::SliceConversion);
                        }
                    },
                    None => {
                        return Err(MemflowPyError::SliceConversion);
                    },
                }
                let mut items: Vec<Value> = Vec::new();
                assert(objects_of(items@) =~= Seq::<Object>::empty());
                if *len == 0 {
                    let value = Value::Array(*owner, items);
                    assert(value@->Array_1 =~= objects_of(items@));
                    return Ok(value);
                }
                assert(element@.size() <= element@.size() * (*len as nat)) by (nonlinear_arith)
                    requires
                        *len >= 1,
                ;
                let each = element.size();
                let count = *len as usize;
                let mut i: usize = 0;
                while i < count
                    invariant
                        i <= count,
                        count == *len,
                        start <= end <= bytes@.len(),
                        part == bytes@.subrange(start as int, end as int),
                        each == element@.size(),
                        each * count == end - start,
                        decode(self@, part) == match decode_items(element@, part, count as nat) {
                            Ok(items) => Ok::<Object, Failure>(Object::Array(*owner, items)),
                            Err(e) => Err(e),
                        },
                        decode_items(element@, part, i as nat) == Ok::<Seq<Object>, Failure>(
                            objects_of(items@),
                        ),
                        decreases_to!(self => element),
                    decreases count - i,
                {
                    assert(i * each + each <= each * count) by (nonlinear_arith)
                        requires
                            i < count,
                    ;
                    assert(0 <= i * each) by (nonlinear_arith);
                    let low = start + i * each;
                    let high = low + each;
                    assert(bytes@.subrange(low as int, high as int) =~= chunk(
                        part,
                        each as nat,
                        i as nat,
                    ));
                    match element.decode_range(bytes, low, high) {
                        Ok(item) => {
                            let ghost before = items@;
                            items.push(item);
                            assert(objects_of(items@) =~= objects_of(before).push(item@));
                        },
                        Err(e) => {
                            proof {
                                lemma_decode_items_failure(
                                    element@,
                                    part,
                                    (i + 1) as nat,
                                    count as nat,
                                );
                            }
                            return Err(e);
                        },
                    }
                    i = i + 1;
                }
                let value = Value::Array(*owner, items);
                assert(value@->Array_1 =~= objects_of(items@));
                Ok(value)
            },
            InternalDT::Structure(owner, fields) => {
                assert(self@->Structure_1 =~= fields@);
                match self.checked_size() {
                    Some(total) => {
                        if total != end - start {
                            return Err(MemflowPyError::SliceConversion);
                        }
                    },
                    None => {
                        return Err(MemflowPyError::SliceConversion);
                    },
                }
                let mut attributes: Vec<Attribute> = Vec::new();
                assert(slots_of(attributes@) =~= Seq::<Slot>::empty());
                let mut i: usize = 0;
                while i < fields.entries.len()
                    invariant
                        i <= fields.entries.len(),
                        fields@.len() == fields.entries.len(),
                        start <= end <= bytes@.len(),
                        part == bytes@.subrange(start as int, end as int),
                        Layout::extent(fields@, fields@.len()) == end - start,
                        decode(self@, part) == match decode_fields(fields@, part, fields@.len()) {
                            Ok(slots) => Ok::<Object, Failure>(Object::Structure(*owner, slots)),
                            Err(e) => Err(e),
                        },
                        decode_fields(fields@, part, i as nat) == Ok::<Seq<Slot>, Failure>(
                            slots_of(attributes@),
                        ),
                        decreases_to!(self => fields),
                    decreases fields.entries.len() - i,
                {
                    let field = &fields.entries[i];
                    proof {
                        Layout::lemma_extent_bounds(fields@, fields@.len(), i as int);
                    }
                    let low = start + field.offset;
                    let high = low + field.dt.size();
                    assert(bytes@.subrange(low as int, high as int) =~= field_bytes(
                        part,
                        fields@[i as int],
                    ));
                    match field.dt.decode_range(bytes, low, high) {
                        Ok(value) => {
                            let ghost before = attributes@;
                            let attribute = Attribute { name: field.name.clone(), value };
                            attributes.push(attribute);
                            assert(slots_of(attributes@) =~= slots_of(before).push(attribute@));
                        },
                        Err(e) => {
                            proof {
                                lemma_decode_fields_failure(
                                    fields@,
                                    part,
                                    (i + 1) as nat,
                                    fields@.len(),
                                );
                            }
                            return Err(e);
                        },
                    }
                    i = i + 1;
                }
                let value = Value::Structure(*owner, attributes);
                assert(value@->Structure_1 =~= slots_of(attributes@));
                Ok(value)
            },
        }
    }
}

} // verus!
