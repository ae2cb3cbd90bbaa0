//! Encoding: from a host object to a byte buffer, as a descriptor directs.

use crate::descriptor::{FieldLayout, InternalDT, Layout};
use crate::endian::{
    le_bytes, lemma_le_bytes_len, lemma_pow256_grows, lemma_pow256_values, pow256, power_of_256,
    to_twos_complement, write_le,
};
use crate::error::{outcome, Failure, MemflowPyError};
use crate::value::{Object, Value};
use vstd::prelude::*;

verus! {

/// `n` bytes that are all zero.
pub open spec fn zeros(n: nat) -> Seq<u8> {
    Seq::new(n, |i: int| 0u8)
}

/// `buffer` with `part` written over it from `offset` on.
pub open spec fn overlay(buffer: Seq<u8>, offset: nat, part: Seq<u8>) -> Seq<u8> {
    Seq::new(
        buffer.len(),
        |i: int|
            if offset <= i < offset + part.len() {
                part[i - offset]
            } else {
                buffer[i]
            },
    )
}

/// Whether the integer `value` can be held in `width` bytes.
pub open spec fn integer_fits(value: int, width: nat, signed: bool) -> bool {
    if signed {
        -(pow256(width) as int) <= 2 * value < pow256(width)
    } else {
        0 <= value < pow256(width)
    }
}

/// The `width` bytes of the host integer `obj`. Anything that is not an
/// integer of that range is a host failure.
pub open spec fn encode_integer(obj: Object, width: nat, signed: bool) -> Result<
    Seq<u8>,
    Failure,
> {
    match obj {
        Object::Int(value) => if integer_fits(value, width, signed) {
            Ok(le_bytes(to_twos_complement(value, width), width))
        } else {
            Err(Failure::HostModelError)
        },
        _ => Err(Failure::HostModelError),
    }
}

/// The bytes of `obj` under `layout`, or the failure.
///
/// An array reads the items 0 up to its length and nothing beyond them. A
/// structure starts from zero bytes and writes each field at its offset in
/// field order, so that of two fields that overlap the later one stays.
/// The first part that fails decides the failure.
pub open spec fn encode(layout: Layout, obj: Object) -> Result<Seq<u8>, Failure>
    decreases layout, 0nat,
{
    match layout {
        Layout::LongDouble => Err(Failure::UnsupportedIdentifier),
        Layout::Byte | Layout::Char => encode_integer(obj, 1, true),
        Layout::UByte => encode_integer(obj, 1, false),
        Layout::Short => encode_integer(obj, 2, true),
        Layout::WideChar | Layout::UShort => encode_integer(obj, 2, false),
        Layout::Int => encode_integer(obj, 4, true),
        Layout::UInt => encode_integer(obj, 4, false),
        Layout::Long | Layout::LongLong => encode_integer(obj, 8, true),
        Layout::ULong | Layout::ULongLong => encode_integer(obj, 8, false),
        Layout::Float => match obj {
            Object::Float(bits) => if bits < pow256(4) {
                Ok(le_bytes(bits, 4))
            } else {
                Err(Failure::HostModelError)
            },
            _ => Err(Failure::HostModelError),
        },
        Layout::Double => match obj {
            Object::Double(bits) => if bits < pow256(8) {
                Ok(le_bytes(bits, 8))
            } else {
                Err(Failure::HostModelError)
            },
            _ => Err(Failure::HostModelError),
        },
        Layout::Pointer(_, byteness) => match obj {
            Object::Pointer(_, addr) => if addr >= pow256(8) {
                Err(Failure::HostModelError)
            } else if byteness > 8 {
                Err(Failure::SliceConversion)
            } else {
                Ok(le_bytes(addr, byteness as nat))
            },
            _ => Err(Failure::HostModelError),
        },
        Layout::Array(_, element, len) => if layout.size() > usize::MAX {
            Err(Failure::SizeOverflow)
        } else {
            encode_items(*element, obj, len as nat)
        },
        Layout::Structure(_, fields) => if layout.size() > usize::MAX {
            Err(Failure::SizeOverflow)
        } else {
            encode_fields(fields, obj, fields.len(), layout.size())
        },
    }
}

/// The bytes of the first `n` items of `obj`, back to back.
pub open spec fn encode_items(element: Layout, obj: Object, n: nat) -> Result<Seq<u8>, Failure>
    decreases element, n,
{
    if n == 0 {
        Ok(Seq::empty())
    } else {
        match encode_items(element, obj, (n - 1) as nat) {
            Err(e) => Err(e),
            Ok(bytes) => match obj.item((n - 1) as nat) {
                None => Err(Failure::HostModelError),
                Some(item) => match encode(element, item) {
                    Err(e) => Err(e),
                    Ok(part) => Ok(bytes + part),
                },
            },
        }
    }
}

/// A zeroed buffer of `size` bytes with the first `n` fields written to it.
pub open spec fn encode_fields(fields: Seq<FieldLayout>, obj: Object, n: nat, size: nat) -> Result<
    Seq<u8>,
    Failure,
>
    decreases fields, n,
{
    if n == 0 || n > fields.len() {
        Ok(zeros(size))
    } else {
        match encode_fields(fields, obj, (n - 1) as nat, size) {
            Err(e) => Err(e),
            Ok(buffer) => match obj.attribute(fields[n - 1].name) {
                None => Err(Failure::MissingAttribute(fields[n - 1].name)),
                Some(value) => match encode(fields[n - 1].dt, value) {
                    Err(e) => Err(e),
                    Ok(part) => Ok(overlay(buffer, fields[n - 1].offset, part)),
                },
            },
        }
    }
}

/// Once an item has failed, encoding more items fails the same way.
pub proof fn lemma_encode_items_failure(element: Layout, obj: Object, n: nat, m: nat)
    requires
        n <= m,
        encode_items(element, obj, n) is Err,
    ensures
        encode_items(element, obj, m) == encode_items(element, obj, n),
    decreases m,
{
    if n < m {
        lemma_encode_items_failure(element, obj, n, (m - 1) as nat);
    }
}

/// Once a field has failed, encoding more fields fails the same way.
pub proof fn lemma_encode_fields_failure(
    fields: Seq<FieldLayout>,
    obj: Object,
    n: nat,
    m: nat,
    size: nat,
)
    requires
        n <= m <= fields.len(),
        encode_fields(fields, obj, n, size) is Err,
    ensures
        encode_fields(fields, obj, m, size) == encode_fields(fields, obj, n, size),
    decreases m,
{
    if n < m {
        lemma_encode_fields_failure(fields, obj, n, (m - 1) as nat, size);
    }
}

/// Every successful encoding is exactly as long as the layout is large.
pub proof fn lemma_encode_len(layout: Layout, obj: Object)
    ensures
        encode(layout, obj) matches Ok(bytes) ==> bytes.len() == layout.size(),
    decreases layout, 0nat,
{
    match layout {
        Layout::Array(_, element, len) => {
            lemma_encode_items_len(*element, obj, len as nat);
        },
        Layout::Structure(_, fields) => {
            lemma_encode_fields_len(fields, obj, fields.len(), layout.size());
        },
        Layout::Pointer(_, byteness) => {
            if let Object::Pointer(_, addr) = obj {
                lemma_le_bytes_len(addr, byteness as nat);
            }
        },
        Layout::Float => {
            if let Object::Float(bits) = obj {
                lemma_le_bytes_len(bits, 4);
            }
        },
        Layout::Double => {
            if let Object::Double(bits) = obj {
                lemma_le_bytes_len(bits, 8);
            }
        },
        Layout::LongDouble => {},
        _ => {
            if let Object::Int(value) = obj {
                lemma_le_bytes_len(to_twos_complement(value, 1), 1);
                lemma_le_bytes_len(to_twos_complement(value, 2), 2);
                lemma_le_bytes_len(to_twos_complement(value, 4), 4);
                lemma_le_bytes_len(to_twos_complement(value, 8), 8);
            }
        },
    }
}

/// The first `n` items of an array encode to `n` times the element size.
pub proof fn lemma_encode_items_len(element: Layout, obj: Object, n: nat)
    ensures
        encode_items(element, obj, n) matches Ok(bytes) ==> bytes.len() == element.size() * n,
    decreases element, n,
{
    if n > 0 {
        lemma_encode_items_len(element, obj, (n - 1) as nat);
        if let Some(item) = obj.item((n - 1) as nat) {
            lemma_encode_len(element, item);
        }
        assert(element.size() * (n - 1) + element.size() == element.size() * n)
            by (nonlinear_arith);
    } else {
        assert(element.size() * n == 0) by (nonlinear_arith)
            requires
                n == 0,
        ;
    }
}

/// Writing fields never changes the length of the buffer.
pub proof fn lemma_encode_fields_len(fields: Seq<FieldLayout>, obj: Object, n: nat, size: nat)
    ensures
        encode_fields(fields, obj, n, size) matches Ok(bytes) ==> bytes.len() == size,
    decreases fields, n,
{
    if n > 0 && n <= fields.len() {
        lemma_encode_fields_len(fields, obj, (n - 1) as nat, size);
    }
}

/// A buffer of `n` zero bytes.
fn zeroed(n: usize) -> (buffer: Vec<u8>)
    ensures
        buffer@ == zeros(n as nat),
{
    let mut buffer: Vec<u8> = Vec::new();
    let mut i: usize = 0;
    while i < n
        invariant
            i <= n,
            buffer@ == zeros(i as nat),
        decreases n - i,
    {
        buffer.push(0u8);
        i = i + 1;
    }
    buffer
}

/// Writes `part` over `buffer` from `offset` on.
fn write_at(buffer: &mut Vec<u8>, offset: usize, part: &Vec<u8>)
    requires
        offset + part@.len() <= old(buffer)@.len(),
    ensures
        final(buffer)@ == overlay(old(buffer)@, offset as nat, part@),
{
    let total = buffer.len();
    let mut j: usize = 0;
    while j < part.len()
        invariant
            j <= part@.len(),
            offset + part@.len() <= buffer@.len() == total,
            buffer@ == overlay(old(buffer)@, offset as nat, part@.take(j as int)),
        decreases part@.len() - j,
    {
        buffer.set(offset + j, part[j]);
        j = j + 1;
    }
    assert(part@.take(j as int) =~= part@);
}

/// The `width` bytes of the host integer `obj`.
fn integer_to_bytes(obj: &Value, width: usize, signed: bool) -> (r: Result<Vec<u8>, MemflowPyError>)
    requires
        1 <= width <= 8,
    ensures
        outcome(r) == encode_integer(obj@, width as nat, signed),
{
    match obj {
        Value::Int(value) => {
            let modulus: i128 = power_of_256(width) as i128;
            proof {
                lemma_pow256_grows(width as nat, 8);
                lemma_pow256_grows(1, width as nat);
                lemma_pow256_values();
                assert(pow256(width as nat) == 256 * pow256((width - 1) as nat));
            }
            let half: i128 = modulus / 2;
            if signed {
                if -half <= *value && *value < half {
                    let raw: i128 = if *value < 0 {
                        *value + modulus
                    } else {
                        *value
                    };
                    Ok(write_le(raw as u64, width))
                } else {
                    Err(MemflowPyError::HostModelError)
                }
            } else {
                if 0 <= *value && *value < modulus {
                    Ok(write_le(*value as u64, width))
                } else {
                    Err(MemflowPyError::HostModelError)
                }
            }
        },
        _ => Err(MemflowPyError::HostModelError),
    }
}

impl InternalDT {
    /// Encodes `obj` as one value of this type.
    pub fn py_to_bytes(&self, obj: &Value) -> (r: Result<Vec<u8>, MemflowPyError>)
        ensures
            outcome(r) == encode(self@, obj@),
            r matches Ok(bytes) ==> bytes@.len() == self@.size(),
        decreases self,
    {
        proof {
            lemma_encode_len(self@, obj@);
        }
        match self {
            InternalDT::LongDouble => Err(MemflowPyError::UnsupportedIdentifier),
            InternalDT::Byte | InternalDT::Char => integer_to_bytes(obj, 1, true),
            InternalDT::UByte => integer_to_bytes(obj, 1, false),
            InternalDT::Short => integer_to_bytes(obj, 2, true),
            InternalDT::WideChar | InternalDT::UShort => integer_to_bytes(obj, 2, false),
            InternalDT::Int => integer_to_bytes(obj, 4, true),
            InternalDT::UInt => integer_to_bytes(obj, 4, false),
            InternalDT::Long | InternalDT::LongLong => integer_to_bytes(obj, 8, true),
            InternalDT::ULong | InternalDT::ULongLong => integer_to_bytes(obj, 8, false),
            InternalDT::Float => match obj {
                Value::Float(bits) => {
                    proof {
                        lemma_pow256_values();
                    }
                    Ok(write_le(*bits as u64, 4))
                },
                _ => Err(MemflowPyError::HostModelError),
            },
            InternalDT::Double => match obj {
                Value::Double(bits) => {
                    proof {
                        lemma_pow256_values();
                    }
                    Ok(write_le(*bits, 8))
                },
                _ => Err(MemflowPyError::HostModelError),
            },
            InternalDT::Pointer(_, byteness) => match obj {
                Value::Pointer(_, addr) => {
                    proof {
                        lemma_pow256_values();
                    }
                    if *byteness > 8 {
                        Err(MemflowPyError::SliceConversion)
                    } else {
                        Ok(write_le(*addr, *byteness as usize))
                    }
                },
                _ => Err(MemflowPyError::HostModelError),
            },
            InternalDT::Array(_, element, len) => {
                if self.checked_size().is_none() {
                    return Err(MemflowPyError::SizeOverflow);
                }
                let mut out: Vec<u8> = Vec::new();
                let count = *len as usize;
                let mut i: usize = 0;
                while i < count
                    invariant
                        i <= count,
                        count == *len,
                        encode(self@, obj@) == encode_items(element@, obj@, count as nat),
                        encode_items(element@, obj@, i as nat) == Ok::<Seq<u8>, Failure>(out@),
                        decreases_to!(self => element),
                    decreases count - i,
                {
                    match obj.item(i) {
                        None => {
                            proof {
                                lemma_encode_items_failure(
                                    element@,
                                    obj@,
                                    (i + 1) as nat,
                                    count as nat,
                                );
                            }
                            return Err(MemflowPyError::HostModelError);
                        },
                        Some(item) => match element.py_to_bytes(item) {
                            Err(e) => {
                                proof {
                                    lemma_encode_items_failure(
                                        element@,
                                        obj@,
                                        (i + 1) as nat,
                                        count as nat,
                                    );
                                }
                                return Err(e);
                            },
                            Ok(part) => {
                                let mut part = part;
                                out.append(&mut part);
                            },
                        },
                    }
                    i = i + 1;
                }
                Ok(out)
            },
            InternalDT::Structure(_, fields) => {
                assert(self@->Structure_1 =~= fields@);
                let total = match self.checked_size() {
                    Some(total) => total,
                    None => {
                        return Err(MemflowPyError::SizeOverflow);
                    },
                };
                let mut buffer = zeroed(total);
                let mut i: usize = 0;
                while i < fields.entries.len()
                    invariant
                        i <= fields.entries.len(),
                        fields@.len() == fields.entries.len(),
                        Layout::extent(fields@, fields@.len()) == total,
                        encode(self@, obj@) == encode_fields(
                            fields@,
                            obj@,
                            fields@.len(),
                            total as nat,
                        ),
                        encode_fields(fields@, obj@, i as nat, total as nat) == Ok::<
                            Seq<u8>,
                            Failure,
                        >(buffer@),
                        buffer@.len() == total,
                        decreases_to!(self => fields),
                    decreases fields.entries.len() - i,
                {
                    let field = &fields.entries[i];
                    proof {
                        Layout::lemma_extent_bounds(fields@, fields@.len(), i as int);
                    }
                    match obj.attribute(&field.name) {
                        None => {
                            proof {
                                lemma_encode_fields_failure(
                                    fields@,
                                    obj@,
                                    (i + 1) as nat,
                                    fields@.len(),
                                    total as nat,
                                );
                            }
                            return Err(MemflowPyError::MissingAttribute(field.name.clone()));
                        },
                        Some(value) => match field.dt.py_to_bytes(value) {
                            Err(e) => {
                                proof {
                                    lemma_encode_fields_failure(
                                        fields@,
                                        obj@,
                                        (i + 1) as nat,
                                        fields@.len(),
                                        total as nat,
                                    );
                                }
                                return Err(e);
                            },
                            Ok(part) => {
                                write_at(&mut buffer, field.offset, &part);
                            },
                        },
                    }
                    i = i + 1;
                }
                Ok(buffer)
            },
        }
    }
}

} // verus!
