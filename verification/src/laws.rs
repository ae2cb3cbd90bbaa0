//! What holds of the codec as a whole: statements that relate decoding,
//! encoding and resolving to each other, each proved from their definitions.

use crate::decode::{chunk, decode, decode_fields, decode_items, field_bytes};
use crate::descriptor::{lemma_insert, lookup, unique_names, FieldLayout, Layout, OwnerHandle};
use crate::encode::{encode, encode_fields, encode_items, lemma_encode_len};
use crate::endian::{
    le_bytes, le_value, lemma_le_bytes_of_value, lemma_le_value_bound, lemma_le_value_of_bytes,
    lemma_le_value_of_bytes_small, lemma_pow256_grows, lemma_pow256_values,
    lemma_twos_complement_of_raw, lemma_twos_complement_of_value, pow256,
};
use crate::error::Failure;
use crate::resolve::{resolve, resolve_fields, resolve_offsets, FieldDecl, HostType, OffsetDecl};
use crate::value::Object;
use vstd::prelude::*;

verus! {

/// Whether `layout` is a scalar that has a conversion: any integer kind,
/// `Float` or `Double`.
pub open spec fn is_plain_scalar(layout: Layout) -> bool {
    match layout {
        Layout::LongDouble => false,
        Layout::Pointer(_, _) => false,
        Layout::Array(_, _, _) => false,
        Layout::Structure(_, _) => false,
        _ => true,
    }
}

/// A scalar round trip from bytes: every buffer of the size of a scalar
/// decodes, and encoding what it decodes to gives the same bytes.
pub proof fn lemma_scalar_bytes_round_trip(layout: Layout, bytes: Seq<u8>)
    requires
        is_plain_scalar(layout),
        bytes.len() == layout.size(),
    ensures
        decode(layout, bytes) is Ok,
        encode(layout, decode(layout, bytes)->Ok_0) == Ok::<Seq<u8>, Failure>(bytes),
{
    lemma_le_value_bound(bytes);
    lemma_le_bytes_of_value(bytes);
    lemma_pow256_values();
    lemma_twos_complement_of_raw(le_value(bytes), bytes.len());
}

/// A scalar round trip from an object: what a scalar encodes to decodes to
/// the same object.
pub proof fn lemma_scalar_object_round_trip(layout: Layout, obj: Object)
    requires
        is_plain_scalar(layout),
        encode(layout, obj) is Ok,
    ensures
        decode(layout, encode(layout, obj)->Ok_0) == Ok::<Object, Failure>(obj),
{
    lemma_pow256_values();
    match obj {
        Object::Int(value) => {
            let width = layout.size();
            lemma_encode_len(layout, obj);
            if value < 0 {
                lemma_twos_complement_of_value(value, width);
                lemma_le_value_of_bytes_small((value + pow256(width)) as nat, width);
            } else {
                if 2 * value < pow256(width) {
                    lemma_twos_complement_of_value(value, width);
                }
                lemma_le_value_of_bytes_small(value as nat, width);
            }
        },
        Object::Float(bits) => {
            lemma_encode_len(layout, obj);
            lemma_le_value_of_bytes_small(bits, 4);
        },
        Object::Double(bits) => {
            lemma_encode_len(layout, obj);
            lemma_le_value_of_bytes_small(bits, 8);
        },
        _ => {},
    }
}

/// Decoding asks for the exact length: whatever decodes is as long as the
/// layout is large.
pub proof fn lemma_decode_needs_exact_length(layout: Layout, bytes: Seq<u8>)
    requires
        decode(layout, bytes) is Ok,
    ensures
        bytes.len() == layout.size(),
{
}

/// A pointer of at most eight bytes decodes to the address that its bytes
/// spell, with the bytes it lacks taken as zero, whatever the width of an
/// address on the machine.
pub proof fn lemma_pointer_decode_zero_extends(owner: OwnerHandle, byteness: u32, bytes: Seq<u8>)
    requires
        byteness <= 8,
        bytes.len() == byteness,
    ensures
        decode(Layout::Pointer(owner, byteness), bytes) == Ok::<Object, Failure>(
            Object::Pointer(owner, le_value(bytes)),
        ),
        le_value(bytes) < pow256(byteness as nat) <= pow256(8),
{
    lemma_le_value_bound(bytes);
    lemma_pow256_grows(byteness as nat, 8);
}

/// A pointer of at most eight bytes encodes to the low bytes of the
/// address and drops the rest: its bytes spell the address modulo 256 to
/// the byteness.
pub proof fn lemma_pointer_encode_truncates(
    owner: OwnerHandle,
    byteness: u32,
    class: OwnerHandle,
    addr: nat,
)
    requires
        byteness <= 8,
        addr < pow256(8),
    ensures
        encode(Layout::Pointer(owner, byteness), Object::Pointer(class, addr)) == Ok::<
            Seq<u8>,
            Failure,
        >(le_bytes(addr, byteness as nat)),
        le_value(le_bytes(addr, byteness as nat)) == addr % pow256(byteness as nat),
{
    lemma_le_value_of_bytes(addr, byteness as nat);
}

/// Where the first `n` elements decode, there are `n` of them, and the one
/// at `i` is what the `i`-th run of bytes decodes to.
pub proof fn lemma_decode_items_each(element: Layout, bytes: Seq<u8>, n: nat, i: int)
    requires
        decode_items(element, bytes, n) is Ok,
        0 <= i < n,
    ensures
        decode_items(element, bytes, n)->Ok_0.len() == n,
        decode(element, chunk(bytes, element.size(), i as nat)) == Ok::<Object, Failure>(
            decode_items(element, bytes, n)->Ok_0[i],
        ),
    decreases n,
{
    lemma_decode_items_len(element, bytes, (n - 1) as nat);
    if i < n - 1 {
        lemma_decode_items_each(element, bytes, (n - 1) as nat, i);
    }
}

/// Where the first `n` elements decode, there are `n` of them.
pub proof fn lemma_decode_items_len(element: Layout, bytes: Seq<u8>, n: nat)
    ensures
        decode_items(element, bytes, n) matches Ok(items) ==> items.len() == n,
    decreases n,
{
    if n > 0 {
        lemma_decode_items_len(element, bytes, (n - 1) as nat);
    }
}

/// An array that decodes gives an array object of exactly `len` items in
/// index order, each decoded from its own run of bytes.
pub proof fn lemma_array_decodes_in_order(
    owner: OwnerHandle,
    element: Layout,
    len: u32,
    bytes: Seq<u8>,
    i: int,
)
    requires
        decode(Layout::Array(owner, Box::new(element), len), bytes) is Ok,
        0 <= i < len,
    ensures
        decode(Layout::Array(owner, Box::new(element), len), bytes)->Ok_0 matches Object::Array(
            class,
            items,
        ) && class == owner && items.len() == len && decode(
            element,
            chunk(bytes, element.size(), i as nat),
        ) == Ok::<Object, Failure>(items[i]),
{
    lemma_decode_items_each(element, bytes, len as nat, i);
}

/// Encoding the first `n` items reads the items below `n` and no other:
/// two objects that agree on them encode alike.
pub proof fn lemma_encode_items_reads_prefix(element: Layout, a: Object, b: Object, n: nat)
    requires
        forall|i: nat| i < n ==> a.item(i) == b.item(i),
    ensures
        encode_items(element, a, n) == encode_items(element, b, n),
    decreases n,
{
    if n > 0 {
        lemma_encode_items_reads_prefix(element, a, b, (n - 1) as nat);
        assert(a.item((n - 1) as nat) == b.item((n - 1) as nat));
    }
}

/// An array encodes the items 0 up to its length and ignores any item
/// beyond: two objects that agree on those items encode alike.
pub proof fn lemma_array_encode_ignores_extra(
    owner: OwnerHandle,
    element: Layout,
    len: u32,
    a: Object,
    b: Object,
)
    requires
        forall|i: nat| i < len ==> a.item(i) == b.item(i),
    ensures
        encode(Layout::Array(owner, Box::new(element), len), a) == encode(
            Layout::Array(owner, Box::new(element), len),
            b,
        ),
{
    lemma_encode_items_reads_prefix(element, a, b, len as nat);
}

/// Encoding the first `n` fields reads the object through its attributes
/// and no other way: two objects with the same attributes encode alike.
pub proof fn lemma_encode_fields_reads_attributes(
    fields: Seq<FieldLayout>,
    a: Object,
    b: Object,
    n: nat,
    size: nat,
)
    requires
        forall|name: Seq<char>| a.attribute(name) == b.attribute(name),
    ensures
        encode_fields(fields, a, n, size) == encode_fields(fields, b, n, size),
    decreases n,
{
    if n > 0 && n <= fields.len() {
        lemma_encode_fields_reads_attributes(fields, a, b, (n - 1) as nat, size);
        assert(a.attribute(fields[n - 1].name) == b.attribute(fields[n - 1].name));
    }
}

/// Encoding never looks at the class of the object: two instances that
/// differ in nothing but their class encode alike under every layout.
pub proof fn lemma_encode_ignores_class(layout: Layout, a: Object, b: Object)
    requires
        match (a, b) {
            (Object::Pointer(_, x), Object::Pointer(_, y)) => x == y,
            (Object::Array(_, x), Object::Array(_, y)) => x == y,
            (Object::Structure(_, x), Object::Structure(_, y)) => x == y,
            _ => a == b,
        },
    ensures
        encode(layout, a) == encode(layout, b),
{
    match layout {
        Layout::Array(_, element, len) => {
            lemma_encode_items_reads_prefix(*element, a, b, len as nat);
        },
        Layout::Structure(_, fields) => {
            lemma_encode_fields_reads_attributes(fields, a, b, fields.len(), layout.size());
        },
        _ => {},
    }
}

/// Where the first `n` fields decode, there are `n` slots, and the one at
/// `i` has the name of field `i` and the value that the bytes of field `i`
/// alone decode to.
pub proof fn lemma_decode_fields_each(fields: Seq<FieldLayout>, bytes: Seq<u8>, n: nat, i: int)
    requires
        decode_fields(fields, bytes, n) is Ok,
        0 <= i < n <= fields.len(),
    ensures
        decode_fields(fields, bytes, n)->Ok_0.len() == n,
        decode_fields(fields, bytes, n)->Ok_0[i].name == fields[i].name,
        decode(fields[i].dt, field_bytes(bytes, fields[i])) == Ok::<Object, Failure>(
            decode_fields(fields, bytes, n)->Ok_0[i].value,
        ),
    decreases n,
{
    lemma_decode_fields_len(fields, bytes, (n - 1) as nat);
    if i < n - 1 {
        lemma_decode_fields_each(fields, bytes, (n - 1) as nat, i);
    }
}

/// Where the first `n` fields decode, there are `n` slots.
pub proof fn lemma_decode_fields_len(fields: Seq<FieldLayout>, bytes: Seq<u8>, n: nat)
    requires
        n <= fields.len(),
    ensures
        decode_fields(fields, bytes, n) matches Ok(slots) ==> slots.len() == n,
    decreases n,
{
    if n > 0 {
        lemma_decode_fields_len(fields, bytes, (n - 1) as nat);
    }
}

/// Fields that overlap are decoded independently of each other: in a
/// structure that decodes, two fields of the same offset and type get the
/// same value, read from the same bytes.
pub proof fn lemma_overlapping_fields_decode_alike(
    owner: OwnerHandle,
    fields: Seq<FieldLayout>,
    bytes: Seq<u8>,
    i: int,
    j: int,
)
    requires
        decode(Layout::Structure(owner, fields), bytes) is Ok,
        0 <= i < fields.len(),
        0 <= j < fields.len(),
        fields[i].offset == fields[j].offset,
        fields[i].dt == fields[j].dt,
    ensures
        decode(Layout::Structure(owner, fields), bytes)->Ok_0 matches Object::Structure(
            class,
            slots,
        ) && class == owner && slots.len() == fields.len() && slots[i].value == slots[j].value
            && decode(fields[i].dt, field_bytes(bytes, fields[i])) == Ok::<Object, Failure>(
            slots[i].value,
        ),
{
    lemma_decode_fields_each(fields, bytes, fields.len(), i);
    lemma_decode_fields_each(fields, bytes, fields.len(), j);
}

/// Every descriptor that comes out of the resolver has a size that fits in
/// `usize`.
pub proof fn lemma_resolve_fits(ty: HostType)
    ensures
        resolve(ty) matches Ok(layout) ==> layout.size() <= usize::MAX,
{
}

/// The declared fields resolve to a map of unique names.
pub proof fn lemma_resolve_fields_unique(rows: Seq<FieldDecl>, n: nat)
    ensures
        resolve_fields(rows, n) matches Ok(pair) ==> unique_names(pair.0),
    decreases n,
{
    if n > 0 && n <= rows.len() {
        lemma_resolve_fields_unique(rows, (n - 1) as nat);
        if let Ok((fields, offset)) = resolve_fields(rows, (n - 1) as nat) {
            if let Some(ty) = rows[n - 1].ty {
                if let Ok(dt) = resolve(ty) {
                    lemma_insert(fields, FieldLayout { name: rows[n - 1].name@, offset, dt });
                }
            }
        }
    }
}

/// Putting the fields of explicit offset into a map of unique names keeps
/// the names unique, and the last explicit field of a name is the one that
/// the map then holds under that name.
pub proof fn lemma_resolve_offsets_wins(
    rows: Seq<OffsetDecl>,
    n: nat,
    base: Seq<FieldLayout>,
    k: int,
)
    requires
        unique_names(base),
        resolve_offsets(rows, n, base) is Ok,
        0 <= k < n <= rows.len(),
        forall|j: int| k < j < n ==> (#[trigger] rows[j]).name@ != rows[k].name@,
    ensures
        unique_names(resolve_offsets(rows, n, base)->Ok_0),
        rows[k].ty is Some,
        resolve(rows[k].ty->Some_0) is Ok,
        lookup(resolve_offsets(rows, n, base)->Ok_0, rows[k].name@) == Some(
            FieldLayout {
                name: rows[k].name@,
                offset: rows[k].offset as nat,
                dt: resolve(rows[k].ty->Some_0)->Ok_0,
            },
        ),
    decreases n,
{
    let before = resolve_offsets(rows, (n - 1) as nat, base)->Ok_0;
    lemma_resolve_offsets_unique(rows, (n - 1) as nat, base);
    let last = FieldLayout {
        name: rows[n - 1].name@,
        offset: rows[n - 1].offset as nat,
        dt: resolve(rows[n - 1].ty->Some_0)->Ok_0,
    };
    lemma_insert(before, last);
    if k < n - 1 {
        lemma_resolve_offsets_wins(rows, (n - 1) as nat, base, k);
        assert(rows[n - 1].name@ != rows[k].name@);
    }
}

/// Putting the fields of explicit offset into a map of unique names keeps
/// the names unique.
pub proof fn lemma_resolve_offsets_unique(rows: Seq<OffsetDecl>, n: nat, base: Seq<FieldLayout>)
    requires
        unique_names(base),
    ensures
        resolve_offsets(rows, n, base) matches Ok(fields) ==> unique_names(fields),
    decreases n,
{
    if n > 0 && n <= rows.len() {
        lemma_resolve_offsets_unique(rows, (n - 1) as nat, base);
        if let Ok(fields) = resolve_offsets(rows, (n - 1) as nat, base) {
            if let Some(ty) = rows[n - 1].ty {
                if let Ok(dt) = resolve(ty) {
                    lemma_insert(
                        fields,
                        FieldLayout {
                            name: rows[n - 1].name@,
                            offset: rows[n - 1].offset as nat,
                            dt,
                        },
                    );
                }
            }
        }
    }
}

/// A structure resolves to fields of unique names.
pub proof fn lemma_resolve_unique(ty: HostType)
    ensures
        resolve(ty) matches Ok(Layout::Structure(_, fields)) ==> unique_names(fields),
{
    if let Some(rows) = ty.fields {
        lemma_resolve_fields_unique(rows@, rows@.len());
        if let Ok((fields, _)) = resolve_fields(rows@, rows@.len()) {
            if let Some(more) = ty.offsets {
                lemma_resolve_offsets_unique(more@, more@.len(), fields);
            }
        }
    }
}

/// Explicit offsets take precedence: where a structure resolves, a field
/// declared with an explicit offset is found under its name with that
/// offset and that type, whether or not the declared fields hold the same
/// name, as long as no later explicit field has that name too.
pub proof fn lemma_explicit_offset_wins(ty: HostType, k: int)
    requires
        resolve(ty) is Ok,
        resolve(ty)->Ok_0 is Structure,
        ty.offsets is Some,
        0 <= k < ty.offsets->Some_0@.len(),
        forall|j: int|
            k < j < ty.offsets->Some_0@.len() ==> (#[trigger] ty.offsets->Some_0@[j]).name@
                != ty.offsets->Some_0@[k].name@,
    ensures
        ty.offsets->Some_0@[k].ty is Some,
        resolve(ty.offsets->Some_0@[k].ty->Some_0) is Ok,
        lookup(resolve(ty)->Ok_0->Structure_1, ty.offsets->Some_0@[k].name@) == Some(
            FieldLayout {
                name: ty.offsets->Some_0@[k].name@,
                offset: ty.offsets->Some_0@[k].offset as nat,
                dt: resolve(ty.offsets->Some_0@[k].ty->Some_0)->Ok_0,
            },
        ),
{
    let more = ty.offsets->Some_0@;
    if let Some(rows) = ty.fields {
        lemma_resolve_fields_unique(rows@, rows@.len());
        if let Ok((fields, _)) = resolve_fields(rows@, rows@.len()) {
            lemma_resolve_offsets_wins(more, more.len(), fields, k);
        }
    }
}

} // verus!
