//! The descriptor resolver: from what a host type exposes to a descriptor.

use crate::descriptor::{insert, Field, FieldLayout, FieldMap, InternalDT, Layout, OwnerHandle};
use crate::error::{outcome, Failure, MemflowPyError};
use vstd::prelude::*;
use vstd::string::StrSliceExecFns;

verus! {

/// What a host type exposes to the resolver. An attribute that the host
/// type does not have is `None`.
#[derive(Debug, PartialEq, Eq)]
pub struct HostType {
    /// The token of the host type itself, which becomes the owner handle.
    pub owner: OwnerHandle,
    /// The name of the base type.
    pub base_name: String,
    /// The type code of a scalar.
    pub type_code: Option<String>,
    /// The number of address bytes of a pointer.
    pub byteness: Option<u32>,
    /// The number of elements of an array.
    pub length: Option<u32>,
    /// The element type of an array.
    pub element: Option<Box<HostType>>,
    /// The fields of a structure, in declaration order.
    pub fields: Option<Vec<FieldDecl>>,
    /// The fields of a structure that come with an offset of their own.
    pub offsets: Option<Vec<OffsetDecl>>,
}

/// A declared field: a name and, where the declaration has one, a type.
#[derive(Debug, PartialEq, Eq)]
pub struct FieldDecl {
    pub name: String,
    pub ty: Option<HostType>,
}

/// A declared field with an explicit offset.
#[derive(Debug, PartialEq, Eq)]
pub struct OffsetDecl {
    pub offset: usize,
    pub name: String,
    pub ty: Option<HostType>,
}

/// Whether `name` is a base type of scalars.
pub open spec fn is_scalar_base(name: Seq<char>) -> bool {
    name == "CDataType"@ || name == "_SimpleCData"@
}

/// The number of bytes of an address on this machine.
pub open spec fn native_byteness() -> u32 {
    (usize::BITS / 8) as u32
}

/// The scalar that a type code stands for. The codes of the string kinds,
/// and anything that is no code at all, have none.
pub open spec fn scalar_of_code(code: Seq<char>) -> Result<Layout, Failure> {
    if code.len() != 1 {
        Err(Failure::UnsupportedIdentifier)
    } else if code[0] == 'b' {
        Ok(Layout::Byte)
    } else if code[0] == 'B' || code[0] == '?' {
        Ok(Layout::UByte)
    } else if code[0] == 'c' {
        Ok(Layout::Char)
    } else if code[0] == 'u' {
        Ok(Layout::WideChar)
    } else if code[0] == 'd' {
        Ok(Layout::Double)
    } else if code[0] == 'g' {
        Ok(Layout::LongDouble)
    } else if code[0] == 'f' {
        Ok(Layout::Float)
    } else if code[0] == 'h' {
        Ok(Layout::Short)
    } else if code[0] == 'H' {
        Ok(Layout::UShort)
    } else if code[0] == 'i' {
        Ok(Layout::Int)
    } else if code[0] == 'I' {
        Ok(Layout::UInt)
    } else if code[0] == 'l' {
        Ok(Layout::Long)
    } else if code[0] == 'L' {
        Ok(Layout::ULong)
    } else if code[0] == 'q' {
        Ok(Layout::LongLong)
    } else if code[0] == 'Q' {
        Ok(Layout::ULongLong)
    } else {
        Err(Failure::UnsupportedIdentifier)
    }
}

/// `layout` where its size fits in the address space, and the failure
/// where it does not.
pub open spec fn checked(layout: Layout) -> Result<Layout, Failure> {
    if layout.size() > usize::MAX {
        Err(Failure::SizeOverflow)
    } else {
        Ok(layout)
    }
}

/// The descriptor that a host type resolves to, or the failure.
///
/// The base name decides the kind. The fields of a structure get the
/// running sum of the sizes before them as their offset; the fields with an
/// explicit offset are then put into the same map, where each takes the
/// place of a field of the same name or comes last.
pub open spec fn resolve(ty: HostType) -> Result<Layout, Failure>
    decreases ty, 0nat,
{
    if is_scalar_base(ty.base_name@) {
        match ty.type_code {
            Some(code) => scalar_of_code(code@),
            None => Err(Failure::HostModelError),
        }
    } else if ty.base_name@ == "Pointer"@ {
        match ty.byteness {
            Some(byteness) => Ok(Layout::Pointer(ty.owner, byteness)),
            None => Ok(Layout::Pointer(ty.owner, native_byteness())),
        }
    } else if ty.base_name@ == "Array"@ {
        match (ty.length, ty.element) {
            (Some(len), Some(element)) => match resolve(*element) {
                Ok(dt) => checked(Layout::Array(ty.owner, Box::new(dt), len)),
                Err(e) => Err(e),
            },
            _ => Err(Failure::HostModelError),
        }
    } else if ty.base_name@ == "Structure"@ {
        match ty.fields {
            None => Err(Failure::HostModelError),
            Some(rows) => match resolve_fields(rows@, rows@.len()) {
                Err(e) => Err(e),
                Ok((fields, _)) => match ty.offsets {
                    None => checked(Layout::Structure(ty.owner, fields)),
                    Some(more) => match resolve_offsets(more@, more@.len(), fields) {
                        Err(e) => Err(e),
                        Ok(merged) => checked(Layout::Structure(ty.owner, merged)),
                    },
                },
            },
        }
    } else {
        Err(Failure::InvalidType(ty.base_name@))
    }
}

/// The map after the first `n` declared fields, and the offset that the
/// next field gets.
pub open spec fn resolve_fields(rows: Seq<FieldDecl>, n: nat) -> Result<
    (Seq<FieldLayout>, nat),
    Failure,
>
    decreases rows, n,
{
    if n == 0 || n > rows.len() {
        Ok((Seq::empty(), 0))
    } else {
        match resolve_fields(rows, (n - 1) as nat) {
            Err(e) => Err(e),
            Ok((fields, offset)) => match rows[n - 1].ty {
                None => Err(Failure::NoType(rows[n - 1].name@)),
                Some(ty) => match resolve(ty) {
                    Err(e) => Err(e),
                    Ok(dt) => if offset + dt.size() > usize::MAX {
                        Err(Failure::SizeOverflow)
                    } else {
                        Ok(
                            (
                                insert(fields, FieldLayout { name: rows[n - 1].name@, offset, dt }),
                                offset + dt.size(),
                            ),
                        )
                    },
                },
            },
        }
    }
}

/// `base` with the first `n` fields of explicit offset put in.
pub open spec fn resolve_offsets(rows: Seq<OffsetDecl>, n: nat, base: Seq<FieldLayout>) -> Result<
    Seq<FieldLayout>,
    Failure,
>
    decreases rows, n,
{
    if n == 0 || n > rows.len() {
        Ok(base)
    } else {
        match resolve_offsets(rows, (n - 1) as nat, base) {
            Err(e) => Err(e),
            Ok(fields) => match rows[n - 1].ty {
                None => Err(Failure::NoType(rows[n - 1].name@)),
                Some(ty) => match resolve(ty) {
                    Err(e) => Err(e),
                    Ok(dt) => Ok(
                        insert(
                            fields,
                            FieldLayout {
                                name: rows[n - 1].name@,
                                offset: rows[n - 1].offset as nat,
                                dt,
                            },
                        ),
                    ),
                },
            },
        }
    }
}

/// Once a declared field has failed, resolving more fields fails the same
/// way.
pub proof fn lemma_resolve_fields_failure(rows: Seq<FieldDecl>, n: nat, m: nat)
    requires
        n <= m <= rows.len(),
        resolve_fields(rows, n) is Err,
    ensures
        resolve_fields(rows, m) == resolve_fields(rows, n),
    decreases m,
{
    if n < m {
        lemma_resolve_fields_failure(rows, n, (m - 1) as nat);
    }
}

/// Once a field of explicit offset has failed, resolving more of them
/// fails the same way.
pub proof fn lemma_resolve_offsets_failure(
    rows: Seq<OffsetDecl>,
    n: nat,
    m: nat,
    base: Seq<FieldLayout>,
)
    requires
        n <= m <= rows.len(),
        resolve_offsets(rows, n, base) is Err,
    ensures
        resolve_offsets(rows, m, base) == resolve_offsets(rows, n, base),
    decreases m,
{
    if n < m {
        lemma_resolve_offsets_failure(rows, n, (m - 1) as nat, base);
    }
}

/// The scalar descriptor that a type code stands for.
pub fn scalar_from_code(code: &str) -> (r: Result<InternalDT, MemflowPyError>)
    ensures
        outcome(r) == scalar_of_code(code@),
{
    if code.unicode_len() != 1 {
        return Err(MemflowPyError::UnsupportedIdentifier);
    }
    let c = code.get_char(0);
    if c == 'b' {
        Ok(InternalDT::Byte)
    } else if c == 'B' || c == '?' {
        Ok(InternalDT::UByte)
    } else if c == 'c' {
        Ok(InternalDT::Char)
    } else if c == 'u' {
        Ok(InternalDT::WideChar)
    } else if c == 'd' {
        Ok(InternalDT::Double)
    } else if c == 'g' {
        Ok(InternalDT::LongDouble)
    } else if c == 'f' {
        Ok(InternalDT::Float)
    } else if c == 'h' {
        Ok(InternalDT::Short)
    } else if c == 'H' {
        Ok(InternalDT::UShort)
    } else if c == 'i' {
        Ok(InternalDT::Int)
    } else if c == 'I' {
        Ok(InternalDT::UInt)
    } else if c == 'l' {
        Ok(InternalDT::Long)
    } else if c == 'L' {
        Ok(InternalDT::ULong)
    } else if c == 'q' {
        Ok(InternalDT::LongLong)
    } else if c == 'Q' {
        Ok(InternalDT::ULongLong)
    } else {
        Err(MemflowPyError::UnsupportedIdentifier)
    }
}

/// Whether `name` is spelled exactly as `literal`.
fn is_named(name: &String, literal: &str) -> (r: bool)
    ensures
        r == (name@ == literal@),
{
    let other = literal.to_owned();
    *name == other
}

impl InternalDT {
    /// Resolves what a host type exposes into a descriptor.
    pub fn try_from(value: &HostType) -> (r: Result<InternalDT, MemflowPyError>)
        ensures
            outcome(r) == resolve(*value),
            r matches Ok(dt) ==> dt@.size() <= usize::MAX,
        decreases value,
    {
        if is_named(&value.base_name, "CDataType") || is_named(&value.base_name, "_SimpleCData") {
            match &value.type_code {
                Some(code) => scalar_from_code(code.as_str()),
                None => Err(MemflowPyError::HostModelError),
            }
        } else if is_named(&value.base_name, "Pointer") {
            match value.byteness {
                Some(byteness) => Ok(InternalDT::Pointer(value.owner, byteness)),
                None => Ok(InternalDT::Pointer(value.owner, usize::BITS / 8)),
            }
        } else if is_named(&value.base_name, "Array") {
            let len = match value.length {
                Some(len) => len,
                None => {
                    return Err(MemflowPyError::HostModelError);
                },
            };
            let element = match &value.element {
                Some(element) => element,
                None => {
                    return Err(MemflowPyError::HostModelError);
                },
            };
            let dt = match InternalDT::try_from(element) {
                Ok(dt) => dt,
                Err(e) => {
                    return Err(e);
                },
            };
            let array = InternalDT::Array(value.owner, Box::new(dt), len);
            if array.checked_size().is_none() {
                return Err(MemflowPyError::SizeOverflow);
            }
            Ok(array)
        } else if is_named(&value.base_name, "Structure") {
            let rows = match &value.fields {
                Some(rows) => rows,
                None => {
                    return Err(MemflowPyError::HostModelError);
                },
            };
            let mut map = FieldMap::new();
            let mut offset: usize = 0;
            let mut i: usize = 0;
            while i < rows.len()
                invariant
                    i <= rows.len(),
                    resolve_fields(rows@, rows@.len()) matches Err(e) ==> resolve(*value) == Err::<
                        Layout,
                        Failure,
                    >(e),
                    decreases_to!(value => rows),
                    resolve_fields(rows@, i as nat) == Ok::<(Seq<FieldLayout>, nat), Failure>(
                        (map@, offset as nat),
                    ),
                decreases rows.len() - i,
            {
                let row = &rows[i];
                let ty = match &row.ty {
                    Some(ty) => ty,
                    None => {
                        proof {
                            lemma_resolve_fields_failure(rows@, (i + 1) as nat, rows@.len());
                        }
                        return Err(MemflowPyError::NoType(row.name.clone()));
                    },
                };
                let dt = match InternalDT::try_from(ty) {
                    Ok(dt) => dt,
                    Err(e) => {
                        proof {
                            lemma_resolve_fields_failure(rows@, (i + 1) as nat, rows@.len());
                        }
                        return Err(e);
                    },
                };
                let next = match offset.checked_add(dt.size()) {
                    Some(next) => next,
                    None => {
                        proof {
                            lemma_resolve_fields_failure(rows@, (i + 1) as nat, rows@.len());
                        }
                        return Err(MemflowPyError::SizeOverflow);
                    },
                };
                map.insert(Field { name: row.name.clone(), offset, dt });
                offset = next;
                i = i + 1;
            }
            let ghost base = map@;
            match &value.offsets {
                None => {},
                Some(more) => {
                    let mut j: usize = 0;
                    while j < more.len()
                        invariant
                            j <= more.len(),
                            resolve_offsets(more@, more@.len(), base) matches Err(e) ==> resolve(
                                *value,
                            ) == Err::<Layout, Failure>(e),
                            decreases_to!(value => more),
                            resolve_offsets(more@, j as nat, base) == Ok::<
                                Seq<FieldLayout>,
                                Failure,
                            >(map@),
                        decreases more.len() - j,
                    {
                        let row = &more[j];
                        let ty = match &row.ty {
                            Some(ty) => ty,
                            None => {
                                proof {
                                    lemma_resolve_offsets_failure(
                                        more@,
                                        (j + 1) as nat,
                                        more@.len(),
                                        base,
                                    );
                                }
                                return Err(MemflowPyError::NoType(row.name.clone()));
                            },
                        };
                        let dt = match InternalDT::try_from(ty) {
                            Ok(dt) => dt,
                            Err(e) => {
                                proof {
                                    lemma_resolve_offsets_failure(
                                        more@,
                                        (j + 1) as nat,
                                        more@.len(),
                                        base,
                                    );
                                }
                                return Err(e);
                            },
                        };
                        map.insert(Field { name: row.name.clone(), offset: row.offset, dt });
                        j = j + 1;
                    }
                },
            }
            let structure = InternalDT::Structure(value.owner, map);
            assert(structure@->Structure_1 =~= map@);
            if structure.checked_size().is_none() {
                return Err(MemflowPyError::SizeOverflow);
            }
            Ok(structure)
        } else {
            Err(MemflowPyError::InvalidType(value.base_name.clone()))
        }
    }
}

} // verus!
