//! The type descriptor tree, its mathematical model, and the layout engine
//! that computes the byte size of every descriptor.

use vstd::prelude::*;

verus! {

/// A token that stands for a host-side class. The codec never looks inside
/// it: it only hands it on, so that the host can build an instance with it.
#[derive(Clone, Copy, Debug, PartialEq, Eq, Structural)]
pub struct OwnerHandle(pub usize);

/// Describes the layout of one C-compatible type.
#[derive(Debug, PartialEq, Eq)]
pub enum InternalDT {
    /// C `signed char`, read as a small integer.
    Byte,
    /// C `unsigned char`, read as a small integer.
    UByte,
    /// C `char`, read as a signed 8-bit integer.
    Char,
    /// C `wchar_t` in its two-byte form.
    WideChar,
    /// C `double`.
    Double,
    /// C `long double`. It has a size, but no conversion.
    LongDouble,
    /// C `float`.
    Float,
    /// C `short`.
    Short,
    /// C `unsigned short`.
    UShort,
    /// C `int`.
    Int,
    /// C `unsigned int`.
    UInt,
    /// C `long`, eight bytes wide.
    Long,
    /// C `unsigned long`, eight bytes wide.
    ULong,
    /// C `long long`.
    LongLong,
    /// C `unsigned long long`.
    ULongLong,
    /// An address of `byteness` bytes, wrapped by the owner class.
    Pointer(OwnerHandle, u32),
    /// A fixed number of elements of one type, laid out back to back.
    Array(OwnerHandle, Box<InternalDT>, u32),
    /// Named fields, each at its own byte offset.
    Structure(OwnerHandle, FieldMap),
}

/// One field of a structure: where it starts and what it holds.
#[derive(Debug, PartialEq, Eq)]
pub struct Field {
    pub name: String,
    pub offset: usize,
    pub dt: InternalDT,
}

/// The fields of a structure in insertion order. It is a map from field name
/// to offset and type once `wf` holds, which `new` establishes and `insert`
/// preserves.
#[derive(Debug, PartialEq, Eq)]
pub struct FieldMap {
    pub entries: Vec<Field>,
}

/// The mathematical model of a descriptor.
pub enum Layout {
    Byte,
    UByte,
    Char,
    WideChar,
    Double,
    LongDouble,
    Float,
    Short,
    UShort,
    Int,
    UInt,
    Long,
    ULong,
    LongLong,
    ULongLong,
    Pointer(OwnerHandle, u32),
    Array(OwnerHandle, Box<Layout>, u32),
    Structure(OwnerHandle, Seq<FieldLayout>),
}

/// The mathematical model of a field.
pub struct FieldLayout {
    pub name: Seq<char>,
    pub offset: nat,
    pub dt: Layout,
}

impl InternalDT {
    /// The model of this descriptor: the same tree, over mathematical types.
    pub open spec fn model(self) -> Layout
        decreases self,
    {
        match self {
            InternalDT::Byte => Layout::Byte,
            InternalDT::UByte => Layout::UByte,
            InternalDT::Char => Layout::Char,
            InternalDT::WideChar => Layout::WideChar,
            InternalDT::Double => Layout::Double,
            InternalDT::LongDouble => Layout::LongDouble,
            InternalDT::Float => Layout::Float,
            InternalDT::Short => Layout::Short,
            InternalDT::UShort => Layout::UShort,
            InternalDT::Int => Layout::Int,
            InternalDT::UInt => Layout::UInt,
            InternalDT::Long => Layout::Long,
            InternalDT::ULong => Layout::ULong,
            InternalDT::LongLong => Layout::LongLong,
            InternalDT::ULongLong => Layout::ULongLong,
            InternalDT::Pointer(owner, byteness) => Layout::Pointer(owner, byteness),
            InternalDT::Array(owner, element, len) => Layout::Array(
                owner,
                Box::new((*element).model()),
                len,
            ),
            InternalDT::Structure(owner, fields) => Layout::Structure(
                owner,
                Seq::new(
                    fields.entries@.len(),
                    |i: int|
                        if 0 <= i < fields.entries@.len() {
                            FieldLayout {
                                name: fields.entries@[i].name@,
                                offset: fields.entries@[i].offset as nat,
                                dt: fields.entries@[i].dt.model(),
                            }
                        } else {
                            arbitrary()
                        },
                ),
            ),
        }
    }
}

impl View for InternalDT {
    type V = Layout;

    open spec fn view(&self) -> Layout {
        self.model()
    }
}

impl View for Field {
    type V = FieldLayout;

    open spec fn view(&self) -> FieldLayout {
        FieldLayout { name: self.name@, offset: self.offset as nat, dt: self.dt@ }
    }
}

impl View for FieldMap {
    type V = Seq<FieldLayout>;

    open spec fn view(&self) -> Seq<FieldLayout> {
        Seq::new(self.entries@.len(), |i: int| self.entries@[i]@)
    }
}

impl Layout {
    /// The number of bytes that a value of this layout takes. For a
    /// structure it is the end of the field that reaches furthest, and 0
    /// where there is no field.
    pub open spec fn size(self) -> nat
        decreases self, 0nat,
    {
        match self {
            Layout::Byte | Layout::UByte | Layout::Char => 1,
            Layout::WideChar | Layout::Short | Layout::UShort => 2,
            Layout::Float | Layout::Int | Layout::UInt => 4,
            Layout::Double | Layout::Long | Layout::ULong | Layout::LongLong | Layout::ULongLong => 8,
            Layout::LongDouble => 16,
            Layout::Pointer(_, byteness) => byteness as nat,
            Layout::Array(_, element, len) => (*element).size() * (len as nat),
            Layout::Structure(_, fields) => Layout::extent(fields, fields.len()),
        }
    }

    /// The furthest end among the first `n` fields: the largest of offset
    /// plus size, and 0 where `n` is 0.
    pub open spec fn extent(fields: Seq<FieldLayout>, n: nat) -> nat
        decreases fields, n,
    {
        if n == 0 || n > fields.len() {
            0
        } else {
            let end = fields[n - 1].offset + fields[n - 1].dt.size();
            let before = Layout::extent(fields, (n - 1) as nat);
            if end >= before {
                end
            } else {
                before
            }
        }
    }

    /// No field among the first `n` ends beyond their extent.
    pub proof fn lemma_extent_bounds(fields: Seq<FieldLayout>, n: nat, i: int)
        requires
            0 <= i < n <= fields.len(),
        ensures
            fields[i].offset + fields[i].dt.size() <= Layout::extent(fields, n),
        decreases n,
    {
        if i < n - 1 {
            Layout::lemma_extent_bounds(fields, (n - 1) as nat, i);
        }
    }

    /// The extent only grows with the number of fields taken.
    pub proof fn lemma_extent_grows(fields: Seq<FieldLayout>, m: nat, n: nat)
        requires
            m <= n <= fields.len(),
        ensures
            Layout::extent(fields, m) <= Layout::extent(fields, n),
        decreases n,
    {
        if m < n {
            Layout::lemma_extent_grows(fields, m, (n - 1) as nat);
        }
    }
}

impl InternalDT {
    /// The number of bytes that a value of this type takes.
    pub fn size(&self) -> (n: usize)
        requires
            self@.size() <= usize::MAX,
        ensures
            n == self@.size(),
        decreases self,
    {
        match self {
            InternalDT::Byte | InternalDT::UByte | InternalDT::Char => 1,
            InternalDT::WideChar | InternalDT::Short | InternalDT::UShort => 2,
            InternalDT::Float | InternalDT::Int | InternalDT::UInt => 4,
            InternalDT::Double
            | InternalDT::Long
            | InternalDT::ULong
            | InternalDT::LongLong
            | InternalDT::ULongLong => 8,
            InternalDT::LongDouble => 16,
            InternalDT::Pointer(_, byteness) => *byteness as usize,
            InternalDT::Array(_, element, len) => {
                if *len == 0 {
                    assert(element@.size() * (*len as nat) == 0) by (nonlinear_arith)
                        requires
                            *len == 0,
                    ;
                    0
                } else {
                    assert(element@.size() <= element@.size() * (*len as nat)) by (nonlinear_arith)
                        requires
                            *len >= 1,
                    ;
                    element.size() * (*len as usize)
                }
            },
            InternalDT::Structure(_, fields) => {
                assert(self@->Structure_1 =~= fields@);
                let mut furthest: usize = 0;
                let mut i: usize = 0;
                while i < fields.entries.len()
                    invariant
                        i <= fields.entries.len(),
                        fields@.len() == fields.entries.len(),
                        Layout::extent(fields@, fields@.len()) <= usize::MAX,
                        furthest == Layout::extent(fields@, i as nat),
                        decreases_to!(self => fields),
                    decreases fields.entries.len() - i,
                {
                    let field = &fields.entries[i];
                    proof {
                        Layout::lemma_extent_grows(fields@, (i + 1) as nat, fields@.len());
                    }
                    let end = field.offset + field.dt.size();
                    if end > furthest {
                        furthest = end;
                    }
                    i = i + 1;
                }
                furthest
            },
        }
    }

    /// The size, or `None` where it does not fit in `usize`.
    pub fn checked_size(&self) -> (r: Option<usize>)
        ensures
            r == if self@.size() <= usize::MAX {
                Some(self@.size() as usize)
            } else {
                None
            },
        decreases self,
    {
        match self {
            InternalDT::Byte | InternalDT::UByte | InternalDT::Char => Some(1),
            InternalDT::WideChar | InternalDT::Short | InternalDT::UShort => Some(2),
            InternalDT::Float | InternalDT::Int | InternalDT::UInt => Some(4),
            InternalDT::Double
            | InternalDT::Long
            | InternalDT::ULong
            | InternalDT::LongLong
            | InternalDT::ULongLong => Some(8),
            InternalDT::LongDouble => Some(16),
            InternalDT::Pointer(_, byteness) => Some(*byteness as usize),
            InternalDT::Array(_, element, len) => {
                if *len == 0 {
                    assert(element@.size() * (*len as nat) == 0) by (nonlinear_arith)
                        requires
                            *len == 0,
                    ;
                    Some(0)
                } else {
                    assert(element@.size() <= element@.size() * (*len as nat)) by (nonlinear_arith)
                        requires
                            *len >= 1,
                    ;
                    match element.checked_size() {
                        Some(each) => each.checked_mul(*len as usize),
                        None => None,
                    }
                }
            },
            InternalDT::Structure(_, fields) => {
                assert(self@->Structure_1 =~= fields@);
                let mut furthest: usize = 0;
                let mut i: usize = 0;
                while i < fields.entries.len()
                    invariant
                        i <= fields.entries.len(),
                        fields@.len() == fields.entries.len(),
                        furthest == Layout::extent(fields@, i as nat),
                        self@.size() == Layout::extent(fields@, fields@.len()),
                        decreases_to!(self => fields),
                    decreases fields.entries.len() - i,
                {
                    let field = &fields.entries[i];
                    proof {
                        Layout::lemma_extent_grows(fields@, (i + 1) as nat, fields@.len());
                    }
                    let end = match field.dt.checked_size() {
                        Some(each) => field.offset.checked_add(each),
                        None => None,
                    };
                    match end {
                        Some(end) => {
                            if end > furthest {
                                furthest = end;
                            }
                        },
                        None => {
                            return None;
                        },
                    }
                    i = i + 1;
                }
                Some(furthest)
            },
        }
    }
}

/// The index of the first field called `name` at or after `from`.
pub open spec fn position(fields: Seq<FieldLayout>, name: Seq<char>, from: nat) -> Option<nat>
    decreases fields.len() - from,
{
    if from >= fields.len() {
        None
    } else if fields[from as int].name == name {
        Some(from)
    } else {
        position(fields, name, from + 1)
    }
}

/// The first field called `name`.
pub open spec fn lookup(fields: Seq<FieldLayout>, name: Seq<char>) -> Option<FieldLayout> {
    match position(fields, name, 0) {
        Some(i) => Some(fields[i as int]),
        None => None,
    }
}

/// No two fields have the same name.
pub open spec fn unique_names(fields: Seq<FieldLayout>) -> bool {
    forall|i: int, j: int|
        0 <= i < j < fields.len() ==> (#[trigger] fields[i]).name != (#[trigger] fields[j]).name
}

/// `fields` with `field` put in: in the place of the field of the same name
/// where there is one, and at the end where there is none.
pub open spec fn insert(fields: Seq<FieldLayout>, field: FieldLayout) -> Seq<FieldLayout> {
    match position(fields, field.name, 0) {
        Some(i) => fields.update(i as int, field),
        None => fields.push(field),
    }
}

/// What `position` finds is the first field of that name, and where it
/// finds none there is none.
pub proof fn lemma_position(fields: Seq<FieldLayout>, name: Seq<char>, from: nat)
    ensures
        match position(fields, name, from) {
            Some(i) => {
                &&& from <= i < fields.len()
                &&& fields[i as int].name == name
                &&& forall|j: int| from <= j < i ==> (#[trigger] fields[j]).name != name
            },
            None => forall|j: int| from <= j < fields.len() ==> (#[trigger] fields[j]).name != name,
        },
    decreases fields.len() - from,
{
    if from < fields.len() && fields[from as int].name != name {
        lemma_position(fields, name, from + 1);
    }
}

/// Putting a field in keeps the names unique, and the field is then the one
/// found under its name, while every other name finds what it found before.
pub proof fn lemma_insert(fields: Seq<FieldLayout>, field: FieldLayout)
    requires
        unique_names(fields),
    ensures
        unique_names(insert(fields, field)),
        lookup(insert(fields, field), field.name) == Some(field),
        forall|name: Seq<char>|
            name != field.name ==> #[trigger] lookup(insert(fields, field), name) == lookup(
                fields,
                name,
            ),
{
    let after = insert(fields, field);
    lemma_position(fields, field.name, 0);
    lemma_position(after, field.name, 0);
    match position(fields, field.name, 0) {
        Some(i) => {
            assert(after[i as int] == field);
            assert forall|j: int| 0 <= j < i implies (#[trigger] after[j]).name != field.name by {
                assert(after[j] == fields[j]);
            }
            assert(position(after, field.name, 0) == Some(i));
            assert forall|a: int, b: int| 0 <= a < b < after.len() implies (#[trigger] after[a]).name
                != (#[trigger] after[b]).name by {
                assert(after[a].name == fields[a].name);
                assert(after[b].name == fields[b].name);
            }
        },
        None => {
            let n = fields.len();
            assert(after[n as int] == field);
            assert forall|j: int| 0 <= j < n implies (#[trigger] after[j]).name != field.name by {
                assert(after[j] == fields[j]);
            }
            assert(position(after, field.name, 0) == Some(n));
            assert forall|a: int, b: int| 0 <= a < b < after.len() implies (#[trigger] after[a]).name
                != (#[trigger] after[b]).name by {
                assert(after[a] == fields[a]);
                if b < n {
                    assert(after[b] == fields[b]);
                }
            }
        },
    }
    assert forall|name: Seq<char>| name != field.name implies #[trigger] lookup(after, name)
        == lookup(fields, name) by {
        lemma_position(fields, name, 0);
        lemma_position(after, name, 0);
        match position(fields, name, 0) {
            Some(k) => {
                assert(after[k as int] == fields[k as int]);
                assert forall|j: int| 0 <= j < k implies (#[trigger] after[j]).name != name by {
                    assert(fields[j].name != name);
                }
                assert(position(after, name, 0) == Some(k));
            },
            None => {
                assert forall|j: int| 0 <= j < after.len() implies (#[trigger] after[j]).name
                    != name by {
                    if j < fields.len() {
                        assert(fields[j].name != name);
                    }
                }
                assert(position(after, name, 0).is_none());
            },
        }
    }
}

impl FieldMap {
    /// The names of this map are unique.
    pub open spec fn wf(self) -> bool {
        unique_names(self@)
    }

    /// A map without fields.
    pub fn new() -> (map: FieldMap)
        ensures
            map@ == Seq::<FieldLayout>::empty(),
            map.wf(),
    {
        let map = FieldMap { entries: Vec::new() };
        assert(map@ =~= Seq::<FieldLayout>::empty());
        map
    }

    /// The number of fields.
    pub fn len(&self) -> (n: usize)
        ensures
            n == self@.len(),
    {
        self.entries.len()
    }

    /// The first field called `name`, if there is one.
    pub fn get(&self, name: &String) -> (r: Option<&Field>)
        ensures
            match r {
                Some(field) => lookup(self@, name@) == Some(field@),
                None => lookup(self@, name@).is_none(),
            },
    {
        let mut i: usize = 0;
        while i < self.entries.len()
            invariant
                i <= self.entries.len(),
                position(self@, name@, 0) == position(self@, name@, i as nat),
            decreases self.entries.len() - i,
        {
            if self.entries[i].name == *name {
                return Some(&self.entries[i]);
            }
            i = i + 1;
        }
        None
    }

    /// Puts `field` in: in the place of the field of the same name where
    /// there is one, keeping that place, and at the end where there is none.
    pub fn insert(&mut self, field: Field)
        ensures
            final(self)@ == insert(old(self)@, field@),
            old(self).wf() ==> final(self).wf(),
    {
        proof {
            if self.wf() {
                lemma_insert(self@, field@);
            }
        }
        let ghost before = self@;
        let mut i: usize = 0;
        while i < self.entries.len()
            invariant
                i <= self.entries.len(),
                self@ == before,
                before == old(self)@,
                old(self).wf() ==> unique_names(insert(before, field@)),
                position(before, field@.name, 0) == position(before, field@.name, i as nat),
            decreases self.entries.len() - i,
        {
            if self.entries[i].name == field.name {
                assert(before[i as int].name == field@.name);
                assert(position(before, field@.name, i as nat) == Some(i as nat));
                self.entries.set(i, field);
                assert(self@ =~= before.update(i as int, field@));
                return ;
            }
            assert(before[i as int].name != field@.name);
            i = i + 1;
        }
        self.entries.push(field);
        assert(self@ =~= before.push(field@));
    }
}

impl Clone for InternalDT {
    /// A copy that describes the same layout.
    fn clone(&self) -> (res: Self)
        ensures
            res@ == self@,
        decreases self,
    {
        match self {
            InternalDT::Byte => InternalDT::Byte,
            InternalDT::UByte => InternalDT::UByte,
            InternalDT::Char => InternalDT::Char,
            InternalDT::WideChar => InternalDT::WideChar,
            InternalDT::Double => InternalDT::Double,
            InternalDT::LongDouble => InternalDT::LongDouble,
            InternalDT::Float => InternalDT::Float,
            InternalDT::Short => InternalDT::Short,
            InternalDT::UShort => InternalDT::UShort,
            InternalDT::Int => InternalDT::Int,
            InternalDT::UInt => InternalDT::UInt,
            InternalDT::Long => InternalDT::Long,
            InternalDT::ULong => InternalDT::ULong,
            InternalDT::LongLong => InternalDT::LongLong,
            InternalDT::ULongLong => InternalDT::ULongLong,
            InternalDT::Pointer(owner, byteness) => InternalDT::Pointer(*owner, *byteness),
            InternalDT::Array(owner, element, len) => InternalDT::Array(
                *owner,
                Box::new((&**element).clone()),
                *len,
            ),
            InternalDT::Structure(owner, fields) => {
                let mut entries: Vec<Field> = Vec::new();
                let mut i: usize = 0;
                while i < fields.entries.len()
                    invariant
                        i <= fields.entries.len(),
                        entries@.len() == i,
                        forall|j: int| 0 <= j < i ==> (#[trigger] entries@[j])@ == fields.entries@[j]@,
                        decreases_to!(self => fields),
                    decreases fields.entries.len() - i,
                {
                    let field = &fields.entries[i];
                    entries.push(
                        Field {
                            name: field.name.clone(),
                            offset: field.offset,
                            dt: field.dt.clone(),
                        },
                    );
                    i = i + 1;
                }
                let res = InternalDT::Structure(*owner, FieldMap { entries });
                assert(res@->Structure_1 =~= self@->Structure_1);
                res
            },
        }
    }
}

impl Clone for Field {
    /// A copy of the same name, offset and layout.
    fn clone(&self) -> (res: Self)
        ensures
            res@ == self@,
    {
        Field { name: self.name.clone(), offset: self.offset, dt: self.dt.clone() }
    }
}

impl Clone for FieldMap {
    /// A copy that holds the same fields in the same order.
    fn clone(&self) -> (res: Self)
        ensures
            res@ == self@,
    {
        let mut entries: Vec<Field> = Vec::new();
        let mut i: usize = 0;
        while i < self.entries.len()
            invariant
                i <= self.entries.len(),
                entries@.len() == i,
                forall|j: int| 0 <= j < i ==> (#[trigger] entries@[j])@ == self.entries@[j]@,
            decreases self.entries.len() - i,
        {
            entries.push(self.entries[i].clone());
            i = i + 1;
        }
        let res = FieldMap { entries };
        assert(res@ =~= self@);
        res
    }
}

} // verus!
