//! Dynamic host objects as plain values, and their mathematical model.

use crate::descriptor::OwnerHandle;
use memflow::types::umem;
use vstd::prelude::*;

verus! {

/// A dynamic host object, as far as the codec reads or builds one.
#[derive(Debug, PartialEq, Eq)]
pub enum Value {
    /// A host integer.
    Int(i128),
    /// A single-precision number, held as its IEEE 754 bit pattern.
    Float(u32),
    /// A double-precision number, held as its IEEE 754 bit pattern.
    Double(u64),
    /// An instance of a pointer class: the class and the address.
    Pointer(OwnerHandle, umem),
    /// An instance of an array class: the class and the items in order.
    Array(OwnerHandle, Vec<Value>),
    /// An instance of a structure class: the class and the attributes.
    Structure(OwnerHandle, Vec<Attribute>),
}

/// A named attribute of a host object.
#[derive(Debug, PartialEq, Eq)]
pub struct Attribute {
    pub name: String,
    pub value: Value,
}

/// The mathematical model of a host object.
pub enum Object {
    Int(int),
    Float(nat),
    Double(nat),
    Pointer(OwnerHandle, nat),
    Array(OwnerHandle, Seq<Object>),
    Structure(OwnerHandle, Seq<Slot>),
}

/// The mathematical model of an attribute.
pub struct Slot {
    pub name: Seq<char>,
    pub value: Object,
}

impl Value {
    /// The model of this object: the same tree, over mathematical types.
    pub open spec fn model(self) -> Object
        decreases self,
    {
        match self {
            Value::Int(v) => Object::Int(v as int),
            Value::Float(bits) => Object::Float(bits as nat),
            Value::Double(bits) => Object::Double(bits as nat),
            Value::Pointer(owner, addr) => Object::Pointer(owner, addr as nat),
            Value::Array(owner, items) => Object::Array(
                owner,
                Seq::new(
                    items@.len(),
                    |i: int|
                        if 0 <= i < items@.len() {
                            items@[i].model()
                        } else {
                            arbitrary()
                        },
                ),
            ),
            Value::Structure(owner, attributes) => Object::Structure(
                owner,
                Seq::new(
                    attributes@.len(),
                    |i: int|
                        if 0 <= i < attributes@.len() {
                            Slot {
                                name: attributes@[i].name@,
                                value: attributes@[i].value.model(),
                            }
                        } else {
                            arbitrary()
                        },
                ),
            ),
        }
    }
}

impl View for Value {
    type V = Object;

    open spec fn view(&self) -> Object {
        self.model()
    }
}

impl View for Attribute {
    type V = Slot;

    open spec fn view(&self) -> Slot {
        Slot { name: self.name@, value: self.value@ }
    }
}

/// The models of a list of objects, in order.
pub open spec fn objects_of(items: Seq<Value>) -> Seq<Object> {
    Seq::new(items.len(), |i: int| items[i]@)
}

/// The models of a list of attributes, in order.
pub open spec fn slots_of(attributes: Seq<Attribute>) -> Seq<Slot> {
    Seq::new(attributes.len(), |i: int| attributes[i]@)
}

impl Object {
    /// The value of the first attribute called `name`, if this object is a
    /// structure instance that has one.
    pub open spec fn attribute(self, name: Seq<char>) -> Option<Object> {
        match self {
            Object::Structure(_, slots) => Object::find(slots, name, 0),
            _ => None,
        }
    }

    /// The value of the first slot called `name` from index `from` on.
    pub open spec fn find(slots: Seq<Slot>, name: Seq<char>, from: nat) -> Option<Object>
        decreases slots.len() - from,
    {
        if from >= slots.len() {
            None
        } else if slots[from as int].name == name {
            Some(slots[from as int].value)
        } else {
            Object::find(slots, name, from + 1)
        }
    }

    /// The item at `index`, if this object is an array instance that has one.
    pub open spec fn item(self, index: nat) -> Option<Object> {
        match self {
            Object::Array(_, items) => if index < items.len() {
                Some(items[index as int])
            } else {
                None
            },
            _ => None,
        }
    }
}

impl Value {
    /// The value of the first attribute called `name`, if there is one.
    pub fn attribute(&self, name: &String) -> (r: Option<&Value>)
        ensures
            match r {
                Some(v) => self@.attribute(name@) == Some(v@),
                None => self@.attribute(name@).is_none(),
            },
    {
        match self {
            Value::Structure(_, attributes) => {
                assert(self@->Structure_1 =~= slots_of(attributes@));
                let mut i: usize = 0;
                while i < attributes.len()
                    invariant
                        i <= attributes.len(),
                        self@.attribute(name@) == Object::find(slots_of(attributes@), name@, i as nat),
                    decreases attributes.len() - i,
                {
                    if attributes[i].name == *name {
                        return Some(&attributes[i].value);
                    }
                    i = i + 1;
                }
                None
            },
            _ => None,
        }
    }

    /// The item at `index`, if there is one.
    pub fn item(&self, index: usize) -> (r: Option<&Value>)
        ensures
            match r {
                Some(v) => self@.item(index as nat) == Some(v@),
                None => self@.item(index as nat).is_none(),
            },
    {
        match self {
            Value::Array(_, items) => {
                assert(self@->Array_1 =~= objects_of(items@));
                if index < items.len() {
                    Some(&items[index])
                } else {
                    None
                }
            },
            _ => None,
        }
    }
}

impl Clone for Value {
    /// A copy that stands for the same object.
    fn clone(&self) -> (res: Self)
        ensures
            res@ == self@,
        decreases self,
    {
        match self {
            Value::Int(value) => Value::Int(*value),
            Value::Float(bits) => Value::Float(*bits),
            Value::Double(bits) => Value::Double(*bits),
            Value::Pointer(owner, addr) => Value::Pointer(*owner, *addr),
            Value::Array(owner, items) => {
                let mut copies: Vec<Value> = Vec::new();
                let mut i: usize = 0;
                while i < items.len()
                    invariant
                        i <= items.len(),
                        copies@.len() == i,
                        forall|j: int| 0 <= j < i ==> (#[trigger] copies@[j])@ == items@[j]@,
                        decreases_to!(self => items),
                    decreases items.len() - i,
                {
                    copies.push(items[i].clone());
                    i = i + 1;
                }
                let res = Value::Array(*owner, copies);
                assert(res@->Array_1 =~= self@->Array_1);
                res
            },
            Value::Structure(owner, attributes) => {
                let mut copies: Vec<Attribute> = Vec::new();
                let mut i: usize = 0;
                while i < attributes.len()
                    invariant
                        i <= attributes.len(),
                        copies@.len() == i,
                        forall|j: int| 0 <= j < i ==> (#[trigger] copies@[j])@ == attributes@[j]@,
                        decreases_to!(self => attributes),
                    decreases attributes.len() - i,
                {
                    let attribute = &attributes[i];
                    copies.push(
                        Attribute { name: attribute.name.clone(), value: attribute.value.clone() },
                    );
                    i = i + 1;
                }
                let res = Value::Structure(*owner, copies);
                assert(res@->Structure_1 =~= self@->Structure_1);
                res
            },
        }
    }
}

impl Clone for Attribute {
    /// A copy of the same name and object.
    fn clone(&self) -> (res: Self)
        ensures
            res@ == self@,
    {
        Attribute { name: self.name.clone(), value: self.value.clone() }
    }
}

} // verus!
