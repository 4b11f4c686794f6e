use vstd::prelude::*;

verus! {

/// A stable handle to a heap object: the index of its slot in the
/// collector's arena. A handle stays valid exactly as long as the slot it
/// names is still occupied, that is, as long as the object has not been
/// swept.
#[derive(Debug, Clone, Copy, PartialEq, Eq, Structural)]
pub struct ObjectPtr {
    pub index: usize,
}

impl ObjectPtr {
    pub fn new(index: usize) -> (r: ObjectPtr)
        ensures
            r.index == index,
    {
        ObjectPtr { index }
    }
}

/// The tagged datum that flows through the operand stack, the local and
/// global slots, the constant pool and heap-object fields. Values are
/// copied freely; the only aliasing in the system goes through
/// `ObjectPtr`, which names collector-owned storage.
///
/// A `Float` carries the IEEE-754 bit pattern of a 64-bit floating-point
/// number as a plain word. The runtime itself never interprets it
/// numerically: no opcode computes on floats, so the bits only travel.
#[derive(Debug, Clone, Copy, PartialEq, Eq, Structural)]
pub enum Value {
    Char(char),
    Integer(i64),
    Word(u64),
    Float(u64),
    ObjectPtr(ObjectPtr),
}

/// The slot index a value refers to, if it is a heap reference.
pub open spec fn value_ref(v: Value) -> Option<int> {
    match v {
        Value::ObjectPtr(p) => Some(p.index as int),
        _ => None,
    }
}

impl Value {
    pub fn get_object_ptr(&self) -> (r: Option<ObjectPtr>)
        ensures
            match r {
                Some(p) => value_ref(*self) == Some(p.index as int),
                None => value_ref(*self) is None,
            },
    {
        if let Value::ObjectPtr(p) = self {
            Some(*p)
        } else {
            None
        }
    }
}

} // verus!
