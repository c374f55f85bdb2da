use vstd::prelude::*;

verus! {

/// One scalar leaf of a flattened record: the closed set of value kinds the
/// dataset supports.
///
/// `Float` holds the bit pattern of an IEEE-754 32-bit float. The merge core
/// stores, compares and moves such numbers but never computes with them, so
/// the bit pattern is the whole value; callers convert at the boundary.
/// `Unit` is a presence-only marker, used by the set encoding of string
/// collections.
#[derive(Clone, Debug, PartialEq)]
pub enum Value {
    Text(String),
    Int(i32),
    Float(u32),
    Unit,
}

/// Mathematical model of a `Value`, with text as a character sequence.
pub enum ValueModel {
    Text(Seq<char>),
    Int(i32),
    Float(u32),
    Unit,
}

impl View for Value {
    type V = ValueModel;

    open spec fn view(&self) -> ValueModel {
        match self {
            Value::Text(s) => ValueModel::Text(s@),
            Value::Int(n) => ValueModel::Int(*n),
            Value::Float(bits) => ValueModel::Float(*bits),
            Value::Unit => ValueModel::Unit,
        }
    }
}

impl DeepView for Value {
    type V = ValueModel;

    open spec fn deep_view(&self) -> ValueModel {
        self.view()
    }
}

impl Value {
    /// An explicit copy with a contract (the derived `Clone` says nothing).
    pub fn dup(&self) -> (r: Value)
        ensures
            r@ == self@,
    {
        match self {
            Value::Text(s) => Value::Text(s.clone()),
            Value::Int(n) => Value::Int(*n),
            Value::Float(bits) => Value::Float(*bits),
            Value::Unit => Value::Unit,
        }
    }
}

/// One source's opinion about one path: put a value there, or remove it.
#[derive(Clone, Debug, PartialEq)]
pub enum ItemChange {
    Put(Value),
    Removed,
}

/// Mathematical model of an `ItemChange`.
pub enum ChangeModel {
    Put(ValueModel),
    Removed,
}

impl View for ItemChange {
    type V = ChangeModel;

    open spec fn view(&self) -> ChangeModel {
        match self {
            ItemChange::Put(v) => ChangeModel::Put(v@),
            ItemChange::Removed => ChangeModel::Removed,
        }
    }
}

impl DeepView for ItemChange {
    type V = ChangeModel;

    open spec fn deep_view(&self) -> ChangeModel {
        self.view()
    }
}

impl ItemChange {
    /// An explicit copy with a contract (the derived `Clone` says nothing).
    pub fn dup(&self) -> (r: ItemChange)
        ensures
            r@ == self@,
    {
        match self {
            ItemChange::Put(v) => ItemChange::Put(v.dup()),
            ItemChange::Removed => ItemChange::Removed,
        }
    }
}

} // verus!
