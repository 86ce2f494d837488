//! Values produced by parsing and consumed by serialization.

use vstd::prelude::*;

verus! {

/// A value produced by parsing a field, by a transform, or handed to
/// serialization. Floating-point values are held by their IEEE-754 bit
/// pattern: `F32` carries the 32 bits of a binary32, `F64` the 64 bits of a
/// binary64.
#[derive(Debug, PartialEq, Eq)]
pub enum Value {
    U64(u64),
    I64(i64),
    F32(u32),
    F64(u64),
    Bytes(Vec<u8>),
    String(String),
    Array(Vec<Value>),
}

/// Mathematical model of a [`Value`]: the same variants over sequences.
pub enum ValueModel {
    U64(u64),
    I64(i64),
    F32(u32),
    F64(u64),
    Bytes(Seq<u8>),
    String(Seq<char>),
    Array(Seq<ValueModel>),
}

/// Models of a sequence of values.
pub open spec fn models_of(s: Seq<Value>) -> Seq<ValueModel>
    decreases s, 1int,
{
    if s.len() == 0 {
        Seq::empty()
    } else {
        models_of(s.drop_last()).push(model_of(s.last()))
    }
}

/// Model of one value.
pub open spec fn model_of(v: Value) -> ValueModel
    decreases v, 0int,
{
    match v {
        Value::U64(x) => ValueModel::U64(x),
        Value::I64(x) => ValueModel::I64(x),
        Value::F32(x) => ValueModel::F32(x),
        Value::F64(x) => ValueModel::F64(x),
        Value::Bytes(b) => ValueModel::Bytes(b@),
        Value::String(s) => ValueModel::String(s@),
        Value::Array(vs) => ValueModel::Array(models_of(vs@)),
    }
}

impl View for Value {
    type V = ValueModel;

    open spec fn view(&self) -> ValueModel {
        model_of(*self)
    }
}

/// The models of a sequence of values are taken element by element.
pub proof fn lemma_models_of_index(s: Seq<Value>, i: int)
    requires
        0 <= i < s.len(),
    ensures
        models_of(s).len() == s.len(),
        models_of(s)[i] == s[i]@,
    decreases s.len(),
{
    lemma_models_of_len(s);
    if i < s.len() - 1 {
        lemma_models_of_index(s.drop_last(), i);
    }
}

/// There are as many models as values.
pub proof fn lemma_models_of_len(s: Seq<Value>)
    ensures
        models_of(s).len() == s.len(),
    decreases s.len(),
{
    if s.len() > 0 {
        lemma_models_of_len(s.drop_last());
    }
}

} // verus!
