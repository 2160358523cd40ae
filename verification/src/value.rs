//! The protocol value model: the closed set of RESP value variants, its
//! mathematical counterpart over sequences, and well-formedness.

use vstd::prelude::*;

verus! {

/// One RESP protocol value, as held by executable code.
///
/// `BulkString(None)` and `Array(None)` are the null forms, distinct from the
/// empty (zero-length) forms `BulkString(Some(vec![]))` and
/// `Array(Some(vec![]))`.
#[derive(Debug, PartialEq, Eq)]
pub enum Value {
    SimpleString(Vec<u8>),
    Error(Vec<u8>),
    Integer(i64),
    BulkString(Option<Vec<u8>>),
    Array(Option<Vec<Value>>),
}

/// The mathematical shape of a `Value`: the same tree with unbounded
/// sequences and integers in place of vectors and machine words. Contracts
/// speak of this type.
pub enum ValueModel {
    SimpleString(Seq<u8>),
    Error(Seq<u8>),
    Integer(int),
    BulkString(Option<Seq<u8>>),
    Array(Option<Seq<ValueModel>>),
}

impl Value {
    /// The mathematical value this executable value stands for.
    pub open spec fn model(self) -> ValueModel
        decreases self, 1int,
    {
        match self {
            Value::SimpleString(s) => ValueModel::SimpleString(s@),
            Value::Error(s) => ValueModel::Error(s@),
            Value::Integer(i) => ValueModel::Integer(i as int),
            Value::BulkString(None) => ValueModel::BulkString(None),
            Value::BulkString(Some(b)) => ValueModel::BulkString(Some(b@)),
            Value::Array(None) => ValueModel::Array(None),
            Value::Array(Some(vs)) => ValueModel::Array(Some(Value::models_of(vs@))),
        }
    }

    /// The models of a sequence of values, element by element.
    pub open spec fn models_of(vs: Seq<Value>) -> Seq<ValueModel>
        decreases vs, 0int,
    {
        if vs.len() == 0 {
            Seq::empty()
        } else {
            seq![vs[0].model()] + Value::models_of(vs.drop_first())
        }
    }
}

/// A carriage return, the first byte of the `\r\n` frame terminator.
pub const CR: u8 = 13;

/// A line feed, the second byte of the `\r\n` frame terminator.
pub const LF: u8 = 10;

/// Whether a payload byte may appear in a simple-string or error line: the
/// line is delimited by the first `\r\n`, so the payload itself must contain
/// neither byte.
pub open spec fn line_safe(s: Seq<u8>) -> bool {
    forall|i: int| 0 <= i < s.len() ==> s[i] != CR && s[i] != LF
}

/// Well-formedness of a value model: exactly the trees that some `Value` can
/// hold and that encode to a frame which decodes back to the same tree.
pub open spec fn wf(v: ValueModel) -> bool
    decreases v, 1int,
{
    match v {
        ValueModel::SimpleString(s) => line_safe(s),
        ValueModel::Error(s) => line_safe(s),
        ValueModel::Integer(i) => i64::MIN <= i <= i64::MAX,
        ValueModel::BulkString(None) => true,
        ValueModel::BulkString(Some(b)) => b.len() <= i64::MAX,
        ValueModel::Array(None) => true,
        ValueModel::Array(Some(vs)) => vs.len() <= i64::MAX && wf_all(vs),
    }
}

/// Well-formedness of every element of a sequence of value models.
pub open spec fn wf_all(vs: Seq<ValueModel>) -> bool
    decreases vs, 0int,
{
    if vs.len() == 0 {
        true
    } else {
        wf(vs[0]) && wf_all(vs.drop_first())
    }
}

} // verus!
