//! The encoder: a mathematical description of the byte frame each value
//! encodes to, and an executable serializer proved to append exactly that
//! frame to its sink.

use vstd::prelude::*;
use crate::value::{Value, ValueModel, CR, LF};

verus! {

/// The two-byte frame terminator.
pub open spec fn crlf() -> Seq<u8> {
    seq![CR, LF]
}

/// The decimal digits of a nonnegative integer, most significant first,
/// without leading zeros (`0` itself is the single digit `0`).
pub open spec fn dec_nat(n: nat) -> Seq<u8>
    decreases n,
{
    if n < 10 {
        seq![(48 + n) as u8]
    } else {
        dec_nat(n / 10) + seq![(48 + n % 10) as u8]
    }
}

/// The decimal rendering of a signed integer: a `-` sign for negative values,
/// then the digits of the magnitude.
pub open spec fn dec_int(i: int) -> Seq<u8> {
    if i < 0 {
        seq![45u8] + dec_nat((-i) as nat)
    } else {
        dec_nat(i as nat)
    }
}

/// The complete wire frame of a value: type byte, payload, terminators.
pub open spec fn spec_encode(v: ValueModel) -> Seq<u8>
    decreases v, 1int,
{
    match v {
        ValueModel::SimpleString(s) => seq![43u8] + s + crlf(),
        ValueModel::Error(s) => seq![45u8] + s + crlf(),
        ValueModel::Integer(i) => seq![58u8] + dec_int(i) + crlf(),
        ValueModel::BulkString(None) => seq![36u8, 45u8, 49u8, CR, LF],
        ValueModel::BulkString(Some(b)) => seq![36u8] + dec_nat(b.len()) + crlf() + b + crlf(),
        ValueModel::Array(None) => seq![42u8, 45u8, 49u8, CR, LF],
        ValueModel::Array(Some(vs)) => seq![42u8] + dec_nat(vs.len()) + crlf() + spec_encode_seq(vs),
    }
}

/// The frames of a sequence of values, back to back.
pub open spec fn spec_encode_seq(vs: Seq<ValueModel>) -> Seq<u8>
    decreases vs, 0int,
{
    if vs.len() == 0 {
        Seq::empty()
    } else {
        spec_encode(vs[0]) + spec_encode_seq(vs.drop_first())
    }
}

/// Appending one more element to a sequence appends its frame to the
/// sequence's encoding.
pub proof fn lemma_encode_seq_snoc(vs: Seq<ValueModel>, m: ValueModel)
    ensures
        spec_encode_seq(vs.push(m)) == spec_encode_seq(vs) + spec_encode(m),
    decreases vs.len(),
{
    if vs.len() == 0 {
        assert(vs.push(m).drop_first() =~= Seq::<ValueModel>::empty());
        assert(vs.push(m)[0] == m);
        assert(spec_encode_seq(vs.push(m)) == spec_encode(m) + spec_encode_seq(Seq::<ValueModel>::empty()));
        assert(spec_encode_seq(Seq::<ValueModel>::empty()) == Seq::<u8>::empty());
        assert(spec_encode(m) + Seq::<u8>::empty() =~= Seq::<u8>::empty() + spec_encode(m));
        assert(spec_encode_seq(vs) == Seq::<u8>::empty());
    } else {
        assert(vs.push(m).drop_first() =~= vs.drop_first().push(m));
        assert(vs.push(m)[0] == vs[0]);
        lemma_encode_seq_snoc(vs.drop_first(), m);
        assert(spec_encode(vs[0]) + (spec_encode_seq(vs.drop_first()) + spec_encode(m)) =~= (spec_encode(vs[0]) + spec_encode_seq(vs.drop_first())) + spec_encode(m));
    }
}

/// The models of an executable value sequence, described element by element.
pub proof fn lemma_models_of(vs: Seq<Value>)
    ensures
        Value::models_of(vs).len() == vs.len(),
        forall|i: int| 0 <= i < vs.len() ==> #[trigger] Value::models_of(vs)[i] == vs[i].model(),
    decreases vs.len(),
{
    if vs.len() > 0 {
        lemma_models_of(vs.drop_first());
        assert forall|i: int| 0 <= i < vs.len() implies #[trigger] Value::models_of(vs)[i] == vs[i].model() by {
            if i > 0 {
                assert(Value::models_of(vs)[i] == Value::models_of(vs.drop_first())[i - 1]);
                assert(vs.drop_first()[i - 1] == vs[i]);
            }
        }
    }
}

/// Appends the decimal digits of `n` to `out`.
pub fn push_dec_u64(out: &mut Vec<u8>, n: u64)
    ensures
        final(out)@ == old(out)@ + dec_nat(n as nat),
    decreases n,
{
    if n >= 10 {
        push_dec_u64(out, n / 10);
    }
    out.push(48 + (n % 10) as u8);
    assert(out@ =~= old(out)@ + dec_nat(n as nat));
}

/// Appends the decimal rendering of `i`, sign included, to `out`.
pub fn push_dec_i64(out: &mut Vec<u8>, i: i64)
    ensures
        final(out)@ == old(out)@ + dec_int(i as int),
{
    if i < 0 {
        out.push(45);
        let m: u64 = if i == i64::MIN {
            9223372036854775808u64
        } else {
            (-i) as u64
        };
        assert(m as nat == (-(i as int)) as nat);
        push_dec_u64(out, m);
        assert(out@ =~= old(out)@ + dec_int(i as int));
    } else {
        push_dec_u64(out, i as u64);
    }
}

/// Appends the frame of `v` to `out`: the executable counterpart of
/// `spec_encode`, total over all values, deterministic, no other effect on
/// the sink.
#[verifier::loop_isolation(false)]
pub fn serialize(v: &Value, out: &mut Vec<u8>)
    ensures
        final(out)@ == old(out)@ + spec_encode(v.model()),
    decreases v,
{
    match v {
        Value::SimpleString(s) => {
            out.push(43);
            out.extend_from_slice(s.as_slice());
            out.push(CR);
            out.push(LF);
            assert(out@ =~= old(out)@ + spec_encode(v.model()));
        }
        Value::Error(s) => {
            out.push(45);
            out.extend_from_slice(s.as_slice());
            out.push(CR);
            out.push(LF);
            assert(out@ =~= old(out)@ + spec_encode(v.model()));
        }
        Value::Integer(i) => {
            out.push(58);
            push_dec_i64(out, *i);
            out.push(CR);
            out.push(LF);
            assert(out@ =~= old(out)@ + spec_encode(v.model()));
        }
        Value::BulkString(None) => {
            out.push(36);
            out.push(45);
            out.push(49);
            out.push(CR);
            out.push(LF);
            assert(out@ =~= old(out)@ + spec_encode(v.model()));
        }
        Value::BulkString(Some(b)) => {
            out.push(36);
            push_dec_u64(out, b.len() as u64);
            out.push(CR);
            out.push(LF);
            out.extend_from_slice(b.as_slice());
            out.push(CR);
            out.push(LF);
            assert(out@ =~= old(out)@ + spec_encode(v.model()));
        }
        Value::Array(None) => {
            out.push(42);
            out.push(45);
            out.push(49);
            out.push(CR);
            out.push(LF);
            assert(out@ =~= old(out)@ + spec_encode(v.model()));
        }
        Value::Array(Some(vs)) => {
            out.push(42);
            push_dec_u64(out, vs.len() as u64);
            out.push(CR);
            out.push(LF);
            let ghost header: Seq<u8> = out@;
            let ghost ms: Seq<ValueModel> = Value::models_of(vs@);
            proof {
                lemma_models_of(vs@);
            }
            let n: usize = vs.len();
            let mut j: usize = 0;
            while j < n
                invariant
                    n == vs.len(),
                    j <= n,
                    ms == Value::models_of(vs@),
                    ms.len() == n,
                    forall|i: int| 0 <= i < n ==> #[trigger] ms[i] == vs@[i].model(),
                    out@ == header + spec_encode_seq(ms.take(j as int)),
                decreases n - j,
            {
                serialize(&vs[j], out);
                proof {
                    lemma_encode_seq_snoc(ms.take(j as int), ms[j as int]);
                    assert(ms.take(j as int).push(ms[j as int]) =~= ms.take(j + 1int));
                    assert((header + spec_encode_seq(ms.take(j as int))) + spec_encode(ms[j as int]) =~= header + (spec_encode_seq(ms.take(j as int)) + spec_encode(ms[j as int])));
                }
                j = j + 1;
            }
            proof {
                assert(ms.take(n as int) =~= ms);
                assert(out@ =~= old(out)@ + spec_encode(v.model()));
            }
        }
    }
}

} // verus!
