//! The codec laws: every well-formed value decodes from its own encoding,
//! consuming exactly its frame, whatever follows it; and every strict prefix
//! of an encoding is incomplete, never malformed and never complete.

use vstd::prelude::*;
use crate::value::{ValueModel, CR, LF, wf, wf_all};
use crate::encode::{dec_nat, dec_int, spec_encode, spec_encode_seq};
use crate::decode::{
    find_crlf, is_digit, all_digits, digits_val, dec_field, neg_cap, parse_length,
    parse_integer, is_null_field, tail_after, advance, spec_parse, spec_parse_elems,
    SpecOutcome, SpecElems,
};

verus! {

/// Where no carriage return occurs, no terminator is found.
proof fn lemma_find_crlf_none(s: Seq<u8>, i: int)
    requires
        0 <= i,
        forall|q: int| i <= q && q + 2 <= s.len() ==> #[trigger] s[q] != CR,
    ensures
        find_crlf(s, i) is None,
    decreases s.len() - i,
{
    if i + 2 <= s.len() {
        lemma_find_crlf_none(s, i + 1);
    }
}

/// A terminator at `p`, with no carriage return before it, is what the scan
/// finds.
proof fn lemma_find_crlf_at(s: Seq<u8>, i: int, p: int)
    requires
        0 <= i <= p,
        p + 2 <= s.len(),
        s[p] == CR,
        s[p + 1] == LF,
        forall|q: int| i <= q < p ==> #[trigger] s[q] != CR,
    ensures
        find_crlf(s, i) == Some(p),
    decreases p - i,
{
    if i < p {
        lemma_find_crlf_at(s, i + 1, p);
    }
}

/// The decimal digits of `n` denote `n`: at least one byte, all digits.
proof fn lemma_dec_nat(n: nat)
    ensures
        dec_nat(n).len() >= 1,
        all_digits(dec_nat(n)),
        digits_val(dec_nat(n)) == n,
    decreases n,
{
    if n < 10 {
        let d = dec_nat(n);
        assert(d =~= seq![(48 + n) as u8]);
        assert(d.drop_last() =~= Seq::<u8>::empty());
        assert(digits_val(Seq::<u8>::empty()) == 0);
        assert(digits_val(d) == (d.last() - 48));
    } else {
        lemma_dec_nat(n / 10);
        let d = dec_nat(n);
        let h = dec_nat(n / 10);
        assert(d == h + seq![(48 + n % 10) as u8]);
        assert(d.drop_last() =~= h);
        assert(d.last() == (48 + n % 10) as u8);
        assert(digits_val(d) == digits_val(h) * 10 + (n % 10));
        assert(forall|q: int| 0 <= q < d.len() ==> is_digit(#[trigger] d[q])) by {
            assert(forall|q: int| 0 <= q < h.len() ==> #[trigger] d[q] == h[q]);
        }
    }
}

/// A digit string is a length field: not the null marker, and it parses back
/// to its value whenever that value is in range.
proof fn lemma_parse_length_dec(n: nat)
    requires
        n <= i64::MAX,
    ensures
        parse_length(dec_nat(n)) == Some(n as int),
        !is_null_field(dec_nat(n)),
        forall|q: int| 0 <= q < dec_nat(n).len() ==> #[trigger] dec_nat(n)[q] != CR && dec_nat(n)[q] != LF,
    decreases n,
{
    lemma_dec_nat(n);
    let d = dec_nat(n);
    assert(d[0] != 45 && d[0] != CR) by {
        assert(is_digit(d[0]));
    }
    assert(forall|q: int| 0 <= q < d.len() ==> #[trigger] d[q] != CR && d[q] != LF) by {
        assert(forall|q: int| 0 <= q < d.len() ==> is_digit(#[trigger] d[q]));
    }
}

/// The rendering of a 64-bit signed integer parses back to it, and contains
/// no terminator byte.
proof fn lemma_parse_integer_dec(i: int)
    requires
        i64::MIN <= i <= i64::MAX,
    ensures
        parse_integer(dec_int(i)) == Some(i),
        dec_int(i).len() >= 1,
        forall|q: int| 0 <= q < dec_int(i).len() ==> #[trigger] dec_int(i)[q] != CR && dec_int(i)[q] != LF,
{
    let d = dec_int(i);
    if i < 0 {
        let m = (-i) as nat;
        lemma_dec_nat(m);
        assert(d == seq![45u8] + dec_nat(m));
        assert(d[0] == 45);
        assert(d.drop_first() =~= dec_nat(m));
        assert(m <= neg_cap());
        assert(dec_field(d.drop_first(), neg_cap()) == Some(m as int));
        assert(parse_integer(d) == Some(-(m as int)));
        assert(forall|q: int| 0 <= q < d.len() ==> #[trigger] d[q] != CR && d[q] != LF) by {
            assert(forall|q: int| 1 <= q < d.len() ==> is_digit(#[trigger] d[q])) by {
                assert(forall|q: int| 1 <= q < d.len() ==> #[trigger] d[q] == dec_nat(m)[q - 1]);
            }
        }
    } else {
        lemma_dec_nat(i as nat);
        assert(d == dec_nat(i as nat));
        assert(is_digit(d[0]));
        assert(d[0] != 45);
        assert(dec_field(d, i64::MAX as int) == Some(i));
        assert(forall|q: int| 0 <= q < d.len() ==> #[trigger] d[q] != CR && d[q] != LF) by {
            assert(forall|q: int| 0 <= q < d.len() ==> is_digit(#[trigger] d[q]));
        }
    }
}

/// Reading a frame from its own encoding followed by anything yields exactly
/// the encoded value and consumes exactly the frame.
pub proof fn lemma_parse_after_encode(v: ValueModel, rest: Seq<u8>)
    requires
        wf(v),
    ensures
        spec_parse(spec_encode(v) + rest) == SpecOutcome::Complete(v, spec_encode(v).len() as int),
    decreases v, 1int,
{
    let e = spec_encode(v);
    let s = e + rest;
    assert(forall|q: int| 0 <= q < e.len() ==> #[trigger] s[q] == e[q]);
    match v {
        ValueModel::SimpleString(sm) => {
            let p = 1 + sm.len() as int;
            assert(e[0] == 43 && e[p] == CR && e[p + 1] == LF);
            assert(forall|q: int| 1 <= q < p ==> #[trigger] s[q] == sm[q - 1]);
            lemma_find_crlf_at(s, 1, p);
            assert(s.subrange(1, p) =~= sm);
            assert(spec_parse(s) == SpecOutcome::Complete(ValueModel::SimpleString(sm), p + 2));
        }
        ValueModel::Error(sm) => {
            let p = 1 + sm.len() as int;
            assert(e[0] == 45 && e[p] == CR && e[p + 1] == LF);
            assert(forall|q: int| 1 <= q < p ==> #[trigger] s[q] == sm[q - 1]);
            lemma_find_crlf_at(s, 1, p);
            assert(s.subrange(1, p) =~= sm);
            assert(spec_parse(s) == SpecOutcome::Complete(ValueModel::Error(sm), p + 2));
        }
        ValueModel::Integer(i) => {
            lemma_parse_integer_dec(i);
            let d = dec_int(i);
            let p = 1 + d.len() as int;
            assert(e[0] == 58 && e[p] == CR && e[p + 1] == LF);
            assert(forall|q: int| 1 <= q < p ==> #[trigger] s[q] == d[q - 1]);
            lemma_find_crlf_at(s, 1, p);
            assert(s.subrange(1, p) =~= d);
            assert(spec_parse(s) == SpecOutcome::Complete(ValueModel::Integer(i), p + 2));
        }
        ValueModel::BulkString(None) => {
            assert(e =~= seq![36u8, 45u8, 49u8, CR, LF]);
            assert(s[0] == 36 && s[1] == 45 && s[2] == 49 && s[3] == CR && s[4] == LF);
            lemma_find_crlf_at(s, 1, 3);
            assert(is_null_field(s.subrange(1, 3)));
            assert(spec_parse(s) == SpecOutcome::Complete(ValueModel::BulkString(None), 5));
        }
        ValueModel::BulkString(Some(b)) => {
            let ln = b.len() as nat;
            lemma_parse_length_dec(ln);
            let d = dec_nat(ln);
            let p = 1 + d.len() as int;
            assert(e[0] == 36 && e[p] == CR && e[p + 1] == LF);
            assert(forall|q: int| 1 <= q < p ==> #[trigger] s[q] == d[q - 1]);
            lemma_find_crlf_at(s, 1, p);
            assert(s.subrange(1, p) =~= d);
            assert(!is_null_field(s.subrange(1, p)));
            assert(e.len() == p + 2 + ln + 2);
            assert(e[p + 2 + ln] == CR && e[p + 2 + ln + 1] == LF);
            assert(s.subrange(p + 2, p + 2 + ln) =~= b) by {
                assert(forall|q: int| 0 <= q < ln ==> #[trigger] e[p + 2 + q] == b[q]);
            }
            assert(spec_parse(s) == SpecOutcome::Complete(ValueModel::BulkString(Some(b)), p + 2 + ln + 2));
        }
        ValueModel::Array(None) => {
            assert(e =~= seq![42u8, 45u8, 49u8, CR, LF]);
            assert(s[0] == 42 && s[1] == 45 && s[2] == 49 && s[3] == CR && s[4] == LF);
            lemma_find_crlf_at(s, 1, 3);
            assert(is_null_field(s.subrange(1, 3)));
            assert(spec_parse(s) == SpecOutcome::Complete(ValueModel::Array(None), 5));
        }
        ValueModel::Array(Some(vs)) => {
            let cn = vs.len() as nat;
            lemma_parse_length_dec(cn);
            let d = dec_nat(cn);
            let p = 1 + d.len() as int;
            assert(e[0] == 42 && e[p] == CR && e[p + 1] == LF);
            assert(forall|q: int| 1 <= q < p ==> #[trigger] s[q] == d[q - 1]);
            lemma_find_crlf_at(s, 1, p);
            assert(s.subrange(1, p) =~= d);
            assert(!is_null_field(s.subrange(1, p)));
            let body = spec_encode_seq(vs);
            assert(tail_after(s, p + 2) =~= body + rest) by {
                assert(e.len() == p + 2 + body.len());
                assert(forall|q: int| 0 <= q < body.len() ==> #[trigger] s[p + 2 + q] == body[q]);
            }
            lemma_parse_elems_after_encode(vs, rest);
            assert(spec_parse(s) == SpecOutcome::Complete(ValueModel::Array(Some(vs)), p + 2 + body.len()));
            assert(e.len() == p + 2 + body.len());
        }
    }
}

/// Reading `count` frames from their own encodings followed by anything
/// yields exactly the encoded values, consuming exactly their frames.
pub proof fn lemma_parse_elems_after_encode(vs: Seq<ValueModel>, rest: Seq<u8>)
    requires
        wf_all(vs),
    ensures
        spec_parse_elems(spec_encode_seq(vs) + rest, vs.len()) == SpecElems::Complete(
            vs,
            spec_encode_seq(vs).len() as int,
        ),
    decreases vs, 0int,
{
    let body = spec_encode_seq(vs);
    let s = body + rest;
    if vs.len() == 0 {
        assert(spec_parse_elems(s, 0) == SpecElems::Complete(Seq::<ValueModel>::empty(), 0));
        assert(vs =~= Seq::<ValueModel>::empty());
    } else {
        let e0 = spec_encode(vs[0]);
        let tailvs = vs.drop_first();
        let bodytail = spec_encode_seq(tailvs);
        assert(body == e0 + bodytail);
        assert(s =~= e0 + (bodytail + rest));
        lemma_parse_after_encode(vs[0], bodytail + rest);
        assert(spec_parse(s) == SpecOutcome::Complete(vs[0], e0.len() as int));
        assert(advance(s, e0.len() as int) =~= bodytail + rest);
        lemma_parse_elems_after_encode(tailvs, rest);
        assert(spec_parse_elems(bodytail + rest, tailvs.len()) == SpecElems::Complete(
            tailvs,
            bodytail.len() as int,
        ));
        assert(seq![vs[0]] + tailvs =~= vs);
        assert(spec_parse_elems(s, vs.len()) == SpecElems::Complete(
            vs,
            e0.len() + bodytail.len() as int,
        ));
        assert(body.len() == e0.len() + bodytail.len());
    }
}

/// Every strict prefix of a well-formed value's frame is incomplete.
pub proof fn lemma_prefix_incomplete(v: ValueModel, m: int)
    requires
        wf(v),
        0 <= m < spec_encode(v).len(),
    ensures
        spec_parse(spec_encode(v).take(m)) is Incomplete,
    decreases v, 1int,
{
    let e = spec_encode(v);
    let pre = e.take(m);
    assert(forall|q: int| 0 <= q < m ==> #[trigger] pre[q] == e[q]);
    if m == 0 {
        assert(spec_parse(pre) is Incomplete);
    } else {
        match v {
            ValueModel::SimpleString(sm) => {
                assert(forall|q: int| 1 <= q && q + 2 <= m ==> #[trigger] pre[q] != CR) by {
                    assert(forall|q: int| 1 <= q < 1 + sm.len() ==> #[trigger] e[q] == sm[q - 1]);
                }
                lemma_find_crlf_none(pre, 1);
            }
            ValueModel::Error(sm) => {
                assert(forall|q: int| 1 <= q && q + 2 <= m ==> #[trigger] pre[q] != CR) by {
                    assert(forall|q: int| 1 <= q < 1 + sm.len() ==> #[trigger] e[q] == sm[q - 1]);
                }
                lemma_find_crlf_none(pre, 1);
            }
            ValueModel::Integer(i) => {
                lemma_parse_integer_dec(i as int);
                let d = dec_int(i as int);
                assert(forall|q: int| 1 <= q && q + 2 <= m ==> #[trigger] pre[q] != CR) by {
                    assert(forall|q: int| 1 <= q < 1 + d.len() ==> #[trigger] e[q] == d[q - 1]);
                }
                lemma_find_crlf_none(pre, 1);
            }
            ValueModel::BulkString(None) => {
                assert(e =~= seq![36u8, 45u8, 49u8, CR, LF]);
                assert(forall|q: int| 1 <= q && q + 2 <= m ==> #[trigger] pre[q] != CR);
                lemma_find_crlf_none(pre, 1);
            }
            ValueModel::BulkString(Some(b)) => {
                let ln = b.len() as nat;
                lemma_parse_length_dec(ln);
                let d = dec_nat(ln);
                let p = 1 + d.len() as int;
                assert(forall|q: int| 1 <= q < p ==> #[trigger] e[q] == d[q - 1]);
                if m < p + 2 {
                    assert(forall|q: int| 1 <= q && q + 2 <= m ==> #[trigger] pre[q] != CR);
                    lemma_find_crlf_none(pre, 1);
                } else {
                    assert(pre[p] == CR && pre[p + 1] == LF);
                    assert(forall|q: int| 1 <= q < p ==> #[trigger] pre[q] != CR);
                    lemma_find_crlf_at(pre, 1, p);
                    assert(pre.subrange(1, p) =~= d);
                    assert(!is_null_field(pre.subrange(1, p)));
                    assert(pre.len() < p + 2 + ln + 2);
                    assert(spec_parse(pre) is Incomplete);
                }
            }
            ValueModel::Array(None) => {
                assert(e =~= seq![42u8, 45u8, 49u8, CR, LF]);
                assert(forall|q: int| 1 <= q && q + 2 <= m ==> #[trigger] pre[q] != CR);
                lemma_find_crlf_none(pre, 1);
            }
            ValueModel::Array(Some(vs)) => {
                let cn = vs.len() as nat;
                lemma_parse_length_dec(cn);
                let d = dec_nat(cn);
                let p = 1 + d.len() as int;
                let body = spec_encode_seq(vs);
                assert(forall|q: int| 1 <= q < p ==> #[trigger] e[q] == d[q - 1]);
                if m < p + 2 {
                    assert(forall|q: int| 1 <= q && q + 2 <= m ==> #[trigger] pre[q] != CR);
                    lemma_find_crlf_none(pre, 1);
                } else {
                    assert(pre[p] == CR && pre[p + 1] == LF);
                    assert(forall|q: int| 1 <= q < p ==> #[trigger] pre[q] != CR);
                    lemma_find_crlf_at(pre, 1, p);
                    assert(pre.subrange(1, p) =~= d);
                    assert(!is_null_field(pre.subrange(1, p)));
                    let j = m - (p + 2);
                    assert(e.len() == p + 2 + body.len());
                    assert(tail_after(pre, p + 2) =~= body.take(j)) by {
                        assert(forall|q: int| 0 <= q < j ==> #[trigger] pre[p + 2 + q] == body[q]);
                    }
                    lemma_prefix_elems_incomplete(vs, j);
                    assert(spec_parse(pre) is Incomplete);
                }
            }
        }
    }
}

/// Every strict prefix of the back-to-back frames of well-formed values is
/// incomplete when read as that many frames.
pub proof fn lemma_prefix_elems_incomplete(vs: Seq<ValueModel>, j: int)
    requires
        wf_all(vs),
        0 <= j < spec_encode_seq(vs).len(),
    ensures
        spec_parse_elems(spec_encode_seq(vs).take(j), vs.len()) is Incomplete,
    decreases vs, 0int,
{
    let body = spec_encode_seq(vs);
    let pre = body.take(j);
    assert(vs.len() > 0);
    let e0 = spec_encode(vs[0]);
    let tailvs = vs.drop_first();
    let bodytail = spec_encode_seq(tailvs);
    assert(body == e0 + bodytail);
    if j < e0.len() {
        assert(pre =~= e0.take(j));
        lemma_prefix_incomplete(vs[0], j);
        assert(spec_parse(pre) is Incomplete);
        assert(spec_parse_elems(pre, vs.len()) is Incomplete);
    } else {
        let j2 = j - e0.len();
        assert(pre =~= e0 + bodytail.take(j2));
        lemma_parse_after_encode(vs[0], bodytail.take(j2));
        assert(spec_parse(pre) == SpecOutcome::Complete(vs[0], e0.len() as int));
        assert(advance(pre, e0.len() as int) =~= bodytail.take(j2));
        lemma_prefix_elems_incomplete(tailvs, j2);
        assert(spec_parse_elems(pre, vs.len()) is Incomplete);
    }
}

/// Round trip: decoding the encoding of any well-formed value yields that
/// value exactly, consuming the whole frame.
pub proof fn lemma_round_trip(v: ValueModel)
    requires
        wf(v),
    ensures
        spec_parse(spec_encode(v)) == SpecOutcome::Complete(v, spec_encode(v).len() as int),
{
    lemma_parse_after_encode(v, Seq::empty());
    assert(spec_encode(v) + Seq::<u8>::empty() =~= spec_encode(v));
}

} // verus!
