//! The incremental decoder: a mathematical parser over byte sequences, and an
//! executable parser proved to agree with it outcome for outcome. A buffer
//! either holds a complete frame, is a prefix that needs more bytes, or can
//! never become a valid frame.

use vstd::prelude::*;
use vstd::slice::{slice_subrange, slice_to_vec};
use crate::value::{Value, ValueModel, CR, LF};

verus! {

/// Why a buffer can never become a valid frame.
#[derive(Debug, Clone, Copy, PartialEq, Eq, Structural)]
pub enum ParseError {
    /// The first byte is not one of the five type tags `+ - : $ *`.
    UnknownType,
    /// A bulk-string or array length line is not a decimal number, is
    /// negative without being the null marker `-1`, or is out of range.
    BadLength,
    /// An integer line is not a signed 64-bit decimal number.
    BadInteger,
    /// A bulk-string body is not followed by the frame terminator.
    MissingTerminator,
}

/// What the mathematical parser says about a byte sequence.
pub enum SpecOutcome {
    /// A complete frame of this value occupies exactly the first `n` bytes.
    Complete(ValueModel, int),
    /// The bytes are a (possibly empty) strict prefix of some valid frame.
    Incomplete,
    /// No extension of the bytes is a valid frame.
    Malformed(ParseError),
}

/// What the mathematical parser says about a run of `count` frames.
pub enum SpecElems {
    Complete(Seq<ValueModel>, int),
    Incomplete,
    Malformed(ParseError),
}

/// The position of the first `\r\n` pair at or after `i`, if the buffer
/// holds one in full.
pub open spec fn find_crlf(s: Seq<u8>, i: int) -> Option<int>
    decreases s.len() - i,
{
    if i < 0 || i + 2 > s.len() {
        None
    } else if s[i] == CR && s[i + 1] == LF {
        Some(i)
    } else {
        find_crlf(s, i + 1)
    }
}

/// An ASCII decimal digit.
pub open spec fn is_digit(b: u8) -> bool {
    48 <= b <= 57
}

pub open spec fn all_digits(s: Seq<u8>) -> bool {
    forall|i: int| 0 <= i < s.len() ==> is_digit(#[trigger] s[i])
}

/// The number a digit string denotes, most significant digit first.
pub open spec fn digits_val(s: Seq<u8>) -> int
    decreases s.len(),
{
    if s.len() == 0 {
        0
    } else {
        digits_val(s.drop_last()) * 10 + (s.last() - 48)
    }
}

/// A decimal field of at least one digit whose value is at most `cap`;
/// anything else is rejected.
pub open spec fn dec_field(f: Seq<u8>, cap: int) -> Option<int> {
    if f.len() >= 1 && all_digits(f) && digits_val(f) <= cap {
        Some(digits_val(f))
    } else {
        None
    }
}

/// The magnitude cap for a negative integer line: the magnitude of `i64::MIN`.
pub open spec fn neg_cap() -> int {
    0x8000000000000000
}

/// A nonnegative length field, bounded by the protocol's signed 64-bit range.
pub open spec fn parse_length(f: Seq<u8>) -> Option<int> {
    dec_field(f, i64::MAX as int)
}

/// A signed integer line: an optional leading `-`, then digits, within the
/// 64-bit signed range.
pub open spec fn parse_integer(f: Seq<u8>) -> Option<int> {
    if f.len() >= 1 && f[0] == 45 {
        match dec_field(f.drop_first(), neg_cap()) {
            Some(m) => Some(-m),
            None => None,
        }
    } else {
        dec_field(f, i64::MAX as int)
    }
}

/// The two-byte null marker `-1`, the length line of a null bulk string or
/// null array.
pub open spec fn is_null_field(f: Seq<u8>) -> bool {
    f.len() == 2 && f[0] == 45 && f[1] == 49
}

/// The suffix of `s` from `n` on. A scan position always lies in `[1, len]`;
/// other arguments are mapped to the empty sequence so that the suffix is
/// always shorter than `s`.
pub open spec fn tail_after(s: Seq<u8>, n: int) -> Seq<u8> {
    if 1 <= n <= s.len() {
        s.subrange(n, s.len() as int)
    } else {
        Seq::empty()
    }
}

/// The suffix of `s` from `n` on, `s` itself when `n` is out of range.
pub open spec fn advance(s: Seq<u8>, n: int) -> Seq<u8> {
    if 0 <= n <= s.len() {
        s.subrange(n, s.len() as int)
    } else {
        s
    }
}

/// The mathematical parser: the outcome of reading one frame from the front
/// of `s`, consuming nothing on `Incomplete`.
pub open spec fn spec_parse(s: Seq<u8>) -> SpecOutcome
    decreases s.len(), 0int,
{
    if s.len() == 0 {
        SpecOutcome::Incomplete
    } else if s[0] == 43 || s[0] == 45 {
        match find_crlf(s, 1) {
            None => SpecOutcome::Incomplete,
            Some(p) => {
                let payload = s.subrange(1, p);
                if s[0] == 43 {
                    SpecOutcome::Complete(ValueModel::SimpleString(payload), p + 2)
                } else {
                    SpecOutcome::Complete(ValueModel::Error(payload), p + 2)
                }
            }
        }
    } else if s[0] == 58 {
        match find_crlf(s, 1) {
            None => SpecOutcome::Incomplete,
            Some(p) => {
                match parse_integer(s.subrange(1, p)) {
                    None => SpecOutcome::Malformed(ParseError::BadInteger),
                    Some(i) => SpecOutcome::Complete(ValueModel::Integer(i), p + 2),
                }
            }
        }
    } else if s[0] == 36 {
        match find_crlf(s, 1) {
            None => SpecOutcome::Incomplete,
            Some(p) => {
                let field = s.subrange(1, p);
                if is_null_field(field) {
                    SpecOutcome::Complete(ValueModel::BulkString(None), p + 2)
                } else {
                    match parse_length(field) {
                        None => SpecOutcome::Malformed(ParseError::BadLength),
                        Some(len) => {
                            if s.len() < p + 2 + len + 2 {
                                SpecOutcome::Incomplete
                            } else if s[p + 2 + len] == CR && s[p + 2 + len + 1] == LF {
                                SpecOutcome::Complete(
                                    ValueModel::BulkString(Some(s.subrange(p + 2, p + 2 + len))),
                                    p + 2 + len + 2,
                                )
                            } else {
                                SpecOutcome::Malformed(ParseError::MissingTerminator)
                            }
                        }
                    }
                }
            }
        }
    } else if s[0] == 42 {
        match find_crlf(s, 1) {
            None => SpecOutcome::Incomplete,
            Some(p) => {
                let field = s.subrange(1, p);
                if is_null_field(field) {
                    SpecOutcome::Complete(ValueModel::Array(None), p + 2)
                } else {
                    match parse_length(field) {
                        None => SpecOutcome::Malformed(ParseError::BadLength),
                        Some(count) => {
                            match spec_parse_elems(tail_after(s, p + 2), count as nat) {
                                SpecElems::Complete(ms, k) => SpecOutcome::Complete(
                                    ValueModel::Array(Some(ms)),
                                    p + 2 + k,
                                ),
                                SpecElems::Incomplete => SpecOutcome::Incomplete,
                                SpecElems::Malformed(e) => SpecOutcome::Malformed(e),
                            }
                        }
                    }
                }
            }
        }
    } else {
        SpecOutcome::Malformed(ParseError::UnknownType)
    }
}

/// The outcome of reading `count` frames back to back from the front of `s`.
pub open spec fn spec_parse_elems(s: Seq<u8>, count: nat) -> SpecElems
    decreases s.len(), count,
{
    if count == 0 {
        SpecElems::Complete(Seq::empty(), 0)
    } else {
        match spec_parse(s) {
            SpecOutcome::Complete(m, n) => {
                match spec_parse_elems(advance(s, n), (count - 1) as nat) {
                    SpecElems::Complete(ms, k) => SpecElems::Complete(seq![m] + ms, n + k),
                    SpecElems::Incomplete => SpecElems::Incomplete,
                    SpecElems::Malformed(e) => SpecElems::Malformed(e),
                }
            }
            SpecOutcome::Incomplete => SpecElems::Incomplete,
            SpecOutcome::Malformed(e) => SpecElems::Malformed(e),
        }
    }
}

/// What `find_crlf` finds: a terminator within bounds, the first one at or
/// after `i`; or none at all.
pub proof fn lemma_find_crlf(s: Seq<u8>, i: int)
    requires
        0 <= i,
    ensures
        (match find_crlf(s, i) {
            Some(p) => i <= p && p + 2 <= s.len() && s[p] == CR && s[p + 1] == LF
                && (forall|q: int| i <= q < p ==> !(#[trigger] s[q] == CR && s[q + 1] == LF)),
            None => forall|q: int| i <= q && q + 2 <= s.len() ==> !(#[trigger] s[q] == CR && s[q + 1] == LF),
        }),
    decreases s.len() - i,
{
    if i + 2 > s.len() {
    } else if s[i] == CR && s[i + 1] == LF {
    } else {
        lemma_find_crlf(s, i + 1);
    }
}

/// A digit string denotes a nonnegative number.
pub proof fn lemma_digits_nonneg(s: Seq<u8>)
    requires
        all_digits(s),
    ensures
        digits_val(s) >= 0,
    decreases s.len(),
{
    if s.len() > 0 {
        assert(all_digits(s.drop_last()));
        lemma_digits_nonneg(s.drop_last());
        assert(is_digit(s[s.len() - 1]));
    }
}

/// A complete frame occupies at least one byte and no more than the buffer.
pub proof fn lemma_parse_bounds(s: Seq<u8>)
    ensures
        (match spec_parse(s) {
            SpecOutcome::Complete(m, n) => 1 <= n <= s.len(),
            _ => true,
        }),
    decreases s.len(), 0int,
{
    if s.len() == 0 {
    } else if s[0] == 43 || s[0] == 45 || s[0] == 58 {
        lemma_find_crlf(s, 1);
    } else if s[0] == 36 {
        lemma_find_crlf(s, 1);
        if let Some(p) = find_crlf(s, 1) {
            let field = s.subrange(1, p);
            if !is_null_field(field) {
                if parse_length(field) is Some {
                    lemma_digits_nonneg(field);
                }
            }
        }
    } else if s[0] == 42 {
        lemma_find_crlf(s, 1);
        if let Some(p) = find_crlf(s, 1) {
            let field = s.subrange(1, p);
            if !is_null_field(field) {
                if let Some(count) = parse_length(field) {
                    lemma_digits_nonneg(field);
                    lemma_elems_bounds(tail_after(s, p + 2), count as nat);
                }
            }
        }
    }
}

/// A complete run of `count` frames fits in the buffer and has `count`
/// elements.
pub proof fn lemma_elems_bounds(s: Seq<u8>, count: nat)
    ensures
        (match spec_parse_elems(s, count) {
            SpecElems::Complete(ms, k) => 0 <= k <= s.len() && ms.len() == count,
            _ => true,
        }),
    decreases s.len(), count,
{
    if count > 0 {
        lemma_parse_bounds(s);
        if let SpecOutcome::Complete(m, n) = spec_parse(s) {
            lemma_elems_bounds(advance(s, n), (count - 1) as nat);
        }
    }
}

/// The outcome of the executable parser.
#[derive(Debug, PartialEq, Eq)]
pub enum Outcome {
    /// A complete value, and how many bytes of the buffer its frame took.
    Complete(Value, usize),
    /// A valid frame may still arrive: append more bytes and parse again.
    Incomplete,
    /// The buffer can never become a valid frame.
    Malformed(ParseError),
}

/// The executable outcome says of the buffer exactly what the mathematical
/// parser says.
pub open spec fn outcome_matches(r: Outcome, o: SpecOutcome) -> bool {
    match r {
        Outcome::Complete(v, n) => o == SpecOutcome::Complete(v.model(), n as int),
        Outcome::Incomplete => o is Incomplete,
        Outcome::Malformed(e) => o == SpecOutcome::Malformed(e),
    }
}

enum ElemsOutcome {
    Complete(Vec<Value>, usize),
    Incomplete,
    Malformed(ParseError),
}

spec fn elems_matches(r: ElemsOutcome, o: SpecElems) -> bool {
    match r {
        ElemsOutcome::Complete(vs, k) => o == SpecElems::Complete(Value::models_of(vs@), k as int),
        ElemsOutcome::Incomplete => o is Incomplete,
        ElemsOutcome::Malformed(e) => o == SpecElems::Malformed(e),
    }
}

/// Scans for the first `\r\n` pair at or after `start`.
fn find_crlf_exec(buf: &[u8], start: usize) -> (r: Option<usize>)
    ensures
        (match r {
            Some(p) => find_crlf(buf@, start as int) == Some(p as int)
                && start <= p && p + 2 <= buf@.len(),
            None => find_crlf(buf@, start as int) is None,
        }),
{
    let n = buf.len();
    let mut i = start;
    while i < n && i + 1 < n
        invariant
            n == buf@.len(),
            start <= i,
            find_crlf(buf@, start as int) == find_crlf(buf@, i as int),
        decreases buf@.len() - i,
    {
        if buf[i] == CR && buf[i + 1] == LF {
            return Some(i);
        }
        i = i + 1;
    }
    proof {
        lemma_find_crlf(buf@, i as int);
    }
    None
}

/// Reads a digit field as a number, rejecting empty or non-digit fields and
/// values above `cap`.
fn scan_digits(buf: &[u8], from: usize, to: usize, cap: u64) -> (r: Option<u64>)
    requires
        from <= to <= buf@.len(),
    ensures
        (match r {
            Some(v) => dec_field(buf@.subrange(from as int, to as int), cap as int) == Some(v as int)
                && v <= cap,
            None => dec_field(buf@.subrange(from as int, to as int), cap as int) is None,
        }),
{
    let ghost f = buf@.subrange(from as int, to as int);
    if from == to {
        return None;
    }
    let mut acc: u64 = 0;
    let mut over = false;
    let mut k = from;
    let q = cap / 10;
    let rdig = (cap % 10) as u8;
    while k < to
        invariant
            from <= k <= to <= buf@.len(),
            f == buf@.subrange(from as int, to as int),
            all_digits(f.take(k - from)),
            q == cap / 10,
            rdig == cap % 10,
            !over ==> acc as int == digits_val(f.take(k - from)) && acc <= cap,
            over ==> digits_val(f.take(k - from)) > cap,
        decreases to - k,
    {
        let b = buf[k];
        if b < 48 || b > 57 {
            proof {
                assert(f[k - from] == buf@[k as int]);
                assert(!is_digit(f[k - from]));
            }
            return None;
        }
        let d = (b - 48) as u64;
        proof {
            assert(f.take(k + 1 - from).drop_last() =~= f.take(k - from));
            assert(f.take(k + 1 - from).last() == f[k - from]);
            assert(f[k - from] == buf@[k as int]);
            assert(digits_val(f.take(k + 1 - from)) == digits_val(f.take(k - from)) * 10 + (b - 48));
        }
        if over {
            proof {
                assert(digits_val(f.take(k - from)) * 10 >= digits_val(f.take(k - from))) by (nonlinear_arith)
                    requires digits_val(f.take(k - from)) > 0;
            }
        } else if acc > q || (acc == q && b - 48 > rdig) {
            over = true;
            proof {
                assert((acc as int) * 10 + (d as int) > cap as int) by (nonlinear_arith)
                    requires
                        (acc as int) > (cap as int) / 10 || ((acc as int) == (cap as int) / 10 && (d as int) > (cap as int) % 10),
                        0 <= d as int <= 9,
                        (cap as int) >= 0,
                        (acc as int) >= 0,
                        (cap as int) % 10 == (cap as int) - ((cap as int) / 10) * 10;
            }
        } else {
            proof {
                assert((acc as int) * 10 + (d as int) <= cap as int) by (nonlinear_arith)
                    requires
                        (acc as int) < (cap as int) / 10 || ((acc as int) == (cap as int) / 10 && (d as int) <= (cap as int) % 10),
                        0 <= d as int <= 9,
                        (cap as int) >= 0,
                        (acc as int) >= 0,
                        (cap as int) % 10 == (cap as int) - ((cap as int) / 10) * 10;
            }
            acc = acc * 10 + d;
        }
        k = k + 1;
    }
    proof {
        assert(f.take(to - from) =~= f);
    }
    if over {
        None
    } else {
        Some(acc)
    }
}

/// Reads a signed integer line.
fn scan_integer(buf: &[u8], from: usize, to: usize) -> (r: Option<i64>)
    requires
        from <= to <= buf@.len(),
    ensures
        (match r {
            Some(v) => parse_integer(buf@.subrange(from as int, to as int)) == Some(v as int),
            None => parse_integer(buf@.subrange(from as int, to as int)) is None,
        }),
{
    let ghost f = buf@.subrange(from as int, to as int);
    if from < to && buf[from] == 45 {
        proof {
            assert(f[0] == buf@[from as int]);
            assert(f.drop_first() =~= buf@.subrange(from + 1, to as int));
        }
        match scan_digits(buf, from + 1, to, 0x8000000000000000u64) {
            None => None,
            Some(m) => {
                if m == 0x8000000000000000u64 {
                    Some(i64::MIN)
                } else {
                    Some(-(m as i64))
                }
            }
        }
    } else {
        proof {
            if f.len() >= 1 {
                assert(f[0] == buf@[from as int]);
            }
        }
        match scan_digits(buf, from, to, i64::MAX as u64) {
            None => None,
            Some(v) => Some(v as i64),
        }
    }
}

/// Reads one frame from the front of the buffer: the executable counterpart
/// of `spec_parse`. Nothing is consumed on `Incomplete`; the caller appends
/// newly received bytes and parses the combined buffer again.
pub fn parse(buf: &[u8]) -> (r: Outcome)
    ensures
        outcome_matches(r, spec_parse(buf@)),
        (match r {
            Outcome::Complete(v, n) => 1 <= n <= buf@.len(),
            _ => true,
        }),
    decreases buf@.len(), 0int,
{
    let n_buf = buf.len();
    if n_buf == 0 {
        return Outcome::Incomplete;
    }
    let t = buf[0];
    if t == 43 || t == 45 {
        match find_crlf_exec(buf, 1) {
            None => Outcome::Incomplete,
            Some(p) => {
                let payload = slice_to_vec(slice_subrange(buf, 1, p));
                if t == 43 {
                    Outcome::Complete(Value::SimpleString(payload), p + 2)
                } else {
                    Outcome::Complete(Value::Error(payload), p + 2)
                }
            }
        }
    } else if t == 58 {
        match find_crlf_exec(buf, 1) {
            None => Outcome::Incomplete,
            Some(p) => {
                match scan_integer(buf, 1, p) {
                    None => Outcome::Malformed(ParseError::BadInteger),
                    Some(i) => Outcome::Complete(Value::Integer(i), p + 2),
                }
            }
        }
    } else if t == 36 {
        match find_crlf_exec(buf, 1) {
            None => Outcome::Incomplete,
            Some(p) => {
                let ghost field = buf@.subrange(1, p as int);
                if p == 3 && buf[1] == 45 && buf[2] == 49 {
                    proof {
                        assert(is_null_field(field));
                    }
                    Outcome::Complete(Value::BulkString(None), p + 2)
                } else {
                    proof {
                        if field.len() == 2 {
                            assert(field[0] == buf@[1] && field[1] == buf@[2]);
                        }
                        assert(!is_null_field(field));
                    }
                    match scan_digits(buf, 1, p, i64::MAX as u64) {
                        None => Outcome::Malformed(ParseError::BadLength),
                        Some(len64) => {
                            let body = p + 2;
                            let remaining = n_buf - body;
                            if remaining < 2 || len64 > (remaining - 2) as u64 {
                                proof {
                                    assert(buf@.len() < body + len64 + 2);
                                }
                                Outcome::Incomplete
                            } else {
                                let len = len64 as usize;
                                let end = body + len;
                                if buf[end] == CR && buf[end + 1] == LF {
                                    let data = slice_to_vec(slice_subrange(buf, body, end));
                                    Outcome::Complete(Value::BulkString(Some(data)), end + 2)
                                } else {
                                    Outcome::Malformed(ParseError::MissingTerminator)
                                }
                            }
                        }
                    }
                }
            }
        }
    } else if t == 42 {
        match find_crlf_exec(buf, 1) {
            None => Outcome::Incomplete,
            Some(p) => {
                let ghost field = buf@.subrange(1, p as int);
                if p == 3 && buf[1] == 45 && buf[2] == 49 {
                    proof {
                        assert(is_null_field(field));
                    }
                    Outcome::Complete(Value::Array(None), p + 2)
                } else {
                    proof {
                        if field.len() == 2 {
                            assert(field[0] == buf@[1] && field[1] == buf@[2]);
                        }
                        assert(!is_null_field(field));
                    }
                    match scan_digits(buf, 1, p, i64::MAX as u64) {
                        None => Outcome::Malformed(ParseError::BadLength),
                        Some(count) => {
                            let tail = slice_subrange(buf, p + 2, n_buf);
                            proof {
                                assert(tail@ == tail_after(buf@, p + 2));
                            }
                            match parse_elems(tail, count) {
                                ElemsOutcome::Incomplete => Outcome::Incomplete,
                                ElemsOutcome::Malformed(e) => Outcome::Malformed(e),
                                ElemsOutcome::Complete(vs, k) => {
                                    proof {
                                        lemma_elems_bounds(tail@, count as nat);
                                    }
                                    Outcome::Complete(Value::Array(Some(vs)), p + 2 + k)
                                }
                            }
                        }
                    }
                }
            }
        }
    } else {
        Outcome::Malformed(ParseError::UnknownType)
    }
}

/// Reads `count` frames back to back from the front of the buffer.
fn parse_elems(buf: &[u8], count: u64) -> (r: ElemsOutcome)
    ensures
        elems_matches(r, spec_parse_elems(buf@, count as nat)),
        (match r {
            ElemsOutcome::Complete(vs, k) => k <= buf@.len(),
            _ => true,
        }),
    decreases buf@.len(), count,
{
    if count == 0 {
        let vs: Vec<Value> = Vec::new();
        proof {
            assert(Value::models_of(vs@) =~= Seq::<ValueModel>::empty());
        }
        return ElemsOutcome::Complete(vs, 0);
    }
    match parse(buf) {
        Outcome::Incomplete => ElemsOutcome::Incomplete,
        Outcome::Malformed(e) => ElemsOutcome::Malformed(e),
        Outcome::Complete(v, n) => {
            let tail = slice_subrange(buf, n, buf.len());
            proof {
                assert(tail@ == advance(buf@, n as int));
            }
            match parse_elems(tail, count - 1) {
                ElemsOutcome::Incomplete => ElemsOutcome::Incomplete,
                ElemsOutcome::Malformed(e) => ElemsOutcome::Malformed(e),
                ElemsOutcome::Complete(mut vs, k) => {
                    proof {
                        lemma_elems_bounds(tail@, (count - 1) as nat);
                    }
                    let ghost pre = vs@;
                    let ghost tail_models = Value::models_of(pre);
                    vs.insert(0, v);
                    proof {
                        assert(vs@.drop_first() =~= pre);
                        assert(vs@[0] == v);
                        assert(Value::models_of(vs@) == seq![v.model()] + tail_models);
                    }
                    ElemsOutcome::Complete(vs, n + k)
                }
            }
        }
    }
}

} // verus!
