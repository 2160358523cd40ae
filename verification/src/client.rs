//! The client core: building command frames, accumulating response bytes
//! across reads, and mapping decoded values to what each operation expects.
//! All I/O stays with the caller, who hands bytes in and takes bytes out.

use vstd::prelude::*;
use vstd::slice::slice_to_vec;
use crate::value::{Value, ValueModel};
use crate::encode::{spec_encode, serialize, lemma_models_of};
use crate::decode::{spec_parse, parse, Outcome, ParseError, SpecOutcome};

verus! {

/// Everything that can go wrong with one command, as distinct inspectable
/// variants. I/O failures are the transport's to report; they sit outside
/// this type.
#[derive(Debug, PartialEq, Eq)]
pub enum ClientError {
    /// The peer answered with a well-formed error value carrying this
    /// message. The connection stays usable.
    Server(Vec<u8>),
    /// The peer answered with a well-formed value of a type the operation
    /// does not expect. The connection stays usable.
    TypeMismatch,
    /// The peer's bytes can never become a valid frame; the stream cannot be
    /// resynchronized and the connection must be discarded.
    Protocol(ParseError),
    /// The peer closed the connection before any frame completed; the
    /// connection must be discarded.
    EmptyResponse,
}

impl ClientError {
    /// The propagation rule: only a server-reported error or a type mismatch
    /// leaves the connection reusable; every other failure requires
    /// discarding the client.
    pub fn leaves_connection_usable(&self) -> (r: bool)
        ensures
            r == (self is Server || self is TypeMismatch),
    {
        match self {
            ClientError::Server(_) => true,
            ClientError::TypeMismatch => true,
            ClientError::Protocol(_) => false,
            ClientError::EmptyResponse => false,
        }
    }
}

/// The models of the bulk strings a command is made of.
pub open spec fn bulk_models(args: Seq<Seq<u8>>) -> Seq<ValueModel> {
    args.map_values(|a: Seq<u8>| ValueModel::BulkString(Some(a)))
}

/// The value a command is framed as: an array of bulk strings, the command
/// name first, then its arguments.
pub open spec fn command_model(args: Seq<Seq<u8>>) -> ValueModel {
    ValueModel::Array(Some(bulk_models(args)))
}

/// Frames a command: the encoding of an array of bulk strings, one per
/// argument, in order.
pub fn command_request(args: &Vec<Vec<u8>>) -> (out: Vec<u8>)
    ensures
        out@ == spec_encode(command_model(args.deep_view())),
{
    let ghost goal: Seq<ValueModel> = bulk_models(args.deep_view());
    let mut vals: Vec<Value> = Vec::new();
    let n = args.len();
    let mut i: usize = 0;
    while i < n
        invariant
            n == args.len(),
            i <= n,
            vals@.len() == i,
            goal == bulk_models(args.deep_view()),
            forall|k: int| 0 <= k < i ==> #[trigger] vals@[k].model() == ValueModel::BulkString(
                Some(args.deep_view()[k]),
            ),
        decreases n - i,
    {
        let data = slice_to_vec(args[i].as_slice());
        vals.push(Value::BulkString(Some(data)));
        proof {
            assert(args.deep_view()[i as int] =~= args@[i as int]@);
        }
        i = i + 1;
    }
    let v = Value::Array(Some(vals));
    proof {
        lemma_models_of(vals@);
        assert(args.deep_view().len() == args@.len());
        assert(Value::models_of(vals@) =~= goal) by {
            assert(forall|k: int| 0 <= k < n ==> #[trigger] goal[k] == ValueModel::BulkString(Some(args.deep_view()[k])));
        }
        assert(v.model() == command_model(args.deep_view()));
    }
    let mut out: Vec<u8> = Vec::new();
    serialize(&v, &mut out);
    out
}

/// The value a retrieval command is framed as.
pub open spec fn get_model(key: Seq<u8>) -> ValueModel {
    ValueModel::Array(Some(seq![
        ValueModel::BulkString(Some(seq![71u8, 69u8, 84u8])),
        ValueModel::BulkString(Some(key)),
    ]))
}

/// The value a store command is framed as.
pub open spec fn set_model(key: Seq<u8>, value: Seq<u8>) -> ValueModel {
    ValueModel::Array(Some(seq![
        ValueModel::BulkString(Some(seq![83u8, 69u8, 84u8])),
        ValueModel::BulkString(Some(key)),
        ValueModel::BulkString(Some(value)),
    ]))
}

/// Frames a `GET key` command.
pub fn get_request(key: &Vec<u8>) -> (out: Vec<u8>)
    ensures
        out@ == spec_encode(get_model(key@)),
{
    let mut name: Vec<u8> = Vec::new();
    name.push(71);
    name.push(69);
    name.push(84);
    let mut vals: Vec<Value> = Vec::new();
    vals.push(Value::BulkString(Some(name)));
    vals.push(Value::BulkString(Some(slice_to_vec(key.as_slice()))));
    let v = Value::Array(Some(vals));
    proof {
        lemma_models_of(vals@);
        assert(vals@[0].model() == ValueModel::BulkString(Some(seq![71u8, 69u8, 84u8]))) by {
            assert(vals@[0] is BulkString);
            assert(vals@[0]->BulkString_0->Some_0@ =~= seq![71u8, 69u8, 84u8]);
        }
        assert(Value::models_of(vals@) =~= seq![
            ValueModel::BulkString(Some(seq![71u8, 69u8, 84u8])),
            ValueModel::BulkString(Some(key@)),
        ]);
    }
    let mut out: Vec<u8> = Vec::new();
    serialize(&v, &mut out);
    out
}

/// Frames a `SET key value` command.
pub fn set_request(key: &Vec<u8>, value: &Vec<u8>) -> (out: Vec<u8>)
    ensures
        out@ == spec_encode(set_model(key@, value@)),
{
    let mut name: Vec<u8> = Vec::new();
    name.push(83);
    name.push(69);
    name.push(84);
    let mut vals: Vec<Value> = Vec::new();
    vals.push(Value::BulkString(Some(name)));
    vals.push(Value::BulkString(Some(slice_to_vec(key.as_slice()))));
    vals.push(Value::BulkString(Some(slice_to_vec(value.as_slice()))));
    let v = Value::Array(Some(vals));
    proof {
        lemma_models_of(vals@);
        assert(vals@[0].model() == ValueModel::BulkString(Some(seq![83u8, 69u8, 84u8]))) by {
            assert(vals@[0] is BulkString);
            assert(vals@[0]->BulkString_0->Some_0@ =~= seq![83u8, 69u8, 84u8]);
        }
        assert(Value::models_of(vals@) =~= seq![
            ValueModel::BulkString(Some(seq![83u8, 69u8, 84u8])),
            ValueModel::BulkString(Some(key@)),
            ValueModel::BulkString(Some(value@)),
        ]);
    }
    let mut out: Vec<u8> = Vec::new();
    serialize(&v, &mut out);
    out
}

/// One try at decoding the accumulated bytes.
#[derive(Debug, PartialEq, Eq)]
pub enum DecodeStep {
    /// A complete value; its frame has been removed from the buffer and any
    /// leftover bytes of a later frame are retained.
    Frame(Value),
    /// No complete frame yet: append more bytes and try again. Nothing was
    /// consumed.
    NeedMore,
    /// The buffer can never become a valid frame. Nothing was consumed.
    Corrupt(ParseError),
}

/// One decision of the client's read loop.
#[derive(Debug, PartialEq, Eq)]
pub enum ReadStep {
    /// The response is complete.
    Deliver(Value),
    /// The frame is still incomplete: read more bytes.
    ReadMore,
    /// The exchange failed; the error says whether the connection survives.
    Fail(ClientError),
}

/// The client's input buffer: bytes accumulated across reads, consumed as
/// frames complete.
pub struct ResponseBuffer {
    /// The accumulated, not yet consumed bytes.
    pub buf: Vec<u8>,
}

impl ResponseBuffer {
    /// An empty buffer, for a freshly established connection.
    pub fn new() -> (r: ResponseBuffer)
        ensures
            r.buf@ == Seq::<u8>::empty(),
    {
        ResponseBuffer { buf: Vec::new() }
    }

    /// Appends bytes the transport delivered. Restartability: nothing
    /// previously received is lost, whatever offsets the transport split the
    /// response at.
    pub fn feed(&mut self, chunk: &[u8])
        ensures
            final(self).buf@ == old(self).buf@ + chunk@,
    {
        self.buf.extend_from_slice(chunk);
    }

    /// Tries to decode one frame from the front of the buffer, consuming
    /// exactly that frame on success and nothing otherwise.
    pub fn try_next(&mut self) -> (r: DecodeStep)
        ensures
            (match r {
                DecodeStep::Frame(v) => (match spec_parse(old(self).buf@) {
                    SpecOutcome::Complete(m, n) => v.model() == m && final(self).buf@
                        == old(self).buf@.subrange(n, old(self).buf@.len() as int),
                    _ => false,
                }),
                DecodeStep::NeedMore => spec_parse(old(self).buf@) is Incomplete
                    && final(self).buf@ == old(self).buf@,
                DecodeStep::Corrupt(e) => spec_parse(old(self).buf@) == SpecOutcome::Malformed(e)
                    && final(self).buf@ == old(self).buf@,
            }),
    {
        match parse(self.buf.as_slice()) {
            Outcome::Incomplete => DecodeStep::NeedMore,
            Outcome::Malformed(e) => DecodeStep::Corrupt(e),
            Outcome::Complete(v, n) => {
                let rest = self.buf.split_off(n);
                self.buf = rest;
                DecodeStep::Frame(v)
            }
        }
    }

    /// One decision of the read loop: `chunk` is what the transport
    /// delivered, empty meaning the peer closed the connection. An empty
    /// read before any frame completed is the empty-response failure; any
    /// other failure or outcome is the buffer's decoding verdict on the
    /// bytes received so far.
    pub fn on_read(&mut self, chunk: &[u8]) -> (r: ReadStep)
        ensures
            (match r {
                ReadStep::Deliver(v) => chunk@.len() > 0 && (match spec_parse(
                    old(self).buf@ + chunk@,
                ) {
                    SpecOutcome::Complete(m, n) => v.model() == m && final(self).buf@ == (old(
                        self,
                    ).buf@ + chunk@).subrange(n, (old(self).buf@ + chunk@).len() as int),
                    _ => false,
                }),
                ReadStep::ReadMore => chunk@.len() > 0 && spec_parse(old(self).buf@ + chunk@)
                    is Incomplete && final(self).buf@ == old(self).buf@ + chunk@,
                ReadStep::Fail(e) => (match e {
                    ClientError::EmptyResponse => chunk@.len() == 0 && final(self).buf@ == old(
                        self,
                    ).buf@,
                    ClientError::Protocol(pe) => chunk@.len() > 0 && spec_parse(
                        old(self).buf@ + chunk@,
                    ) == SpecOutcome::Malformed(pe) && final(self).buf@ == old(self).buf@ + chunk@,
                    _ => false,
                }),
            }),
    {
        if chunk.len() == 0 {
            return ReadStep::Fail(ClientError::EmptyResponse);
        }
        self.feed(chunk);
        match self.try_next() {
            DecodeStep::Frame(v) => ReadStep::Deliver(v),
            DecodeStep::NeedMore => ReadStep::ReadMore,
            DecodeStep::Corrupt(e) => ReadStep::Fail(ClientError::Protocol(e)),
        }
    }
}

/// The status line a successful store command answers with.
pub open spec fn ok_status() -> Seq<u8> {
    seq![79u8, 75u8]
}

/// Maps a decoded response to what a retrieval expects: a present or absent
/// bulk string; a server error fails the command; any other type is a
/// mismatch.
pub fn interpret_get(v: Value) -> (r: Result<Option<Vec<u8>>, ClientError>)
    ensures
        (match v.model() {
            ValueModel::BulkString(Some(b)) => (match r {
                Ok(Some(d)) => d@ == b,
                _ => false,
            }),
            ValueModel::BulkString(None) => r == Ok::<Option<Vec<u8>>, ClientError>(None),
            ValueModel::Error(msg) => (match r {
                Err(ClientError::Server(m)) => m@ == msg,
                _ => false,
            }),
            _ => r == Err::<Option<Vec<u8>>, ClientError>(ClientError::TypeMismatch),
        }),
{
    match v {
        Value::BulkString(Some(b)) => Ok(Some(b)),
        Value::BulkString(None) => Ok(None),
        Value::Error(m) => Err(ClientError::Server(m)),
        _ => Err(ClientError::TypeMismatch),
    }
}

/// Maps a decoded response to what a store expects: the `OK` status; a
/// server error fails the command; anything else is a mismatch.
pub fn interpret_set(v: Value) -> (r: Result<(), ClientError>)
    ensures
        (match v.model() {
            ValueModel::SimpleString(s) => if s == ok_status() {
                r == Ok::<(), ClientError>(())
            } else {
                r == Err::<(), ClientError>(ClientError::TypeMismatch)
            },
            ValueModel::Error(msg) => (match r {
                Err(ClientError::Server(m)) => m@ == msg,
                _ => false,
            }),
            _ => r == Err::<(), ClientError>(ClientError::TypeMismatch),
        }),
{
    match v {
        Value::SimpleString(s) => {
            if s.len() == 2 && s[0] == 79 && s[1] == 75 {
                proof {
                    assert(s@ =~= ok_status());
                }
                Ok(())
            } else {
                proof {
                    assert(s@ != ok_status()) by {
                        if s@.len() == 2 {
                            assert(s@[0] == s[0 as int] && s@[1] == s[1 as int]);
                        }
                    }
                }
                Err(ClientError::TypeMismatch)
            }
        }
        Value::Error(m) => Err(ClientError::Server(m)),
        _ => Err(ClientError::TypeMismatch),
    }
}

} // verus!
