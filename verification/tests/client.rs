use resp_client::client::{
    command_request, get_request, interpret_get, interpret_set, set_request, ClientError,
    DecodeStep, ReadStep, ResponseBuffer,
};
use resp_client::decode::ParseError;
use resp_client::value::Value;

fn expect_frame(step: DecodeStep) -> Value {
    match step {
        DecodeStep::Frame(v) => v,
        other => panic!("expected a complete frame, got {:?}", other),
    }
}

#[test]
fn request_bytes_for_set() {
    let req = set_request(&b"Elihu".to_vec(), &b"Miami".to_vec());
    assert_eq!(req, b"*3\r\n$3\r\nSET\r\n$5\r\nElihu\r\n$5\r\nMiami\r\n".to_vec());
}

#[test]
fn request_bytes_for_get() {
    let req = get_request(&b"Elihu".to_vec());
    assert_eq!(req, b"*2\r\n$3\r\nGET\r\n$5\r\nElihu\r\n".to_vec());
}

#[test]
fn request_bytes_for_generic_command() {
    let req = command_request(&vec![b"PING".to_vec()]);
    assert_eq!(req, b"*1\r\n$4\r\nPING\r\n".to_vec());
    let req = command_request(&vec![
        b"SET".to_vec(),
        b"Elihu".to_vec(),
        b"Miami".to_vec(),
    ]);
    assert_eq!(req, b"*3\r\n$3\r\nSET\r\n$5\r\nElihu\r\n$5\r\nMiami\r\n".to_vec());
}

#[test]
fn set_succeeds_on_ok_status() {
    let _req = set_request(&b"Elihu".to_vec(), &b"Miami".to_vec());
    let mut buf = ResponseBuffer::new();
    buf.feed(b"+OK\r\n");
    let v = expect_frame(buf.try_next());
    assert_eq!(interpret_set(v), Ok(()));
}

#[test]
fn get_returns_present_value() {
    let _req = get_request(&b"Elihu".to_vec());
    let mut buf = ResponseBuffer::new();
    buf.feed(b"$5\r\nMiami\r\n");
    let v = expect_frame(buf.try_next());
    assert_eq!(interpret_get(v), Ok(Some(b"Miami".to_vec())));
}

#[test]
fn get_returns_no_value_for_null_bulk_string() {
    let mut buf = ResponseBuffer::new();
    buf.feed(b"$-1\r\n");
    let v = expect_frame(buf.try_next());
    assert_eq!(interpret_get(v), Ok(None));
}

#[test]
fn server_error_fails_the_command() {
    let mut buf = ResponseBuffer::new();
    buf.feed(b"-ERR no such key\r\n");
    let v = expect_frame(buf.try_next());
    let err = interpret_get(v).unwrap_err();
    assert_eq!(err, ClientError::Server(b"ERR no such key".to_vec()));
    assert!(err.leaves_connection_usable());
}

#[test]
fn split_response_decodes_once_both_parts_arrive() {
    let response = b"$5\r\nMiami\r\n";
    for cut in 1..response.len() {
        let mut buf = ResponseBuffer::new();
        buf.feed(&response[..cut]);
        assert_eq!(buf.try_next(), DecodeStep::NeedMore, "cut at {}", cut);
        buf.feed(&response[cut..]);
        let v = expect_frame(buf.try_next());
        assert_eq!(interpret_get(v), Ok(Some(b"Miami".to_vec())));
    }
}

#[test]
fn read_loop_steps_through_a_split_response() {
    let response = b"$5\r\nMiami\r\n";
    let mut buf = ResponseBuffer::new();
    assert_eq!(buf.on_read(&response[..6]), ReadStep::ReadMore);
    match buf.on_read(&response[6..]) {
        ReadStep::Deliver(v) => {
            assert_eq!(v, Value::BulkString(Some(b"Miami".to_vec())));
        }
        other => panic!("expected the response to complete, got {:?}", other),
    }
}

#[test]
fn empty_read_is_an_empty_response_failure() {
    let mut buf = ResponseBuffer::new();
    buf.feed(b"$5\r\nMia");
    let step = buf.on_read(b"");
    assert_eq!(step, ReadStep::Fail(ClientError::EmptyResponse));
    assert!(!ClientError::EmptyResponse.leaves_connection_usable());
}

#[test]
fn corrupt_stream_is_a_protocol_failure() {
    let mut buf = ResponseBuffer::new();
    let step = buf.on_read(b"!garbage\r\n");
    assert_eq!(
        step,
        ReadStep::Fail(ClientError::Protocol(ParseError::UnknownType))
    );
    assert!(!ClientError::Protocol(ParseError::UnknownType).leaves_connection_usable());
}

#[test]
fn wrong_type_is_a_mismatch_for_get() {
    let mut buf = ResponseBuffer::new();
    buf.feed(b":5\r\n");
    let v = expect_frame(buf.try_next());
    assert_eq!(interpret_get(v), Err(ClientError::TypeMismatch));
    assert!(ClientError::TypeMismatch.leaves_connection_usable());
}

#[test]
fn wrong_status_is_a_mismatch_for_set() {
    let mut buf = ResponseBuffer::new();
    buf.feed(b"+NOPE\r\n");
    let v = expect_frame(buf.try_next());
    assert_eq!(interpret_set(v), Err(ClientError::TypeMismatch));
    let mut buf = ResponseBuffer::new();
    buf.feed(b"*0\r\n");
    let v = expect_frame(buf.try_next());
    assert_eq!(interpret_set(v), Err(ClientError::TypeMismatch));
}

#[test]
fn leftover_bytes_are_retained_for_the_next_frame() {
    let mut buf = ResponseBuffer::new();
    buf.feed(b"+first\r\n+second\r\n");
    let v1 = expect_frame(buf.try_next());
    assert_eq!(v1, Value::SimpleString(b"first".to_vec()));
    let v2 = expect_frame(buf.try_next());
    assert_eq!(v2, Value::SimpleString(b"second".to_vec()));
    assert_eq!(buf.try_next(), DecodeStep::NeedMore);
}
