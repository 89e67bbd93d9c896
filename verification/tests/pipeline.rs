use line_pipeline::codec::DecodeError;
use line_pipeline::pipeline::{Pipeline, PipelineError, ResponseSlots};
use line_pipeline::service::{Echo, EchoRev, Service};
use line_pipeline::transport::LineProto;

#[test]
fn echo_answers_with_the_request() {
    let r = Echo.call(String::from("hello, world!"));
    assert_eq!(r, Ok(String::from("hello, world!")));
}

#[test]
fn reversing_service_reverses_characters() {
    let r = EchoRev.call(String::from("hello, world!"));
    assert_eq!(r, Ok(String::from("!dlrow ,olleh")));
    let r2 = EchoRev.call(String::from("日本語"));
    assert_eq!(r2, Ok(String::from("語本日")));
    let r3 = EchoRev.call(String::new());
    assert_eq!(r3, Ok(String::new()));
}

#[test]
fn responses_leave_in_ticket_order_despite_reversed_completions() {
    let mut slots = ResponseSlots::new();
    let t0 = slots.submit();
    let t1 = slots.submit();
    let t2 = slots.submit();

    // The later requests finish first; nothing may leave yet.
    slots.complete(t2, String::from("third"));
    assert_eq!(slots.pop_ready(), None);
    slots.complete(t1, String::from("second"));
    assert_eq!(slots.pop_ready(), None);

    // Once the earliest ticket is answered, everything drains in order.
    slots.complete(t0, String::from("first"));
    assert_eq!(slots.pop_ready(), Some(String::from("first")));
    assert_eq!(slots.pop_ready(), Some(String::from("second")));
    assert_eq!(slots.pop_ready(), Some(String::from("third")));
    assert_eq!(slots.pop_ready(), None);
}

#[test]
fn pipeline_echoes_a_line() {
    let proto = LineProto;
    let mut pipe = Pipeline::new(Echo, proto.bind_transport());
    assert_eq!(pipe.process_bytes(b"hello, world!\n"), Ok(()));
    let out = pipe.take_outbound();
    assert_eq!(out, b"hello, world!\n".to_vec());
}

#[test]
fn pipeline_reverses_a_line() {
    let proto = LineProto;
    let mut pipe = Pipeline::new(EchoRev, proto.bind_transport());
    assert_eq!(pipe.process_bytes(b"hello, world!\n"), Ok(()));
    let out = pipe.take_outbound();
    assert_eq!(out, b"!dlrow ,olleh\n".to_vec());
}

#[test]
fn pipeline_answers_requests_in_arrival_order() {
    let proto = LineProto;
    let mut pipe = Pipeline::new(EchoRev, proto.bind_transport());
    assert_eq!(pipe.process_bytes(b"ab\ncd"), Ok(()));
    assert_eq!(pipe.process_bytes(b"\nef\n"), Ok(()));
    let out = pipe.take_outbound();
    assert_eq!(out, b"ba\ndc\nfe\n".to_vec());
}

#[test]
fn pipeline_dies_on_invalid_utf8() {
    let proto = LineProto;
    let mut pipe = Pipeline::new(Echo, proto.bind_transport());
    assert_eq!(pipe.process_bytes(b"fine\n"), Ok(()));
    let r = pipe.process_bytes(&[0xff, 0xfe, b'\n', b'm', b'o', b'r', b'e', b'\n']);
    assert_eq!(r, Err(PipelineError::Decode(DecodeError::InvalidEncoding)));
    // Only the frame before the failure was answered.
    assert_eq!(pipe.take_outbound(), b"fine\n".to_vec());
}

#[test]
fn undelimited_leftover_at_eof_is_truncation_not_a_frame() {
    let proto = LineProto;
    let mut pipe = Pipeline::new(Echo, proto.bind_transport());
    assert_eq!(pipe.process_bytes(b"no delimiter here"), Ok(()));
    let r = pipe.on_eof();
    assert_eq!(r, Err(PipelineError::Truncated));
    // No phantom frame was emitted for the leftover bytes.
    assert_eq!(pipe.take_outbound(), Vec::<u8>::new());
}

#[test]
fn clean_eof_closes_in_order() {
    let proto = LineProto;
    let mut pipe = Pipeline::new(Echo, proto.bind_transport());
    assert_eq!(pipe.process_bytes(b"bye\n"), Ok(()));
    assert_eq!(pipe.on_eof(), Ok(()));
    assert_eq!(pipe.take_outbound(), b"bye\n".to_vec());
}

#[test]
fn transport_error_is_fatal_for_the_connection() {
    let proto = LineProto;
    let mut pipe = Pipeline::new(Echo, proto.bind_transport());
    assert_eq!(pipe.process_bytes(b"one\n"), Ok(()));
    let e = pipe.on_transport_error();
    assert_eq!(e, PipelineError::Transport);
}
