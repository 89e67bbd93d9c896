use line_pipeline::codec::DecodeError;
use line_pipeline::dispatch::{AcceptError, Dispatcher};
use line_pipeline::pipeline::PipelineError;
use line_pipeline::service::Echo;
use line_pipeline::transport::LineProto;

#[test]
fn each_connection_gets_only_its_own_echo() {
    let mut d: Dispatcher<Echo> = Dispatcher::new();
    let a = d.on_accept(Ok(Echo)).unwrap();
    let b = d.on_accept(Ok(Echo)).unwrap();
    assert_ne!(a, b);

    // Both clients talk at the same time, interleaved chunk by chunk.
    assert_eq!(d.feed_bytes(a, b"from the fir"), Ok(()));
    assert_eq!(d.feed_bytes(b, b"from the second\n"), Ok(()));
    assert_eq!(d.feed_bytes(a, b"st\n"), Ok(()));

    assert_eq!(d.collect_outbound(a), b"from the first\n".to_vec());
    assert_eq!(d.collect_outbound(b), b"from the second\n".to_vec());
}

#[test]
fn accept_failure_is_recoverable() {
    let mut d: Dispatcher<Echo> = Dispatcher::new();
    assert_eq!(d.on_accept(Err(AcceptError::Failed)), None);
    assert_eq!(d.count(), 0);
    assert_eq!(d.on_accept(Ok(Echo)), Some(0));
    assert_eq!(d.count(), 1);
    assert_eq!(d.feed_bytes(0, b"still serving\n"), Ok(()));
    assert_eq!(d.collect_outbound(0), b"still serving\n".to_vec());
}

#[test]
fn one_connections_failure_leaves_the_other_alone() {
    let mut d: Dispatcher<Echo> = Dispatcher::new();
    let sick = d.on_accept(Ok(Echo)).unwrap();
    let healthy = d.on_accept(Ok(Echo)).unwrap();

    let r = d.feed_bytes(sick, &[0xff, b'\n']);
    assert_eq!(r, Err(PipelineError::Decode(DecodeError::InvalidEncoding)));

    assert_eq!(d.feed_bytes(healthy, b"unbothered\n"), Ok(()));
    assert_eq!(d.collect_outbound(healthy), b"unbothered\n".to_vec());
    assert_eq!(d.collect_outbound(sick), Vec::<u8>::new());
}

#[test]
fn disconnect_without_delimiter_terminates_that_pipeline() {
    let mut d: Dispatcher<Echo> = Dispatcher::new();
    let id = d.on_accept(Ok(Echo)).unwrap();
    assert_eq!(d.feed_bytes(id, b"half a line"), Ok(()));
    assert_eq!(d.end_of_stream(id), Err(PipelineError::Truncated));
    assert_eq!(d.collect_outbound(id), Vec::<u8>::new());
}

#[test]
fn transport_binding_starts_empty() {
    let proto = LineProto;
    let mut t = proto.bind_transport();
    assert_eq!(t.inbound_len(), 0);
    assert_eq!(t.outbound_len(), 0);
    t.feed(b"abc");
    assert_eq!(t.inbound_len(), 3);
    t.send(String::from("xy"));
    assert_eq!(t.outbound_len(), 3);
    assert_eq!(t.take_outbound(), b"xy\n".to_vec());
    assert_eq!(t.outbound_len(), 0);
}
