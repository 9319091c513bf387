use commonware_runtime::deterministic::Executor;
use commonware_runtime::mocks::Channel;
use commonware_runtime::network::{Poll, SocketAddr};
use commonware_runtime::{Error, Listener, Network, Runner, Sink, Stream};

#[test]
fn bytes_arrive_in_order_without_message_boundaries() {
    let (mut channel, mut sink, mut stream) = Channel::init();
    sink.send(&mut channel, b"hello").unwrap();
    sink.send(&mut channel, b" world").unwrap();
    assert_eq!(channel.available(), 11);
    let mut buffer = [0u8; 7];
    assert_eq!(stream.recv(&mut channel, &mut buffer), Poll::Ready(Ok(())));
    assert_eq!(&buffer, b"hello w");
    let mut buffer = [0u8; 4];
    assert_eq!(stream.recv(&mut channel, &mut buffer), Poll::Ready(Ok(())));
    assert_eq!(&buffer, b"orld");
    assert_eq!(channel.available(), 0);
}

#[test]
fn receiver_waits_while_too_little_was_sent() {
    let (mut channel, mut sink, mut stream) = Channel::init();
    sink.send(&mut channel, b"abc").unwrap();
    let mut buffer = [7u8; 4];
    assert_eq!(stream.recv(&mut channel, &mut buffer), Poll::Pending);
    assert_eq!(buffer, [7; 4]);
    sink.send(&mut channel, b"d").unwrap();
    assert_eq!(stream.recv(&mut channel, &mut buffer), Poll::Ready(Ok(())));
    assert_eq!(&buffer, b"abcd");
}

fn ready<T>(result: Poll<Result<T, Error>>) -> T {
    match result {
        Poll::Ready(result) => result.unwrap(),
        Poll::Pending => panic!("nothing to do yet"),
    }
}

#[test]
fn receiver_is_refused_once_the_sink_is_gone() {
    let (mut channel, mut sink, mut stream) = Channel::init();
    sink.send(&mut channel, b"abc").unwrap();
    sink.close(&mut channel);
    let mut buffer = [7u8; 4];
    assert_eq!(
        stream.recv(&mut channel, &mut buffer),
        Poll::Ready(Err(Error::RecvFailed))
    );
    assert_eq!(buffer, [7; 4]);

    // What was sent before still arrives
    let mut buffer = [0u8; 3];
    assert_eq!(
        stream.recv(&mut channel, &mut buffer),
        Poll::Ready(Ok(()))
    );
    assert_eq!(&buffer, b"abc");
}

const SERVER: SocketAddr = local(8000);

const fn local(port: u16) -> SocketAddr {
    SocketAddr::V4 {
        ip: 0x7f00_0001,
        port,
    }
}

#[test]
fn server_and_client_talk_both_ways() {
    let (executor, context, mut runtime) = Executor::default();
    executor.start(move || {
        // Before the server is there, dialing fails
        assert!(matches!(
            context.dial(&mut runtime, SERVER),
            Err(Error::ConnectionFailed)
        ));
        let mut listener = context.bind(&mut runtime, SERVER).unwrap();
        assert!(matches!(listener.accept(&mut runtime), Poll::Pending));

        // Two clients are accepted in the order in which they dialed
        let (mut first_sink, mut first_stream) = context.dial(&mut runtime, SERVER).unwrap();
        let (mut second_sink, _) = context.dial(&mut runtime, SERVER).unwrap();
        first_sink.send(&mut runtime, b"first").unwrap();
        second_sink.send(&mut runtime, b"second").unwrap();
        assert_eq!(listener.backlog(&runtime), 2);
        let (first_address, mut sink, mut stream) = ready(listener.accept(&mut runtime));
        let (second_address, _, mut second) = ready(listener.accept(&mut runtime));
        assert_eq!(first_address, local(32768));
        assert_eq!(second_address, local(32769));
        assert_eq!(listener.backlog(&runtime), 0);

        // Each end receives what the other sent
        assert_eq!(stream.available(&runtime), 5);
        let mut buffer = [0u8; 5];
        assert_eq!(stream.recv(&mut runtime, &mut buffer), Poll::Ready(Ok(())));
        assert_eq!(&buffer, b"first");
        let mut buffer = [0u8; 6];
        assert_eq!(second.recv(&mut runtime, &mut buffer), Poll::Ready(Ok(())));
        assert_eq!(&buffer, b"second");
        assert_eq!(first_stream.recv(&mut runtime, &mut buffer), Poll::Pending);
        sink.send(&mut runtime, b"answer").unwrap();
        assert_eq!(first_stream.recv(&mut runtime, &mut buffer), Poll::Ready(Ok(())));
        assert_eq!(&buffer, b"answer");
        assert_eq!(stream.available(&runtime), 0);

        // One end gives up sending, the other does not
        first_sink.close(&mut runtime);
        let mut byte = [0u8; 1];
        assert_eq!(
            stream.recv(&mut runtime, &mut byte),
            Poll::Ready(Err(Error::RecvFailed))
        );
        assert_eq!(first_stream.recv(&mut runtime, &mut byte), Poll::Pending);
    });
}

#[test]
fn an_address_is_bound_once() {
    let (_, context, mut runtime) = Executor::default();
    assert!(context.bind(&mut runtime, SERVER).is_ok());
    assert!(matches!(
        context.bind(&mut runtime, SERVER),
        Err(Error::BindFailed)
    ));
    for (ip, flowinfo, scope_id) in [(1, 0, 0), (2, 0, 0), (1, 3, 0), (1, 0, 3)] {
        let other = SocketAddr::V6 {
            ip,
            port: 8000,
            flowinfo,
            scope_id,
        };
        assert!(context.bind(&mut runtime, other).is_ok());
        assert!(matches!(
            context.bind(&mut runtime, other),
            Err(Error::BindFailed)
        ));
    }
}

#[test]
fn ports_to_dial_from_cannot_be_bound() {
    let (_, context, mut runtime) = Executor::default();
    for (port, bound) in [(32767, true), (32768, false), (60999, false), (61000, true)] {
        let result = context.bind(&mut runtime, local(port));
        assert_eq!(result.is_ok(), bound);
    }
    let elsewhere = SocketAddr::V4 {
        ip: 0x7f00_0002,
        port: 32768,
    };
    assert!(context.bind(&mut runtime, elsewhere).is_ok());
}

#[test]
fn dialing_fails_once_the_ports_are_used_up() {
    let (_, context, mut runtime) = Executor::default();
    assert!(context.bind(&mut runtime, SERVER).is_ok());
    for _ in 0..28232 {
        assert!(context.dial(&mut runtime, SERVER).is_ok());
    }
    assert!(matches!(
        context.dial(&mut runtime, SERVER),
        Err(Error::ConnectionFailed)
    ));
}
