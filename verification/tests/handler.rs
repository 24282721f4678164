use echo_core::handler::HttpRequest;
use echo_core::handler::TcpAction;
use echo_core::handler::TcpEcho;
use echo_core::handler::echo_response;
use echo_core::handler::ping_response;
use echo_core::handler::udp_reply;

fn read_into(buf: &mut Vec<u8>, bytes: &[u8]) -> usize {
    for (i, b) in bytes.iter().enumerate() {
        buf[i] = *b;
    }
    bytes.len()
}

#[test]
fn tcp_echoes_chunks_in_order() {
    let mut session = TcpEcho::new();
    let mut buf = vec![0u8; 1024];

    let n = read_into(&mut buf, b"hello\n");
    match session.on_read(&buf, n) {
        TcpAction::Write(data) => assert_eq!(data, b"hello\n"),
        TcpAction::Close => panic!("expected an echo write"),
    }

    let n = read_into(&mut buf, b"world\n");
    match session.on_read(&buf, n) {
        TcpAction::Write(data) => assert_eq!(data, b"world\n"),
        TcpAction::Close => panic!("expected an echo write"),
    }
}

#[test]
fn tcp_zero_read_closes_cleanly() {
    let mut session = TcpEcho::new();
    let buf = vec![0u8; 1024];
    assert!(matches!(session.on_read(&buf, 0), TcpAction::Close));
}

#[test]
fn tcp_echoes_only_the_read_prefix() {
    let mut session = TcpEcho::new();
    let mut buf = vec![0xAAu8; 1024];
    let n = read_into(&mut buf, b"abc");
    match session.on_read(&buf, n) {
        TcpAction::Write(data) => assert_eq!(data, b"abc"),
        TcpAction::Close => panic!("expected an echo write"),
    }
}

#[test]
fn udp_reply_is_the_datagram() {
    let mut buf = vec![0u8; 2048];
    buf[0] = 0x01;
    buf[1] = 0x02;
    buf[2] = 0x03;
    assert_eq!(udp_reply(&buf, 3), vec![0x01, 0x02, 0x03]);
}

#[test]
fn udp_reply_to_empty_datagram() {
    let buf = vec![0u8; 2048];
    assert_eq!(udp_reply(&buf, 0), Vec::<u8>::new());
}

#[test]
fn ping_answers_pong() {
    let r = ping_response();
    assert_eq!(r.status, 200);
    assert_eq!(r.body, b"pong");
}

#[test]
fn echo_copies_body_and_headers() {
    let req = HttpRequest {
        headers: vec![("X-Test".to_string(), "1".to_string())],
        body: b"abc".to_vec(),
    };
    let r = echo_response(req);
    assert_eq!(r.status, 200);
    assert_eq!(r.body, b"abc");
    assert!(r.headers.iter().any(|(k, v)| k == "X-Test" && v == "1"));
}
