//! Measuring streamed responses, and the addresses of the server.

use praxis::environment::Environment;
use praxis::server::{
    admin_address, config_choice, extract_path, gateway_mode, istiod_address, preflight_response,
};
use praxis::streaming::backend::{chunk_frame, PacedConnection, ServeAction, ServeEvent};
use praxis::streaming::client::{request_text, ResponseReader};
use praxis::streaming::header::find_header_end;
use praxis::streaming::url::parse_http_url;
use praxis::streaming::{check_samples, total_bytes};

#[test]
fn parse_http_url_with_port_and_path() {
    let (host, port, path) = parse_http_url("http://127.0.0.1:18094/").unwrap();
    assert_eq!(host, "127.0.0.1");
    assert_eq!(port, 18094);
    assert_eq!(path, "/");
}

#[test]
fn url_defaults() {
    let (host, port, path) = parse_http_url("http://example.test").unwrap();
    assert_eq!((host.as_str(), port, path.as_str()), ("example.test", 80, "/"));
    let (_, _, path) = parse_http_url("http://h:1/a/b?c").unwrap();
    assert_eq!(path, "/a/b?c");
}

#[test]
fn url_errors() {
    assert_eq!(
        parse_http_url("https://h/").unwrap_err().message(),
        "unsupported url: https://h/"
    );
    assert_eq!(
        parse_http_url("http://h:65536/").unwrap_err().message(),
        "bad port in url: http://h:65536/"
    );
    assert_eq!(
        parse_http_url("http://h:x").unwrap_err().message(),
        "bad port in url: http://h:x"
    );
}

#[test]
fn request_names_host_and_port() {
    assert_eq!(
        request_text("h", 8080, "/p"),
        "GET /p HTTP/1.1\r\nHost: h:8080\r\nConnection: close\r\n\r\n"
    );
}

#[test]
fn header_end_is_behind_the_blank_line() {
    assert_eq!(find_header_end(b"a\r\n\r\nbody\r\n\r\n"), Some(5));
    assert_eq!(find_header_end(b"a\r\n\r"), None);
    assert_eq!(find_header_end(b""), None);
}

#[test]
fn chunks_are_framed_in_hexadecimal() {
    assert_eq!(chunk_frame(3), b"3\r\nxxx\r\n");
    assert!(chunk_frame(26).starts_with(b"1a\r\nx"));
    assert_eq!(chunk_frame(26).len(), 4 + 26 + 2);
    assert_eq!(chunk_frame(0), b"0\r\n\r\n");
}

fn written(action: ServeAction) -> Vec<u8> {
    match action {
        ServeAction::Write(bytes) => bytes,
        _ => panic!("expected a write"),
    }
}

#[test]
fn connection_answers_in_paced_chunks() {
    let mut connection = PacedConnection::new(2, 5, 4);
    let step = connection.step(ServeEvent::Read(b"GET / HTTP/1.1\r\n".to_vec()));
    assert!(matches!(step, ServeAction::Read));
    let head = written(connection.step(ServeEvent::Read(b"\r\n".to_vec())));
    assert_eq!(
        String::from_utf8(head).unwrap(),
        "HTTP/1.1 200 OK\r\nTransfer-Encoding: chunked\r\nContent-Type: text/event-stream\r\nCache-Control: no-cache\r\nConnection: close\r\n\r\n"
    );
    for _ in 0..2 {
        assert!(matches!(connection.step(ServeEvent::Done), ServeAction::Sleep));
        assert_eq!(written(connection.step(ServeEvent::Done)), b"4\r\nxxxx\r\n");
    }
    assert_eq!(written(connection.step(ServeEvent::Done)), b"0\r\n\r\n");
    assert!(matches!(connection.step(ServeEvent::Done), ServeAction::Stop));
}

#[test]
fn connection_without_delay_does_not_pause() {
    let mut connection = PacedConnection::new(1, 0, 1);
    let _head = connection.step(ServeEvent::Read(b"\r\n\r\n".to_vec()));
    assert_eq!(written(connection.step(ServeEvent::Done)), b"1\r\nx\r\n");
}

#[test]
fn connection_is_dropped_on_trouble() {
    let mut closed = PacedConnection::new(1, 0, 1);
    assert!(matches!(closed.step(ServeEvent::Read(Vec::new())), ServeAction::Stop));
    let mut failed = PacedConnection::new(1, 0, 1);
    assert!(matches!(failed.step(ServeEvent::Failed), ServeAction::Stop));
    let mut long = PacedConnection::new(1, 0, 1);
    assert!(matches!(long.step(ServeEvent::Read(vec![b'a'; 65_536])), ServeAction::Read));
    assert!(matches!(long.step(ServeEvent::Read(vec![b'a'])), ServeAction::Stop));
}

#[test]
fn first_body_byte_is_noticed_once() {
    let mut reader = ResponseReader::new();
    assert!(!reader.receive(b"HTTP/1.1 200 OK\r\n"));
    assert!(!reader.receive(b"\r\n"));
    assert!(reader.receive(b"ab"));
    assert!(!reader.receive(b"c"));
    assert_eq!(reader.finish().unwrap(), 3);

    let mut at_once = ResponseReader::new();
    assert!(at_once.receive(b"HTTP/1.0 200 OK\r\n\r\nx"));
    assert_eq!(at_once.finish().unwrap(), 1);
}

#[test]
fn other_status_is_an_error() {
    let mut reader = ResponseReader::new();
    let _seen = reader.receive(b"HTTP/1.1 500 no\r\n\r\nx");
    assert_eq!(reader.finish().unwrap_err().message(), "non-200 response");
}

#[test]
fn at_least_one_sample_is_needed() {
    assert!(check_samples(1, 7).is_ok());
    assert_eq!(
        check_samples(0, 7).unwrap_err().message(),
        "no successful samples (errors=7)"
    );
}

#[test]
fn body_sizes_add_up() {
    assert_eq!(total_bytes(&vec![1, 2, 3]), Some(6));
    assert_eq!(total_bytes(&vec![]), Some(0));
    assert_eq!(total_bytes(&vec![u64::MAX, 1]), None);
}

#[test]
fn addresses_have_defaults() {
    let mut env = Environment::new();
    assert_eq!(istiod_address(&env), "https://istiod.istio-system.svc:15012");
    assert_eq!(admin_address(&env), "0.0.0.0:15021");
    assert!(!gateway_mode(&env));
    assert_eq!(config_choice(None, &env), None);
    env.set("ISTIOD_ADDR".into(), Ok("http://local:1".into()));
    env.set("PRAXIS_ADMIN_ADDR".into(), Ok("127.0.0.1:1".into()));
    env.set("GATEWAY_NAME".into(), Ok("gw".into()));
    env.set("PRAXIS_CONFIG".into(), Ok("env.yaml".into()));
    assert_eq!(istiod_address(&env), "http://local:1");
    assert_eq!(admin_address(&env), "127.0.0.1:1");
    assert!(gateway_mode(&env));
    assert_eq!(config_choice(None, &env).as_deref(), Some("env.yaml"));
    assert_eq!(config_choice(Some("cli.yaml".into()), &env).as_deref(), Some("cli.yaml"));
}

#[test]
fn preflight_is_alive_but_not_ready() {
    assert_eq!(extract_path(b"GET /ready HTTP/1.1\r\nHost: x\r\n"), "/ready");
    assert_eq!(extract_path(b"GET"), "/");
    assert_eq!(extract_path(b"\xff\xfe /x\n"), "/");
    let ready = String::from_utf8(preflight_response(b"GET /ready HTTP/1.1\r\n")).unwrap();
    assert!(ready.starts_with("HTTP/1.1 503 Service Unavailable\r\n"));
    assert!(ready.ends_with("Content-Length: 21\r\nConnection: close\r\n\r\n{\"status\":\"starting\"}"));
    let alive = String::from_utf8(preflight_response(b"GET /healthy HTTP/1.1\r\n")).unwrap();
    assert!(alive.starts_with("HTTP/1.1 200 OK\r\n"));
    assert!(alive.ends_with("Content-Length: 15\r\nConnection: close\r\n\r\n{\"status\":\"ok\"}"));
}
