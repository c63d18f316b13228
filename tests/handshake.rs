use wsframe::error::WsError;
use wsframe::handshake::{find_client_key, generate_response_accept_header, websocket_accept_bytes};
use wsframe::session::{Session, SessionState};
use wsframe::frame::{decode_message, encode_message};

fn request(lines: &[&str]) -> Vec<String> {
    lines.iter().map(|l| l.to_string()).collect()
}

#[test]
fn accept_token_of_known_key() {
    assert_eq!(
        generate_response_accept_header("dGhlIHNhbXBsZSBub25jZQ=="),
        "s3pPLMBiTxaQ9kYGzzhZRbK+xOo="
    );
}

#[test]
fn accept_token_differs_per_key() {
    let a = generate_response_accept_header("a");
    assert_eq!(a.len(), 28);
    assert!(a.ends_with('='));
    assert_ne!(a, generate_response_accept_header("b"));
}

#[test]
fn handshake_response_bytes() {
    let req = request(&[
        "GET /chat HTTP/1.1",
        "Host: server.example.com",
        "Upgrade: websocket",
        "Connection: Upgrade",
        "Sec-WebSocket-Key:   dGhlIHNhbXBsZSBub25jZQ==  ",
        "Sec-WebSocket-Version: 13",
    ]);
    let r = websocket_accept_bytes(req).unwrap();
    let expected = "HTTP/1.1 101 Switching Protocols\r\n\
                    Upgrade: websocket\r\n\
                    Connection: Upgrade\r\n\
                    Sec-WebSocket-Accept: s3pPLMBiTxaQ9kYGzzhZRbK+xOo=\r\n\
                    \r\n";
    assert_eq!(String::from_utf8(r).unwrap(), expected);
}

#[test]
fn first_key_line_is_used_and_trimmed() {
    let req = request(&["Host: x", "Sec-WebSocket-Key: \tfirst ", "Sec-WebSocket-Key: second"]);
    assert_eq!(find_client_key(&req), Some("first".to_string()));
}

#[test]
fn key_stops_at_next_colon() {
    let req = request(&["Sec-WebSocket-Key: abc:def"]);
    assert_eq!(find_client_key(&req), Some("abc".to_string()));
}

#[test]
fn missing_key_fails() {
    let req = request(&["GET / HTTP/1.1", "Host: x", "sec-websocket-key: lower"]);
    assert_eq!(find_client_key(&req), None);
    assert_eq!(websocket_accept_bytes(req).err(), Some(WsError::MissingHeader));
    assert_eq!(websocket_accept_bytes(Vec::new()).err(), Some(WsError::MissingHeader));
}

#[test]
fn session_missing_key_closes_without_output() {
    let mut s = Session::new();
    assert_eq!(s.state(), SessionState::AwaitingHandshake);
    assert_eq!(s.handshake(request(&["Host: x"])).err(), Some(WsError::MissingHeader));
    assert_eq!(s.state(), SessionState::Closed);
}

fn established() -> Session {
    let mut s = Session::new();
    s.handshake(request(&["Sec-WebSocket-Key: dGhlIHNhbXBsZSBub25jZQ=="])).unwrap();
    assert_eq!(s.state(), SessionState::Established);
    s
}

#[test]
fn session_echoes_text() {
    let mut s = established();
    let reply = s.respond(b"hello").unwrap();
    assert_eq!(reply, encode_message(b"Echo: hello"));
    assert_eq!(decode_message(&reply).unwrap().payload, b"Echo: hello".to_vec());
    assert_eq!(s.state(), SessionState::Established);
    let reply = s.respond(b"closed").unwrap();
    assert_eq!(decode_message(&reply).unwrap().payload, b"Echo: closed".to_vec());
    assert_eq!(s.state(), SessionState::Established);
}

#[test]
fn session_closes_on_sentinel() {
    let mut s = established();
    let reply = s.respond(b"close").unwrap();
    assert_eq!(
        decode_message(&reply).unwrap().payload,
        b"Closing connection. Good bye ;>".to_vec()
    );
    assert_eq!(s.state(), SessionState::Closed);
}

#[test]
fn session_rejects_invalid_utf8() {
    let mut s = established();
    assert_eq!(s.respond(&[0x66, 0xff, 0x66]).err(), Some(WsError::EncodingViolation));
    assert_eq!(s.state(), SessionState::Closed);
}
