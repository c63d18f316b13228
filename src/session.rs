use vstd::prelude::*;
use vstd::slice::slice_to_vec;
use vstd::utf8::{encode_utf8, valid_utf8};

use crate::error::WsError;
use crate::frame::{encode_message, message_frame};
use crate::handshake::{accept_of, client_key, handshake_text, lines_view, websocket_accept_bytes};

verus! {

/// Where a connection stands.
#[derive(Clone, Copy, Debug, PartialEq, Eq, Structural)]
pub enum SessionState {
    /// The upgrade request has not been answered yet.
    AwaitingHandshake,
    /// Messages are being exchanged.
    Established,
    /// The connection is to be released; nothing more is exchanged.
    Closed,
}

/// The message that ends a session.
pub open spec fn sentinel() -> Seq<u8> {
    encode_utf8("close"@)
}

/// The message sent back before a session ends.
pub open spec fn farewell() -> Seq<u8> {
    encode_utf8("Closing connection. Good bye ;>"@)
}

/// The reply to any other message: the message behind a fixed prefix.
pub open spec fn echo_of(m: Seq<u8>) -> Seq<u8> {
    encode_utf8("Echo: "@) + m
}

pub open spec fn reply_to(m: Seq<u8>) -> Seq<u8> {
    if m == sentinel() {
        farewell()
    } else {
        echo_of(m)
    }
}

/// Relies on `std::str::from_utf8`: it succeeds exactly on well-formed UTF-8.
#[verifier::external_body]
fn is_utf8(b: &[u8]) -> (r: bool)
    ensures
        r == valid_utf8(b@),
{
    std::str::from_utf8(b).is_ok()
}

/// Tests two byte strings for equality.
fn same_bytes(a: &[u8], b: &[u8]) -> (r: bool)
    ensures
        r == (a@ == b@),
{
    if a.len() != b.len() {
        return false;
    }
    let mut i: usize = 0;
    while i < a.len()
        invariant
            a@.len() == b@.len(),
            i <= a@.len(),
            forall|j: int| 0 <= j < i ==> a@[j] == b@[j],
        decreases a.len() - i,
    {
        if a[i] != b[i] {
            return false;
        }
        i = i + 1;
    }
    assert(a@ =~= b@);
    true
}

/// The rules of one connection: one handshake, then one reply per message
/// until the sentinel message arrives. The caller moves the bytes.
pub struct Session {
    state: SessionState,
}

impl View for Session {
    type V = SessionState;

    closed spec fn view(&self) -> SessionState {
        self.state
    }
}

impl Session {
    pub fn new() -> (s: Session)
        ensures
            s@ == SessionState::AwaitingHandshake,
    {
        Session { state: SessionState::AwaitingHandshake }
    }

    pub fn state(&self) -> (r: SessionState)
        ensures
            r == self@,
    {
        self.state
    }

    /// Answers the upgrade request, given as its header lines. Without a
    /// client key it fails with `MissingHeader`, gives nothing to send, and
    /// the session is closed.
    pub fn handshake(&mut self, request: Vec<String>) -> (r: Result<Vec<u8>, WsError>)
        requires
            old(self)@ == SessionState::AwaitingHandshake,
        ensures
            match client_key(lines_view(request@)) {
                None => r == Err::<Vec<u8>, WsError>(WsError::MissingHeader) && final(self)@
                    == SessionState::Closed,
                Some(k) => r matches Ok(v) && v@ == encode_utf8(handshake_text(accept_of(k)))
                    && final(self)@ == SessionState::Established,
            },
    {
        let r = websocket_accept_bytes(request);
        self.state = if r.is_ok() {
            SessionState::Established
        } else {
            SessionState::Closed
        };
        r
    }

    /// The frame to send back for a received message: the farewell for the
    /// sentinel, which closes the session, else the echo. A message that is
    /// not UTF-8 text fails with `EncodingViolation` and closes the session.
    pub fn respond(&mut self, message: &[u8]) -> (r: Result<Vec<u8>, WsError>)
        requires
            old(self)@ == SessionState::Established,
        ensures
            !valid_utf8(message@) ==> r == Err::<Vec<u8>, WsError>(WsError::EncodingViolation)
                && final(self)@ == SessionState::Closed,
            valid_utf8(message@) ==> (r matches Ok(v) && v@ == message_frame(reply_to(message@))),
            valid_utf8(message@) ==> final(self)@ == if message@ == sentinel() {
                SessionState::Closed
            } else {
                SessionState::Established
            },
    {
        if !is_utf8(message) {
            self.state = SessionState::Closed;
            return Err(WsError::EncodingViolation);
        }
        if same_bytes(message, "close".as_bytes()) {
            self.state = SessionState::Closed;
            return Ok(encode_message("Closing connection. Good bye ;>".as_bytes()));
        }
        let mut reply = slice_to_vec("Echo: ".as_bytes());
        reply.extend_from_slice(message);
        assert(reply@ =~= echo_of(message@));
        Ok(encode_message(reply.as_slice()))
    }
}

} // verus!
