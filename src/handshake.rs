use vstd::prelude::*;
use vstd::slice::{slice_subrange, slice_to_vec};
use vstd::utf8::encode_utf8;

use base64ct::{Base64, Encoding};
use sha1::{Digest, Sha1};

use crate::error::WsError;

verus! {

/// The header name, with its colon, that carries the client's key.
pub open spec fn key_header() -> Seq<char> {
    "Sec-WebSocket-Key:"@
}

/// The fixed string appended to the client's key before hashing.
pub open spec fn guid() -> Seq<char> {
    "258EAFA5-E914-47DA-95CA-C5AB0DC85B11"@
}

/// The standard Base64 alphabet.
pub open spec fn b64_alphabet() -> Seq<char> {
    "ABCDEFGHIJKLMNOPQRSTUVWXYZabcdefghijklmnopqrstuvwxyz0123456789+/"@
}

pub open spec fn b64(v: int) -> char {
    b64_alphabet()[v]
}

/// Standard Base64 with padding: each group of three bytes gives four
/// characters of six bits each; a last group of one or two bytes is padded
/// with `=` to four characters.
pub open spec fn base64_spec(b: Seq<u8>) -> Seq<char>
    decreases b.len(),
{
    let b0 = b[0] as int;
    let b1 = b[1] as int;
    let b2 = b[2] as int;
    if b.len() == 0 {
        Seq::empty()
    } else if b.len() == 1 {
        seq![b64(b0 / 4), b64((b0 % 4) * 16), '=', '=']
    } else if b.len() == 2 {
        seq![b64(b0 / 4), b64((b0 % 4) * 16 + b1 / 16), b64((b1 % 16) * 4), '=']
    } else {
        seq![
            b64(b0 / 4),
            b64((b0 % 4) * 16 + b1 / 16),
            b64((b1 % 16) * 4 + b2 / 64),
            b64(b2 % 64),
        ] + base64_spec(b.subrange(3, b.len() as int))
    }
}

/// The SHA-1 digest of `data`.
pub uninterp spec fn sha1_of(data: Seq<u8>) -> Seq<u8>;

/// `s` without its leading and trailing whitespace.
pub uninterp spec fn trim_of(s: Seq<char>) -> Seq<char>;

/// Relies on sha1's `Digest::digest` for `Sha1`: the digest of `data`, whose
/// output size is 20 bytes.
#[verifier::external_body]
fn sha1_digest(data: &[u8]) -> (r: Vec<u8>)
    ensures
        r@ == sha1_of(data@),
        r@.len() == 20,
{
    Sha1::digest(data).to_vec()
}

/// Relies on base64ct's `Base64::encode_string`: standard alphabet, padded.
/// It panics where four times the input length overflows `usize`.
#[verifier::external_body]
fn base64_encode(data: &[u8]) -> (r: String)
    requires
        data@.len() <= usize::MAX / 4,
    ensures
        r@ == base64_spec(data@),
{
    Base64::encode_string(data)
}

/// Relies on `str::trim`: the string without leading and trailing whitespace.
#[verifier::external_body]
fn trim_string(s: &str) -> (r: String)
    ensures
        r@ == trim_of(s@),
{
    s.trim().to_string()
}

/// Relies on `str::chars`: the characters of `s` in order.
#[verifier::external_body]
fn chars_of(s: &str) -> (r: Vec<char>)
    ensures
        r@ == s@,
{
    s.chars().collect()
}

/// Relies on `String`'s `FromIterator<&char>`: the string of these characters.
#[verifier::external_body]
fn string_of(c: &[char]) -> (r: String)
    ensures
        r@ == c@,
{
    c.iter().collect()
}

/// The acceptance token for a client key: Base64 of the SHA-1 digest of the
/// UTF-8 bytes of the key followed by the fixed GUID.
pub open spec fn accept_of(key: Seq<char>) -> Seq<char> {
    base64_spec(sha1_of(encode_utf8(key + guid())))
}

/// Computes the acceptance token for `client_websocket_key`.
pub fn generate_response_accept_header(client_websocket_key: &str) -> (r: String)
    ensures
        r@ == accept_of(client_websocket_key@),
{
    let mut joined = String::from_str(client_websocket_key);
    joined.append("258EAFA5-E914-47DA-95CA-C5AB0DC85B11");
    proof {
        reveal_strlit("258EAFA5-E914-47DA-95CA-C5AB0DC85B11");
    }
    let digest = sha1_digest(joined.as_str().as_bytes());
    base64_encode(digest.as_slice())
}

/// The line starts with the key header's name and colon.
pub open spec fn is_key_line(l: Seq<char>) -> bool {
    l.len() >= key_header().len() && l.subrange(0, key_header().len() as int) == key_header()
}

/// The index of the first colon of `l` at or after `i`, or the length of `l`.
pub open spec fn colon_from(l: Seq<char>, i: int) -> int
    decreases l.len() - i,
{
    if i >= l.len() {
        i
    } else if l[i] == ':' {
        i
    } else {
        colon_from(l, i + 1)
    }
}

/// The second colon-separated segment of a key line, untrimmed.
pub open spec fn key_segment(l: Seq<char>) -> Seq<char> {
    l.subrange(key_header().len() as int, colon_from(l, key_header().len() as int))
}

/// The trimmed key of the first key line among `lines`, if any.
pub open spec fn client_key(lines: Seq<Seq<char>>) -> Option<Seq<char>>
    decreases lines.len(),
{
    if lines.len() == 0 {
        None
    } else if is_key_line(lines[0]) {
        Some(trim_of(key_segment(lines[0])))
    } else {
        client_key(lines.drop_first())
    }
}

pub open spec fn lines_view(lines: Seq<String>) -> Seq<Seq<char>> {
    lines.map_values(|s: String| s@)
}

/// Tests whether `line` starts with `prefix`.
fn has_prefix(line: &Vec<char>, prefix: &Vec<char>) -> (r: bool)
    ensures
        r == (line@.len() >= prefix@.len() && line@.subrange(0, prefix@.len() as int) == prefix@),
{
    if line.len() < prefix.len() {
        return false;
    }
    let mut i: usize = 0;
    while i < prefix.len()
        invariant
            prefix.len() <= line.len(),
            i <= prefix.len(),
            forall|j: int| 0 <= j < i ==> line@[j] == prefix@[j],
        decreases prefix.len() - i,
    {
        if line[i] != prefix[i] {
            assert(line@.subrange(0, prefix@.len() as int)[i as int] != prefix@[i as int]);
            return false;
        }
        i = i + 1;
    }
    assert(line@.subrange(0, prefix@.len() as int) =~= prefix@);
    true
}

/// The index of the first colon of `line` at or after `from`, or its length.
fn find_colon(line: &Vec<char>, from: usize) -> (r: usize)
    requires
        from <= line@.len(),
    ensures
        from <= r <= line@.len(),
        r == colon_from(line@, from as int),
{
    let mut i: usize = from;
    while i < line.len() && line[i] != ':'
        invariant
            from <= i <= line.len(),
            colon_from(line@, from as int) == colon_from(line@, i as int),
        decreases line.len() - i,
    {
        i = i + 1;
    }
    i
}

/// The trimmed key of the first `Sec-WebSocket-Key` line of `request`.
pub fn find_client_key(request: &Vec<String>) -> (r: Option<String>)
    ensures
        match client_key(lines_view(request@)) {
            None => r is None,
            Some(k) => r matches Some(s) && s@ == k,
        },
{
    let prefix = chars_of("Sec-WebSocket-Key:");
    proof {
        reveal_strlit("Sec-WebSocket-Key:");
    }
    let ghost all = lines_view(request@);
    assert(all.subrange(0, all.len() as int) =~= all);
    let mut i: usize = 0;
    while i < request.len()
        invariant
            i <= request@.len(),
            prefix@ == key_header(),
            all == lines_view(request@),
            client_key(all) == client_key(all.subrange(i as int, all.len() as int)),
        decreases request.len() - i,
    {
        let ghost rest = all.subrange(i as int, all.len() as int);
        let line = chars_of(request[i].as_str());
        assert(rest[0] == line@);
        if has_prefix(&line, &prefix) {
            let end = find_colon(&line, prefix.len());
            let segment = string_of(slice_subrange(line.as_slice(), prefix.len(), end));
            return Some(trim_string(segment.as_str()));
        }
        assert(rest.drop_first() =~= all.subrange(i + 1, all.len() as int));
        i = i + 1;
    }
    None
}

/// The upgrade response for an acceptance token.
pub open spec fn handshake_text(accept: Seq<char>) -> Seq<char> {
    "HTTP/1.1 101 Switching Protocols\r\n"@ + "Upgrade: websocket\r\n"@ + "Connection: Upgrade\r\n"@
        + "Sec-WebSocket-Accept: "@ + accept + "\r\n\r\n"@
}

/// Builds the upgrade response for the handshake request `request`, given
/// as its header lines; fails with `MissingHeader` when no line carries the
/// client's key.
pub fn websocket_accept_bytes(request: Vec<String>) -> (r: Result<Vec<u8>, WsError>)
    ensures
        match client_key(lines_view(request@)) {
            None => r == Err::<Vec<u8>, WsError>(WsError::MissingHeader),
            Some(k) => r matches Ok(v) && v@ == encode_utf8(handshake_text(accept_of(k))),
        },
{
    let key = match find_client_key(&request) {
        Some(k) => k,
        None => {
            return Err(WsError::MissingHeader);
        },
    };
    let accept = generate_response_accept_header(key.as_str());
    let mut text = String::from_str("HTTP/1.1 101 Switching Protocols\r\n");
    text.append("Upgrade: websocket\r\n");
    text.append("Connection: Upgrade\r\n");
    text.append("Sec-WebSocket-Accept: ");
    text.append(accept.as_str());
    text.append("\r\n\r\n");
    proof {
        reveal_strlit("HTTP/1.1 101 Switching Protocols\r\n");
        reveal_strlit("Upgrade: websocket\r\n");
        reveal_strlit("Connection: Upgrade\r\n");
        reveal_strlit("Sec-WebSocket-Accept: ");
        reveal_strlit("\r\n\r\n");
        assert(text@ =~= handshake_text(accept_of(key@)));
    }
    Ok(slice_to_vec(text.as_str().as_bytes()))
}

} // verus!
