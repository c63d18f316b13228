use vstd::prelude::*;

use crate::error::WsError;

verus! {

/// `256` raised to `k`.
pub open spec fn pow256(k: nat) -> nat
    decreases k,
{
    if k == 0 {
        1
    } else {
        256 * pow256((k - 1) as nat)
    }
}

/// The unsigned integer that `s` writes in network byte order.
pub open spec fn be_value(s: Seq<u8>) -> nat
    decreases s.len(),
{
    if s.len() == 0 {
        0
    } else {
        (be_value(s.drop_last()) * 256 + s.last()) as nat
    }
}

/// The `k` bytes that write `n` (modulo `256^k`) in network byte order.
pub open spec fn be_bytes(n: nat, k: nat) -> Seq<u8>
    decreases k,
{
    if k == 0 {
        Seq::empty()
    } else {
        be_bytes(n / 256, (k - 1) as nat).push((n % 256) as u8)
    }
}

pub proof fn lemma_pow256_monotonic(i: nat, j: nat)
    requires
        i <= j,
    ensures
        1 <= pow256(i) <= pow256(j),
    decreases j,
{
    if j > 0 {
        if i < j {
            lemma_pow256_monotonic(i, (j - 1) as nat);
        } else {
            lemma_pow256_monotonic((j - 1) as nat, (j - 1) as nat);
        }
    }
}

pub proof fn lemma_be_value_bound(s: Seq<u8>)
    ensures
        be_value(s) < pow256(s.len()),
    decreases s.len(),
{
    if s.len() > 0 {
        lemma_be_value_bound(s.drop_last());
        let v = be_value(s.drop_last());
        let p = pow256((s.len() - 1) as nat);
        assert(v * 256 + s.last() < 256 * p) by (nonlinear_arith)
            requires
                v < p,
                s.last() < 256,
        ;
    }
}

/// Reading back the bytes that write `n` gives `n`, when `n` fits in them.
pub proof fn lemma_be_round_trip(n: nat, k: nat)
    requires
        n < pow256(k),
    ensures
        be_bytes(n, k).len() == k,
        be_value(be_bytes(n, k)) == n,
    decreases k,
{
    if k > 0 {
        let p = pow256((k - 1) as nat);
        assert(n / 256 < p) by (nonlinear_arith)
            requires
                n < 256 * p,
        ;
        lemma_be_round_trip(n / 256, (k - 1) as nat);
        let s = be_bytes(n, k);
        assert(s.drop_last() =~= be_bytes(n / 256, (k - 1) as nat));
        assert((n / 256) * 256 + n % 256 == n) by (nonlinear_arith);
    }
}

pub proof fn lemma_pow256_seven()
    ensures
        pow256(7) * 256 == 0x1_0000_0000_0000_0000,
{
    reveal_with_fuel(pow256, 8);
}

/// Reads the `n` bytes of `bytes` from `at` as an integer in network byte order.
fn read_be(bytes: &[u8], at: usize, n: usize) -> (r: u64)
    requires
        n <= 8,
        at + n <= bytes@.len(),
    ensures
        r == be_value(bytes@.subrange(at as int, at + n)),
{
    let mut v: u64 = 0;
    let mut i: usize = 0;
    while i < n
        invariant
            i <= n <= 8,
            at + n <= bytes.len(),
            v == be_value(bytes@.subrange(at as int, at + i)),
        decreases n - i,
    {
        proof {
            let s = bytes@.subrange(at as int, at + i + 1);
            assert(s.drop_last() =~= bytes@.subrange(at as int, at + i));
            lemma_be_value_bound(bytes@.subrange(at as int, at + i));
            lemma_pow256_monotonic(i as nat, 7);
            lemma_pow256_seven();
            assert(v * 256 + bytes[at + i as int] < 0x1_0000_0000_0000_0000) by (nonlinear_arith)
                requires
                    v < pow256(i as nat),
                    pow256(i as nat) <= pow256(7),
                    pow256(7) * 256 == 0x1_0000_0000_0000_0000,
                    bytes[at + i as int] < 256,
            ;
        }
        let b = bytes[at + i] as u64;
        v = v * 256 + b;
        i = i + 1;
    }
    v
}

/// Appends to `out` the `k` bytes that write `n` in network byte order.
fn push_be(out: &mut Vec<u8>, n: u64, k: usize)
    ensures
        final(out)@ == old(out)@ + be_bytes(n as nat, k as nat),
    decreases k,
{
    if k > 0 {
        push_be(out, n / 256, k - 1);
        out.push((n % 256) as u8);
        assert(final(out)@ =~= old(out)@ + be_bytes(n as nat, k as nat));
    }
}

/// Opcode of a frame that carries text.
pub const TEXT_OPCODE: u8 = 1;

/// `p` with each byte XOR-ed with the key byte at its index modulo 4.
pub open spec fn xor_mask(p: Seq<u8>, k: Seq<u8>) -> Seq<u8> {
    Seq::new(p.len(), |i: int| p[i] ^ k[i % 4])
}

/// The length field for a payload of `n` bytes: one byte below 126, the
/// marker 126 and two bytes up to 65535, else the marker 127 and eight bytes.
pub open spec fn length_field(n: nat) -> Seq<u8> {
    if n < 126 {
        seq![n as u8]
    } else if n <= 65535 {
        seq![126u8] + be_bytes(n, 2)
    } else {
        seq![127u8] + be_bytes(n, 8)
    }
}

/// First header byte: the fin bit, three clear reserved bits and the opcode.
pub open spec fn first_byte(fin: bool, opcode: u8) -> u8 {
    ((if fin {
        128int
    } else {
        0int
    }) + opcode % 16) as u8
}

/// The wire bytes of one frame; with a key, the mask bit is set, the key
/// follows the length field and the payload is sent masked with it.
pub open spec fn frame_bytes(fin: bool, opcode: u8, key: Option<Seq<u8>>, payload: Seq<u8>) -> Seq<u8> {
    let lf = length_field(payload.len());
    match key {
        None => seq![first_byte(fin, opcode)] + lf + payload,
        Some(k) => seq![first_byte(fin, opcode)] + lf.update(0, (lf[0] + 128) as u8) + k + xor_mask(payload, k),
    }
}

pub open spec fn key_view(key: Option<[u8; 4]>) -> Option<Seq<u8>> {
    match key {
        Some(k) => Some(k@),
        None => None,
    }
}

/// Appends `data[start..end]`, masked with the four key bytes at `kat`.
fn append_masked(out: &mut Vec<u8>, data: &[u8], start: usize, end: usize, key: &[u8], kat: usize)
    requires
        start <= end <= data@.len(),
        kat + 4 <= key@.len(),
    ensures
        final(out)@ == old(out)@ + xor_mask(
            data@.subrange(start as int, end as int),
            key@.subrange(kat as int, kat + 4),
        ),
{
    let ghost raw = data@.subrange(start as int, end as int);
    let ghost k = key@.subrange(kat as int, kat + 4);
    let mut i: usize = start;
    while i < end
        invariant
            start <= i <= end <= data.len(),
            kat + 4 <= key.len(),
            raw == data@.subrange(start as int, end as int),
            k == key@.subrange(kat as int, kat + 4),
            out@ == old(out)@ + xor_mask(data@.subrange(start as int, i as int), k),
        decreases end - i,
    {
        let b = data[i] ^ key[kat + (i - start) % 4];
        proof {
            assert(xor_mask(data@.subrange(start as int, i + 1), k) =~= xor_mask(
                data@.subrange(start as int, i as int),
                k,
            ).push(b));
        }
        out.push(b);
        i = i + 1;
        proof {
            assert(out@ =~= old(out)@ + xor_mask(data@.subrange(start as int, i as int), k));
        }
    }
}

/// `data` masked with `key`; masking twice with one key gives `data` back.
pub fn apply_mask(data: &[u8], key: &[u8; 4]) -> (r: Vec<u8>)
    ensures
        r@ == xor_mask(data@, key@),
{
    let mut out: Vec<u8> = Vec::new();
    append_masked(&mut out, data, 0, data.len(), key, 0);
    proof {
        assert(data@.subrange(0, data@.len() as int) =~= data@);
        assert(key@.subrange(0, 4) =~= key@);
        assert(out@ =~= xor_mask(data@, key@));
    }
    out
}

/// Serialises one frame. The server sends its messages with
/// `encode_message`; other frames serve clients and tests.
pub fn encode_frame(fin: bool, opcode: u8, key: Option<[u8; 4]>, payload: &[u8]) -> (r: Vec<u8>)
    requires
        opcode < 16,
    ensures
        r@ == frame_bytes(fin, opcode, key_view(key), payload@),
{
    let n: usize = payload.len();
    let mut out: Vec<u8> = Vec::new();
    let b0: u8 = if fin {
        128 + opcode
    } else {
        opcode
    };
    out.push(b0);
    let mbit: u8 = if key.is_some() {
        128
    } else {
        0
    };
    if n < 126 {
        out.push(n as u8 + mbit);
    } else if n <= 65535 {
        out.push(126 + mbit);
        push_be(&mut out, n as u64, 2);
    } else {
        out.push(127 + mbit);
        push_be(&mut out, n as u64, 8);
    }
    let ghost head = out@;
    let ghost lf = length_field(n as nat);
    proof {
        assert(head =~= seq![first_byte(fin, opcode)] + (if key.is_some() {
            lf.update(0, (lf[0] + 128) as u8)
        } else {
            lf
        }));
    }
    match key {
        None => {
            out.extend_from_slice(payload);
        },
        Some(k) => {
            out.extend_from_slice(&k);
            append_masked(&mut out, payload, 0, n, &k, 0);
            proof {
                assert(payload@.subrange(0, n as int) =~= payload@);
                assert(k@.subrange(0, 4) =~= k@);
            }
        },
    }
    assert(out@ =~= frame_bytes(fin, opcode, key_view(key), payload@));
    out
}

/// The frame that carries `message` from the server: final, text, unmasked.
pub open spec fn message_frame(message: Seq<u8>) -> Seq<u8> {
    frame_bytes(true, TEXT_OPCODE, None, message)
}

/// Serialises `message` as one final, unmasked text frame.
pub fn encode_message(message: &[u8]) -> (r: Vec<u8>)
    ensures
        r@ == message_frame(message@),
{
    encode_frame(true, TEXT_OPCODE, None, message)
}

/// The 7-bit length of the frame that starts `t`.
pub open spec fn len7(t: Seq<u8>) -> int {
    (t[1] as int) % 128
}

/// How many bytes of extended length follow the first two header bytes.
pub open spec fn ext_len(t: Seq<u8>) -> int {
    if len7(t) < 126 {
        0
    } else if len7(t) == 126 {
        2
    } else {
        8
    }
}

pub open spec fn is_masked(t: Seq<u8>) -> bool {
    t[1] >= 128
}

pub open spec fn is_final(t: Seq<u8>) -> bool {
    t[0] >= 128
}

pub open spec fn opcode_of(t: Seq<u8>) -> u8 {
    t[0] % 16
}

/// Header size: two bytes, the extended length and the masking key.
pub open spec fn head_len(t: Seq<u8>) -> int {
    2 + ext_len(t) + if is_masked(t) {
        4int
    } else {
        0int
    }
}

/// Payload size, read in exactly the form that the 7-bit length selects.
pub open spec fn payload_len(t: Seq<u8>) -> int {
    if len7(t) < 126 {
        len7(t)
    } else {
        be_value(t.subrange(2, 2 + ext_len(t))) as int
    }
}

pub open spec fn frame_len(t: Seq<u8>) -> int {
    head_len(t) + payload_len(t)
}

/// `t` holds the whole frame that it starts with.
pub open spec fn is_complete_frame(t: Seq<u8>) -> bool {
    t.len() >= 2 && head_len(t) <= t.len() && frame_len(t) <= t.len()
}

/// The payload of the frame that starts `t`, unmasked when its mask bit is set.
pub open spec fn frame_payload(t: Seq<u8>) -> Seq<u8> {
    let raw = t.subrange(head_len(t), frame_len(t));
    if is_masked(t) {
        xor_mask(raw, t.subrange(2 + ext_len(t), head_len(t)))
    } else {
        raw
    }
}

/// A decoding result with `prefix` put before its message and `skip` added
/// to the bytes it consumed.
pub open spec fn after(prefix: Seq<u8>, skip: int, r: Result<(Seq<u8>, int), WsError>) -> Result<
    (Seq<u8>, int),
    WsError,
> {
    match r {
        Ok((m, n)) => Ok((prefix + m, skip + n)),
        Err(e) => Err(e),
    }
}

/// The message that the frames at the start of `t` carry, and how many bytes
/// they take: payloads are joined up to and including the first final frame.
pub open spec fn decode_spec(t: Seq<u8>) -> Result<(Seq<u8>, int), WsError>
    decreases t.len(),
{
    if !is_complete_frame(t) {
        Err(WsError::StreamTruncated)
    } else if is_final(t) {
        Ok((frame_payload(t), frame_len(t)))
    } else {
        after(frame_payload(t), frame_len(t), decode_spec(t.subrange(frame_len(t), t.len() as int)))
    }
}

/// One message read off the wire.
pub struct Decoded {
    /// The joined, unmasked payloads.
    pub payload: Vec<u8>,
    /// The opcode of the message's first frame.
    pub opcode: u8,
    /// How many input bytes the message's frames took.
    pub consumed: usize,
}

proof fn lemma_after_after(a: Seq<u8>, i: int, b: Seq<u8>, j: int, r: Result<(Seq<u8>, int), WsError>)
    ensures
        after(a, i, after(b, j, r)) == after(a + b, i + j, r),
{
    match r {
        Ok((m, n)) => {
            assert(a + (b + m) =~= (a + b) + m);
        },
        Err(e) => {},
    }
}

/// Reads the frame that starts at `pos` and appends its unmasked payload to
/// `msg`; returns its fin bit and the index just past it.
fn read_frame(bytes: &[u8], pos: usize, msg: &mut Vec<u8>) -> (r: Result<(bool, usize), WsError>)
    requires
        pos <= bytes@.len(),
    ensures
        ({
            let t = bytes@.subrange(pos as int, bytes@.len() as int);
            match r {
                Ok((fin, end)) => is_complete_frame(t) && fin == is_final(t) && end == pos
                    + frame_len(t) && final(msg)@ == old(msg)@ + frame_payload(t),
                Err(e) => !is_complete_frame(t) && e == WsError::StreamTruncated,
            }
        }),
{
    let len = bytes.len();
    let ghost t = bytes@.subrange(pos as int, len as int);
    let rem = len - pos;
    if rem < 2 {
        return Err(WsError::StreamTruncated);
    }
    let b0 = bytes[pos];
    let b1 = bytes[pos + 1];
    let fin = b0 >= 128;
    let masked = b1 >= 128;
    let l7 = b1 % 128;
    let ext: usize = if l7 < 126 {
        0
    } else if l7 == 126 {
        2
    } else {
        8
    };
    let klen: usize = if masked {
        4
    } else {
        0
    };
    assert(t[0] == b0 && t[1] == b1);
    let head = 2 + ext + klen;
    if rem < head {
        return Err(WsError::StreamTruncated);
    }
    let plen: u64 = if l7 < 126 {
        l7 as u64
    } else {
        assert(t.subrange(2, 2 + ext) =~= bytes@.subrange(pos + 2, pos + 2 + ext));
        read_be(bytes, pos + 2, ext)
    };
    assert(plen == payload_len(t));
    let avail: u64 = (rem - head) as u64;
    if avail < plen {
        return Err(WsError::StreamTruncated);
    }
    let start = pos + head;
    let end = start + plen as usize;
    assert(is_complete_frame(t));
    if masked {
        append_masked(msg, bytes, start, end, bytes, pos + 2 + ext);
        assert(t.subrange(head_len(t), frame_len(t)) =~= bytes@.subrange(start as int, end as int));
        assert(t.subrange(2 + ext_len(t), head_len(t)) =~= bytes@.subrange(
            pos + 2 + ext,
            pos + 2 + ext + 4,
        ));
    } else {
        let mut i: usize = start;
        while i < end
            invariant
                start <= i <= end <= bytes.len(),
                msg@ == old(msg)@ + bytes@.subrange(start as int, i as int),
            decreases end - i,
        {
            msg.push(bytes[i]);
            i = i + 1;
            assert(msg@ =~= old(msg)@ + bytes@.subrange(start as int, i as int));
        }
        assert(t.subrange(head_len(t), frame_len(t)) =~= bytes@.subrange(start as int, end as int));
    }
    Ok((fin, end))
}

/// Decodes the message that the frames at the start of `bytes` carry.
/// Fails with `StreamTruncated` when the bytes end before its last frame does.
pub fn decode_message(bytes: &[u8]) -> (r: Result<Decoded, WsError>)
    ensures
        match decode_spec(bytes@) {
            Ok((m, n)) => r matches Ok(d) && d.payload@ == m && d.consumed == n && d.opcode
                == opcode_of(bytes@),
            Err(e) => r == Err::<Decoded, WsError>(e),
        },
{
    let len = bytes.len();
    let mut msg: Vec<u8> = Vec::new();
    let mut pos: usize = 0;
    proof {
        assert(bytes@.subrange(0, len as int) =~= bytes@);
        match decode_spec(bytes@) {
            Ok((m, n)) => {
                assert(msg@ + m =~= m);
            },
            Err(e) => {},
        }
    }
    loop
        invariant
            len == bytes.len(),
            pos <= len,
            pos > 0 ==> len > 0,
            decode_spec(bytes@) == after(msg@, pos as int, decode_spec(bytes@.subrange(pos as int, len as int))),
        decreases len - pos,
    {
        let ghost t = bytes@.subrange(pos as int, len as int);
        let ghost before = msg@;
        match read_frame(bytes, pos, &mut msg) {
            Err(e) => {
                return Err(e);
            },
            Ok((fin, end)) => {
                if fin {
                    let opcode = bytes[0] % 16;
                    return Ok(Decoded { payload: msg, opcode, consumed: end });
                }
                proof {
                    assert(t.subrange(frame_len(t), t.len() as int) =~= bytes@.subrange(end as int, len as int));
                    lemma_after_after(before, pos as int, frame_payload(t), frame_len(t), decode_spec(bytes@.subrange(end as int, len as int)));
                }
                pos = end;
            },
        }
    }
}

} // verus!
