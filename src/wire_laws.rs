use vstd::prelude::*;

use crate::error::WsError;
use crate::frame::{
    be_bytes, decode_spec, first_byte, frame_bytes, frame_len, frame_payload, is_complete_frame,
    is_final, len7, length_field, lemma_be_round_trip, message_frame, opcode_of, pow256, xor_mask,
    TEXT_OPCODE,
};

verus! {

/// XOR with the same byte twice gives the byte back.
proof fn lemma_xor_twice(a: u8, b: u8)
    ensures
        (a ^ b) ^ b == a,
{
    assert((a ^ b) ^ b == a) by (bit_vector);
}

/// Unmasking a masked payload with the same key gives the payload back.
pub proof fn lemma_unmask_mask(p: Seq<u8>, k: Seq<u8>)
    requires
        k.len() == 4,
    ensures
        xor_mask(xor_mask(p, k), k) == p,
{
    assert forall|i: int| 0 <= i < p.len() implies #[trigger] xor_mask(xor_mask(p, k), k)[i] == p[i] by {
        lemma_xor_twice(p[i], k[i % 4]);
    }
    assert(xor_mask(xor_mask(p, k), k) =~= p);
}

pub proof fn lemma_pow256_small()
    ensures
        pow256(2) == 65536,
        pow256(8) == 0x1_0000_0000_0000_0000,
{
    reveal_with_fuel(pow256, 9);
}

/// The frame that `frame_bytes` writes, followed by any bytes, is read back as
/// written: its fin bit, opcode, size and payload, with the masking undone.
pub proof fn lemma_read_written_frame(
    fin: bool,
    opcode: u8,
    key: Option<Seq<u8>>,
    p: Seq<u8>,
    rest: Seq<u8>,
)
    requires
        opcode < 16,
        p.len() < pow256(8),
        key matches Some(k) ==> k.len() == 4,
    ensures
        ({
            let f = frame_bytes(fin, opcode, key, p);
            let t = f + rest;
            &&& is_complete_frame(t)
            &&& is_final(t) == fin
            &&& opcode_of(t) == opcode
            &&& frame_len(t) == f.len()
            &&& frame_payload(t) == p
            &&& t.subrange(f.len() as int, t.len() as int) == rest
        }),
{
    let f = frame_bytes(fin, opcode, key, p);
    let t = f + rest;
    let n = p.len();
    let lf = length_field(n);
    lemma_pow256_small();
    let ext: int = if n < 126 {
        0
    } else if n <= 65535 {
        2
    } else {
        8
    };
    if n >= 126 {
        lemma_be_round_trip(n, ext as nat);
        assert(t.subrange(2, 2 + ext) =~= be_bytes(n, ext as nat));
    }
    assert(lf.len() == 1 + ext);
    assert(t[0] == first_byte(fin, opcode));
    assert(len7(t) == lf[0] as int);
    match key {
        None => {
            assert(t.subrange(2 + ext, f.len() as int) =~= p);
        },
        Some(k) => {
            assert(t.subrange(2 + ext, 2 + ext + 4) =~= k);
            assert(t.subrange(2 + ext + 4, f.len() as int) =~= xor_mask(p, k));
            lemma_unmask_mask(p, k);
        },
    }
    assert(t.subrange(f.len() as int, t.len() as int) =~= rest);
}

/// Decoding the frame that the server writes for `m` gives `m` back, and
/// consumes the whole frame.
pub proof fn lemma_round_trip(m: Seq<u8>)
    requires
        m.len() < pow256(8),
    ensures
        decode_spec(message_frame(m)) == Ok::<(Seq<u8>, int), WsError>((m, message_frame(m).len() as int)),
{
    let f = message_frame(m);
    lemma_read_written_frame(true, TEXT_OPCODE, None, m, Seq::empty());
    assert(f + Seq::<u8>::empty() =~= f);
}

/// The server's frame for `m` uses the one-byte length form exactly when
/// `m` is shorter than 126 bytes, the 126 marker with two bytes exactly when
/// its length is in 126..=65535, and the 127 marker with eight bytes otherwise.
pub proof fn lemma_length_tiers(m: Seq<u8>)
    requires
        m.len() < pow256(8),
    ensures
        ({
            let f = message_frame(m);
            &&& f[1] < 126 <==> m.len() < 126
            &&& f[1] < 126 ==> f[1] == m.len() && f.len() == 2 + m.len()
            &&& f[1] == 126 <==> 126 <= m.len() <= 65535
            &&& f[1] == 126 ==> f.len() == 4 + m.len()
            &&& f[1] == 127 <==> m.len() > 65535
            &&& f[1] == 127 ==> f.len() == 10 + m.len()
        }),
{
    lemma_pow256_small();
    let n = m.len();
    if n >= 126 {
        let k: nat = if n <= 65535 {
            2
        } else {
            8
        };
        lemma_be_round_trip(n, k);
    }
}

/// Wire bytes of a message split into `parts`: one frame per part, all but
/// the last with the fin bit clear, the first with `opcode` and the others
/// as continuation frames.
pub open spec fn fragmented(parts: Seq<Seq<u8>>, opcode: u8) -> Seq<u8>
    decreases parts.len(),
{
    if parts.len() <= 1 {
        frame_bytes(true, opcode, None, parts.flatten())
    } else {
        frame_bytes(false, opcode, None, parts[0]) + fragmented(parts.drop_first(), 0)
    }
}

/// A message split over several frames decodes to the same message as one
/// final frame that carries the joined payloads.
pub proof fn lemma_fragments_reassemble(parts: Seq<Seq<u8>>, opcode: u8)
    requires
        opcode < 16,
        parts.flatten().len() < pow256(8),
    ensures
        decode_spec(fragmented(parts, opcode)) == Ok::<(Seq<u8>, int), WsError>(
            (parts.flatten(), fragmented(parts, opcode).len() as int),
        ),
        decode_spec(frame_bytes(true, opcode, None, parts.flatten())) matches Ok((m, _)) && m
            == parts.flatten(),
    decreases parts.len(),
{
    let whole = frame_bytes(true, opcode, None, parts.flatten());
    lemma_read_written_frame(true, opcode, None, parts.flatten(), Seq::empty());
    assert(whole + Seq::<u8>::empty() =~= whole);
    if parts.len() > 1 {
        let tail = parts.drop_first();
        let f0 = frame_bytes(false, opcode, None, parts[0]);
        let rest = fragmented(tail, 0);
        assert(parts.flatten() == parts[0] + tail.flatten());
        lemma_fragments_reassemble(tail, 0);
        lemma_read_written_frame(false, opcode, None, parts[0], rest);
        assert(parts[0] + tail.flatten() =~= parts.flatten());
    }
}

} // verus!
