//! How messages follow each other on a stream: each is preceded by its length.
//!
//! Framing format: [ 4-byte length prefix (big-endian u32) | payload ]
use vstd::prelude::*;

verus! {

/// The four bytes of `n`, the highest first.
pub open spec fn be_bytes(n: nat) -> Seq<u8> {
    seq![
        (n / 0x1000000) as u8,
        (n / 0x10000 % 0x100) as u8,
        (n / 0x100 % 0x100) as u8,
        (n % 0x100) as u8,
    ]
}

/// The number that four bytes stand for, the highest first.
pub open spec fn be_value(b: Seq<u8>) -> nat {
    (b[0] * 0x1000000 + b[1] * 0x10000 + b[2] * 0x100 + b[3]) as nat
}

/// A payload as it travels.
pub open spec fn frame_of(payload: Seq<u8>) -> Seq<u8> {
    be_bytes(payload.len()) + payload
}

/// A length prefix is read as the number it was written for.
pub proof fn law_length_round_trip(n: nat)
    requires
        n < 0x100000000,
    ensures
        be_value(be_bytes(n)) == n,
        be_bytes(n).len() == 4,
{
}

/// Every four bytes are the length prefix of one length.
pub proof fn law_prefix_round_trip(b: Seq<u8>)
    requires
        b.len() == 4,
    ensures
        be_bytes(be_value(b)) == b,
        be_value(b) < 0x100000000,
{
    let n = be_value(b);
    let (w, x, y, z) = (b[0] as int, b[1] as int, b[2] as int, b[3] as int);
    let k2 = w * 0x10000 + x * 0x100 + y;
    let k1 = w * 0x100 + x;
    assert(n == 0x100 * k2 + z && k2 == 0x100 * k1 + y && k1 == 0x100 * w + x);
    assert(n / 0x100 == k2 && n % 0x100 == z) by (nonlinear_arith)
        requires
            n == 0x100 * k2 + z,
            0 <= z < 0x100,
    ;
    assert(n / 0x10000 == k1) by (nonlinear_arith)
        requires
            n == 0x10000 * k1 + (0x100 * y + z),
            0 <= 0x100 * y + z < 0x10000,
    ;
    assert(n / 0x1000000 == w) by (nonlinear_arith)
        requires
            n == 0x1000000 * w + (0x10000 * x + 0x100 * y + z),
            0 <= 0x10000 * x + 0x100 * y + z < 0x1000000,
    ;
    assert(be_bytes(n) =~= b);
}

/// A reader of a framed payload, whatever follows it, learns its length from
/// the first four bytes and then reads the payload.
pub proof fn law_frame_round_trip(payload: Seq<u8>, rest: Seq<u8>)
    requires
        payload.len() < 0x100000000,
    ensures
        be_value((frame_of(payload) + rest).take(4)) == payload.len(),
        (frame_of(payload) + rest).subrange(4, 4 + payload.len() as int) == payload,
        (frame_of(payload) + rest).skip(4 + payload.len() as int) == rest,
{
    let all = frame_of(payload) + rest;
    law_length_round_trip(payload.len());
    assert(all.take(4) =~= be_bytes(payload.len()));
    assert(all.subrange(4, 4 + payload.len() as int) =~= payload);
    assert(all.skip(4 + payload.len() as int) =~= rest);
}

/// The frame of `payload`.
pub fn frame(payload: &Vec<u8>) -> (r: Vec<u8>)
    requires
        payload@.len() < 0x100000000,
    ensures
        r@ == frame_of(payload@),
{
    let n: u64 = payload.len() as u64;
    let mut out: Vec<u8> = Vec::with_capacity(4);
    out.push((n / 0x1000000) as u8);
    out.push((n / 0x10000 % 0x100) as u8);
    out.push((n / 0x100 % 0x100) as u8);
    out.push((n % 0x100) as u8);
    assert(out@ =~= be_bytes(payload@.len()));
    let mut i: usize = 0;
    while i < payload.len()
        invariant
            i <= payload@.len(),
            out@ == be_bytes(payload@.len()) + payload@.take(i as int),
        decreases payload@.len() - i,
    {
        out.push(payload[i]);
        i = i + 1;
        assert(payload@.take(i as int) =~= payload@.take(i - 1).push(payload@[i - 1]));
    }
    assert(payload@.take(i as int) =~= payload@);
    out
}

/// The length that a length prefix announces.
pub fn frame_length(prefix: &[u8; 4]) -> (r: u32)
    ensures
        r == be_value(prefix@),
{
    let n: u64 = prefix[0] as u64 * 0x1000000 + prefix[1] as u64 * 0x10000 + prefix[2] as u64
        * 0x100 + prefix[3] as u64;
    n as u32
}

/// The first byte of a length counts most, and the last least.
pub proof fn law_first_byte_counts_most(n: nat, w: u8, x: u8, y: u8, z: u8)
    ensures
        be_value(seq![w, x, y, z]) == ((w * 256 + x) * 256 + y) * 256 + z,
        n < 0x100000000 ==> ((be_bytes(n)[0] * 256 + be_bytes(n)[1]) * 256 + be_bytes(n)[2]) * 256
            + be_bytes(n)[3] == n,
{
    if n < 0x100000000 {
        law_length_round_trip(n);
    }
}

/// A frame is longer than its payload by its length prefix, which comes first.
pub proof fn law_frame_holds_the_payload(payload: Seq<u8>)
    ensures
        frame_of(payload).len() == payload.len() + 4,
        forall|i: int| 0 <= i < payload.len() ==> frame_of(payload)[4 + i] == #[trigger] payload[i],
{
}

} // verus!
