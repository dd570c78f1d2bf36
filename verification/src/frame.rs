//! The PCC1 container: a 26-byte header followed by one encoded block.
//!
//! Layout (all integers little-endian `u32`):
//! `magic[4] ver[1] raw_len[4] crc[4] blocks[4] op[1] raw_len[4] blob_len[4] blob[..]`.
use vstd::prelude::*;

verus! {

/// The four magic bytes, `b"PCC1"`.
pub const MAGIC: [u8; 4] = [0x50, 0x43, 0x43, 0x31];

/// The container version byte.
pub const VER: u8 = 2;

/// Length of the container header; the block starts here.
pub const HEADER_LEN: usize = 26;

/// The encoding a block is stored under.
#[derive(Clone, Copy, Debug, PartialEq, Eq, Structural)]
pub enum Op {
    Zero,
    Match,
    Bwt,
    Store,
    Aware,
}

impl Op {
    /// The byte that identifies this encoding in the header.
    pub open spec fn spec_code(self) -> u8 {
        match self {
            Op::Zero => 0,
            Op::Match => 1,
            Op::Bwt => 2,
            Op::Store => 3,
            Op::Aware => 12,
        }
    }

    /// The byte that identifies this encoding in the header.
    #[verifier::when_used_as_spec(spec_code)]
    pub fn code(self) -> (c: u8)
        ensures
            c == self.spec_code(),
    {
        match self {
            Op::Zero => 0,
            Op::Match => 1,
            Op::Bwt => 2,
            Op::Store => 3,
            Op::Aware => 12,
        }
    }
}

/// The magic bytes as a sequence.
pub open spec fn magic() -> Seq<u8> {
    seq![0x50u8, 0x43u8, 0x43u8, 0x31u8]
}

/// Little-endian bytes of `n`.
pub open spec fn le_bytes(n: u32) -> Seq<u8> {
    seq![
        (n & 0xff) as u8,
        ((n >> 8u32) & 0xff) as u8,
        ((n >> 16u32) & 0xff) as u8,
        ((n >> 24u32) & 0xff) as u8,
    ]
}

/// The little-endian `u32` stored in `s` at offset `at`.
pub open spec fn le_u32(s: Seq<u8>, at: int) -> u32 {
    (s[at] as u32) | ((s[at + 1] as u32) << 8u32) | ((s[at + 2] as u32) << 16u32) | ((s[at + 3]
        as u32) << 24u32)
}

/// Reading back the bytes of `n` gives `n`.
pub proof fn lemma_le_roundtrip(n: u32)
    ensures
        le_bytes(n).len() == 4,
        le_u32(le_bytes(n), 0) == n,
{
    let b0 = (n & 0xff) as u8;
    let b1 = ((n >> 8u32) & 0xff) as u8;
    let b2 = ((n >> 16u32) & 0xff) as u8;
    let b3 = ((n >> 24u32) & 0xff) as u8;
    assert(((b0 as u32) | ((b1 as u32) << 8u32) | ((b2 as u32) << 16u32) | ((b3 as u32) << 24u32))
        == n) by (bit_vector)
        requires
            b0 == (n & 0xff) as u8,
            b1 == ((n >> 8u32) & 0xff) as u8,
            b2 == ((n >> 16u32) & 0xff) as u8,
            b3 == ((n >> 24u32) & 0xff) as u8,
    ;
}

/// A `u32` read at `at` depends only on the four bytes there.
pub proof fn lemma_le_u32_window(s: Seq<u8>, t: Seq<u8>, at: int, bt: int)
    requires
        0 <= at,
        at + 4 <= s.len(),
        0 <= bt,
        bt + 4 <= t.len(),
        s.subrange(at, at + 4) == t.subrange(bt, bt + 4),
    ensures
        le_u32(s, at) == le_u32(t, bt),
{
    let a = s.subrange(at, at + 4);
    let b = t.subrange(bt, bt + 4);
    assert(s[at] == a[0] && t[bt] == b[0]);
    assert(s[at + 1] == a[1] && t[bt + 1] == b[1]);
    assert(s[at + 2] == a[2] && t[bt + 2] == b[2]);
    assert(s[at + 3] == a[3] && t[bt + 3] == b[3]);
}

/// Whether `buf` begins with a PCC1 header of this version.
pub open spec fn spec_is_pccx(buf: Seq<u8>) -> bool {
    &&& buf.len() >= 17
    &&& buf.take(4) == magic()
    &&& buf[4] == VER
}

/// The complete container for a block.
pub open spec fn spec_frame(raw_len: u32, crc: u32, code: u8, blob: Seq<u8>) -> Seq<u8> {
    magic() + seq![VER] + le_bytes(raw_len) + le_bytes(crc) + le_bytes(1) + seq![code] + le_bytes(
        raw_len,
    ) + le_bytes(blob.len() as u32) + blob
}

/// Appends the little-endian bytes of `n` to `out`.
pub fn put_u32(out: &mut Vec<u8>, n: u32)
    ensures
        final(out)@ == old(out)@ + le_bytes(n),
{
    out.push((n & 0xff) as u8);
    out.push(((n >> 8u32) & 0xff) as u8);
    out.push(((n >> 16u32) & 0xff) as u8);
    out.push(((n >> 24u32) & 0xff) as u8);
    assert(out@ =~= old(out)@ + le_bytes(n));
}

/// Reads the little-endian `u32` at offset `at` of `buf`.
pub fn read_u32(buf: &[u8], at: usize) -> (r: u32)
    requires
        at + 4 <= buf@.len(),
    ensures
        r == le_u32(buf@, at as int),
{
    (buf[at] as u32) | ((buf[at + 1] as u32) << 8u32) | ((buf[at + 2] as u32) << 16u32) | ((buf[at
        + 3] as u32) << 24u32)
}

/// Whether `buf` begins with a PCC1 header of this version.
pub fn is_pccx(buf: &[u8]) -> (r: bool)
    ensures
        r == spec_is_pccx(buf@),
{
    let r = buf.len() >= 17 && buf[0] == MAGIC[0] && buf[1] == MAGIC[1] && buf[2] == MAGIC[2]
        && buf[3] == MAGIC[3] && buf[4] == VER;
    proof {
        if buf@.len() >= 4 {
            assert(buf@.take(4) == magic() <==> (buf@[0] == 0x50 && buf@[1] == 0x43 && buf@[2]
                == 0x43 && buf@[3] == 0x31)) by {
                if buf@[0] == 0x50 && buf@[1] == 0x43 && buf@[2] == 0x43 && buf@[3] == 0x31 {
                    assert(buf@.take(4) =~= magic());
                }
                if buf@.take(4) == magic() {
                    assert(buf@.take(4)[0] == buf@[0]);
                    assert(buf@.take(4)[1] == buf@[1]);
                    assert(buf@.take(4)[2] == buf@[2]);
                    assert(buf@.take(4)[3] == buf@[3]);
                }
            }
        }
    }
    r
}

/// Builds the container for one block: header, then `blob`.
pub fn pack(raw_len: u32, crc: u32, op: Op, blob: &[u8]) -> (out: Vec<u8>)
    ensures
        out@ == spec_frame(raw_len, crc, op.spec_code(), blob@),
{
    let mut out: Vec<u8> = Vec::new();
    out.push(MAGIC[0]);
    out.push(MAGIC[1]);
    out.push(MAGIC[2]);
    out.push(MAGIC[3]);
    assert(out@ =~= magic());
    out.push(VER);
    put_u32(&mut out, raw_len);
    put_u32(&mut out, crc);
    put_u32(&mut out, 1);
    out.push(op.code());
    put_u32(&mut out, raw_len);
    #[verifier::truncate]
    let blob_len = blob.len() as u32;
    put_u32(&mut out, blob_len);
    let ghost head = out@;
    let mut i: usize = 0;
    while i < blob.len()
        invariant
            i <= blob@.len(),
            out@ == head + blob@.take(i as int),
        decreases blob.len() - i,
    {
        out.push(blob[i]);
        assert(blob@.take(i + 1) =~= blob@.take(i as int).push(blob@[i as int]));
        i = i + 1;
    }
    assert(blob@.take(i as int) =~= blob@);
    assert(out@ =~= spec_frame(raw_len, crc, op.spec_code(), blob@));
    out
}

} // verus!
