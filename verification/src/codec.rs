//! Choosing the seat for a buffer, and reading a container back.
//!
//! Three seats are this library's own: ZERO (one repeated byte), MATCH
//! (the LZ stream of `lz`) and STORE (the bytes as they are). Two more,
//! BWT and AWARE, are produced and decoded by engines outside this crate;
//! the functions here take what those engines returned as plain values.
use vstd::prelude::*;
use vstd::slice::slice_subrange;
use crate::crc::{crc32, spec_crc32};
use crate::frame::{
    is_pccx, le_bytes, le_u32, lemma_le_roundtrip, lemma_le_u32_window, magic, pack, read_u32,
    spec_frame, spec_is_pccx, Op, HEADER_LEN,
};
use crate::lz::{
    bytes_result, lemma_lz_roundtrip, lemma_lz_tokens_len, lz_detok, lz_tokens, spec_lz_detok,
    spec_lz_tokens,
};

verus! {

// ---------------------------------------------------------------------------
// Small byte helpers

/// `Some(b)` when `data` is non-empty and every byte of it is `b`.
pub open spec fn spec_solid(data: Seq<u8>) -> Option<u8> {
    if data.len() > 0 && (forall|k: int| 0 <= k < data.len() ==> #[trigger] data[k] == data[0]) {
        Some(data[0])
    } else {
        None
    }
}

/// The byte that fills all of `data`, if one does.
pub fn solid(data: &[u8]) -> (r: Option<u8>)
    ensures
        r == spec_solid(data@),
{
    if data.len() == 0 {
        return None;
    }
    let s = data[0];
    let mut k: usize = 0;
    while k < data.len()
        invariant
            k <= data@.len(),
            s == data@[0],
            forall|m: int| 0 <= m < k ==> #[trigger] data@[m] == s,
        decreases data.len() - k,
    {
        if data[k] != s {
            return None;
        }
        k = k + 1;
    }
    Some(s)
}

/// A copy of `s`.
fn copy_bytes(s: &[u8]) -> (v: Vec<u8>)
    ensures
        v@ == s@,
{
    let mut v: Vec<u8> = Vec::with_capacity(s.len());
    let mut k: usize = 0;
    while k < s.len()
        invariant
            k <= s@.len(),
            v@ == s@.take(k as int),
        decreases s.len() - k,
    {
        v.push(s[k]);
        assert(s@.take(k + 1) =~= s@.take(k as int).push(s@[k as int]));
        k = k + 1;
    }
    assert(s@.take(k as int) =~= s@);
    v
}

/// `n` copies of `b`.
fn repeat_byte(b: u8, n: usize) -> (v: Vec<u8>)
    ensures
        v@ == Seq::new(n as nat, |k: int| b),
{
    let mut v: Vec<u8> = Vec::with_capacity(n);
    let mut k: usize = 0;
    while k < n
        invariant
            k <= n,
            v@ == Seq::new(k as nat, |m: int| b),
        decreases n - k,
    {
        v.push(b);
        k = k + 1;
        assert(v@ =~= Seq::new(k as nat, |m: int| b));
    }
    v
}

/// Whether `a` and `b` hold the same bytes.
fn same_bytes(a: &[u8], b: &[u8]) -> (r: bool)
    ensures
        r == (a@ == b@),
{
    if a.len() != b.len() {
        return false;
    }
    let mut k: usize = 0;
    while k < a.len()
        invariant
            a@.len() == b@.len(),
            k <= a@.len(),
            forall|m: int| 0 <= m < k ==> #[trigger] a@[m] == b@[m],
        decreases a.len() - k,
    {
        if a[k] != b[k] {
            return false;
        }
        k = k + 1;
    }
    assert(a@ =~= b@);
    true
}

// ---------------------------------------------------------------------------
// Reading a container

/// A decoder from outside this crate that a block may need.
#[derive(Clone, Copy, Debug, PartialEq, Eq, Structural)]
pub enum Engine {
    /// The BWT engine (block op 2).
    Bwt,
    /// The AWARE engine (block op 12).
    Aware,
}

/// Inputs on which the header reads run past the end of `buf`: a PCC1
/// header claiming one block, cut short before the block.
pub open spec fn header_cut_short(buf: Seq<u8>) -> bool {
    &&& spec_is_pccx(buf)
    &&& le_u32(buf, 13) == 1
    &&& buf.len() < HEADER_LEN
}

/// Whether the header reads of `decode_start` would run past the end of
/// `buf` (see `header_cut_short`).
pub fn is_cut_short(buf: &[u8]) -> (r: bool)
    ensures
        r == header_cut_short(buf@),
{
    is_pccx(buf) && read_u32(buf, 13) == 1 && buf.len() < HEADER_LEN
}

/// Checks the header: magic and version, one block, and a block length that
/// matches the buffer.
pub open spec fn spec_header(buf: Seq<u8>) -> Result<(), &'static str> {
    if !spec_is_pccx(buf) {
        Err("pccx")
    } else if le_u32(buf, 13) != 1 {
        Err("pccx blocks")
    } else if HEADER_LEN + le_u32(buf, 22) != buf.len() {
        Err("pccx len")
    } else {
        Ok(())
    }
}

/// The engine a block op needs, if any.
pub open spec fn engine_of(op: u8) -> Option<Engine> {
    if op == 2 {
        Some(Engine::Bwt)
    } else if op == 12 {
        Some(Engine::Aware)
    } else {
        None
    }
}

/// The engine `buf` needs to be decoded, if its header is good and its
/// block is one of the outside seats.
pub open spec fn engine_needed(buf: Seq<u8>) -> Option<Engine> {
    if spec_header(buf) is Ok {
        engine_of(buf[17])
    } else {
        None
    }
}

/// Decodes a block of the given op. `engine` is what the outside engine
/// returned on `blob`; it counts only for ops 2 and 12.
pub open spec fn spec_unpack(
    op: u8,
    blob: Seq<u8>,
    raw_len: u32,
    engine: Result<Seq<u8>, &'static str>,
) -> Result<Seq<u8>, &'static str> {
    if op == 0 {
        if blob.len() != 1 {
            Err("zero")
        } else {
            Ok(Seq::new(raw_len as nat, |k: int| blob[0]))
        }
    } else if op == 1 {
        spec_lz_detok(blob)
    } else if op == 2 || op == 12 {
        engine
    } else if op == 3 {
        if blob.len() != raw_len {
            Err("store")
        } else {
            Ok(blob)
        }
    } else {
        Err("op")
    }
}

/// Accepts decoded bytes only with the recorded length and CRC.
pub open spec fn spec_check(raw_len: u32, crc: u32, r: Result<Seq<u8>, &'static str>) -> Result<
    Seq<u8>,
    &'static str,
> {
    match r {
        Err(e) => Err(e),
        Ok(o) => if o.len() != raw_len {
            Err("n")
        } else if spec_crc32(o) != crc {
            Err("crc")
        } else {
            Ok(o)
        },
    }
}

/// What reading the container `buf` gives, where `engine` is what the
/// outside engine named by its block returned on the block (BWT engine
/// errors as `"bwt"`).
pub open spec fn spec_decode(buf: Seq<u8>, engine: Result<Seq<u8>, &'static str>) -> Result<
    Seq<u8>,
    &'static str,
> {
    match spec_header(buf) {
        Err(e) => Err(e),
        Ok(_) => spec_check(
            le_u32(buf, 5),
            le_u32(buf, 9),
            spec_unpack(buf[17], buf.skip(HEADER_LEN as int), le_u32(buf, 5), engine),
        ),
    }
}

/// The first step of reading a container.
pub enum DecodeStep {
    /// The container has been read (or refused) without outside help.
    Done(Result<Vec<u8>, &'static str>),
    /// The block needs `engine` run on `blob`; hand its result to
    /// `decode_finish` with `raw_len` and `crc`.
    Run { engine: Engine, blob: Vec<u8>, raw_len: u32, crc: u32 },
}

/// Accepts decoded bytes only with the recorded length and CRC.
pub fn decode_finish(raw_len: u32, crc: u32, out: Result<Vec<u8>, &'static str>) -> (r: Result<
    Vec<u8>,
    &'static str,
>)
    ensures
        bytes_result(r) == spec_check(raw_len, crc, bytes_result(out)),
{
    let out = match out {
        Ok(o) => o,
        Err(e) => return Err(e),
    };
    if out.len() != raw_len as usize {
        return Err("n");
    }
    if crc32(&out) != crc {
        return Err("crc");
    }
    Ok(out)
}

/// Reads the header of `buf` and decodes its block if one of this crate's
/// own seats holds it; otherwise says which engine to run on which bytes.
pub fn decode_start(buf: &[u8]) -> (r: DecodeStep)
    requires
        !header_cut_short(buf@),
    ensures
        r is Done <==> engine_needed(buf@) is None,
        r matches DecodeStep::Done(res) ==> forall|e: Result<Seq<u8>, &'static str>|
            #[trigger] spec_decode(buf@, e) == bytes_result(res),
        r matches DecodeStep::Run { engine, blob, raw_len, crc } ==> {
            &&& engine_needed(buf@) == Some(engine)
            &&& blob@ == buf@.skip(HEADER_LEN as int)
            &&& raw_len == le_u32(buf@, 5)
            &&& crc == le_u32(buf@, 9)
            &&& forall|e: Result<Seq<u8>, &'static str>| #[trigger]
                spec_decode(buf@, e) == spec_check(raw_len, crc, e)
        },
{
    if !is_pccx(buf) {
        return DecodeStep::Done(Err("pccx"));
    }
    let raw_len = read_u32(buf, 5);
    let crc = read_u32(buf, 9);
    let nb = read_u32(buf, 13);
    if nb != 1 {
        return DecodeStep::Done(Err("pccx blocks"));
    }
    let op = buf[17];
    let bl = read_u32(buf, 22);
    if bl as u64 + HEADER_LEN as u64 != buf.len() as u64 {
        return DecodeStep::Done(Err("pccx len"));
    }
    let blob = slice_subrange(buf, HEADER_LEN, buf.len());
    assert(blob@ =~= buf@.skip(HEADER_LEN as int));
    let out: Result<Vec<u8>, &'static str> = match op {
        0 => {
            if blob.len() != 1 {
                Err("zero")
            } else {
                Ok(repeat_byte(blob[0], raw_len as usize))
            }
        },
        1 => lz_detok(blob),
        2 => {
            return DecodeStep::Run { engine: Engine::Bwt, blob: copy_bytes(blob), raw_len, crc };
        },
        12 => {
            return DecodeStep::Run { engine: Engine::Aware, blob: copy_bytes(blob), raw_len, crc };
        },
        3 => {
            if blob.len() != raw_len as usize {
                Err("store")
            } else {
                Ok(copy_bytes(blob))
            }
        },
        _ => Err("op"),
    };
    DecodeStep::Done(decode_finish(raw_len, crc, out))
}

// ---------------------------------------------------------------------------
// Choosing a seat

/// `cand` under `op` if it is strictly shorter than the current best.
pub open spec fn better(best: (Op, Seq<u8>), op: Op, cand: Seq<u8>) -> (Op, Seq<u8>) {
    if cand.len() < best.1.len() {
        (op, cand)
    } else {
        best
    }
}

/// Output of the AWARE engine that is really another tool's format (gzip,
/// a bzip2 stream, or a thin xz, zlib or bzip2 wrapper) and so never takes
/// the seat.
pub open spec fn is_foreign(gc: Seq<u8>) -> bool {
    ||| (gc.len() >= 2 && gc[0] == 0x1f && gc[1] == 0x8b)
    ||| (gc.len() >= 4 && gc[0] == 0x58 && gc[1] == 0x5a && gc[2] == 0x31 && gc[3] == 0x00)
    ||| (gc.len() >= 4 && gc[0] == 0x5a && gc[1] == 0x4c && gc[2] == 0x42 && gc[3] == 0x31)
    ||| (gc.len() >= 4 && gc[0] == 0x42 && gc[1] == 0x5a && gc[2] == 0x68)
    ||| (gc.len() >= 4 && gc[0] == 0x42 && gc[1] == 0x5a && gc[2] == 0x31 && gc[3] == 0x00)
}

/// The seat and block chosen for `data`: the shortest of STORE, ZERO,
/// MATCH, BWT and AWARE, the earlier one among equals; AWARE only if its
/// output is not foreign and its decoder gives `data` back.
pub open spec fn spec_choice(
    data: Seq<u8>,
    bwt: Seq<u8>,
    aware: Seq<u8>,
    aware_back: Result<Seq<u8>, &'static str>,
) -> (Op, Seq<u8>) {
    let store = (Op::Store, data);
    let zero = match spec_solid(data) {
        Some(s) => better(store, Op::Zero, seq![s]),
        None => store,
    };
    let lz = better(zero, Op::Match, spec_lz_tokens(data));
    let bw = better(lz, Op::Bwt, bwt);
    if !is_foreign(aware) && aware.len() < bw.1.len() && aware_back == Ok::<
        Seq<u8>,
        &'static str,
    >(data) {
        (Op::Aware, aware)
    } else {
        bw
    }
}

/// What the decoder of a container sees from the outside engines: the
/// AWARE result for an AWARE block, the BWT result otherwise.
pub open spec fn engine_result(
    code: u8,
    bwt_back: Result<Seq<u8>, &'static str>,
    aware_back: Result<Seq<u8>, &'static str>,
) -> Result<Seq<u8>, &'static str> {
    if code == 12 {
        aware_back
    } else {
        bwt_back
    }
}

/// The container for `data`, or `None` when there is none worth having:
/// `data` is empty, no seat is smaller than the raw bytes (ZERO excepted),
/// the container is not smaller than the raw bytes, or reading it back
/// does not give `data`.
pub open spec fn spec_encode(
    data: Seq<u8>,
    bwt: Seq<u8>,
    bwt_back: Result<Seq<u8>, &'static str>,
    aware: Seq<u8>,
    aware_back: Result<Seq<u8>, &'static str>,
) -> Option<Seq<u8>> {
    if data.len() == 0 {
        None
    } else {
        let (op, best) = spec_choice(data, bwt, aware, aware_back);
        if best.len() >= data.len() && op != Op::Zero {
            None
        } else {
            let out = spec_frame(data.len() as u32, spec_crc32(data), op.spec_code(), best);
            if out.len() >= data.len() {
                None
            } else if spec_decode(out, engine_result(op.spec_code(), bwt_back, aware_back)) == Ok::<
                Seq<u8>,
                &'static str,
            >(data) {
                Some(out)
            } else {
                None
            }
        }
    }
}

/// The view of an optional byte vector.
pub open spec fn bytes_option(r: Option<Vec<u8>>) -> Option<Seq<u8>> {
    match r {
        Some(v) => Some(v@),
        None => None,
    }
}

/// Whether `gc` is foreign (see `is_foreign`).
fn foreign(gc: &[u8]) -> (r: bool)
    ensures
        r == is_foreign(gc@),
{
    (gc.len() >= 2 && gc[0] == 0x1f && gc[1] == 0x8b) || (gc.len() >= 4 && ((gc[0] == 0x58
        && gc[1] == 0x5a && gc[2] == 0x31 && gc[3] == 0x00) || (gc[0] == 0x5a && gc[1] == 0x4c
        && gc[2] == 0x42 && gc[3] == 0x31) || (gc[0] == 0x42 && gc[1] == 0x5a && gc[2] == 0x68) || (
        gc[0] == 0x42 && gc[1] == 0x5a && gc[2] == 0x31 && gc[3] == 0x00)))
}

/// Encodes `data` into a container, given what the outside engines made
/// of it: `bwt` is the BWT engine's output for `data` and `bwt_back` its
/// decoder's result on `bwt`; `aware` is the AWARE engine's output for
/// `data` and `aware_back` its decoder's result on `aware`.
pub fn encode(
    data: &[u8],
    bwt: &[u8],
    bwt_back: Result<Vec<u8>, &'static str>,
    aware: &[u8],
    aware_back: Result<Vec<u8>, &'static str>,
) -> (r: Option<Vec<u8>>)
    requires
        data@.len() <= i32::MAX,
    ensures
        bytes_option(r) == spec_encode(
            data@,
            bwt@,
            bytes_result(bwt_back),
            aware@,
            bytes_result(aware_back),
        ),
{
    if data.len() == 0 {
        return None;
    }
    let crc = crc32(data);
    let mut best_op = Op::Store;
    let mut best = copy_bytes(data);
    if let Some(s) = solid(data) {
        let b = vec![s];
        assert(b@ =~= seq![s]);
        if b.len() < best.len() {
            best_op = Op::Zero;
            best = b;
        }
    }
    let lz = lz_tokens(data);
    if lz.len() < best.len() {
        best_op = Op::Match;
        best = lz;
    }
    if bwt.len() < best.len() {
        best_op = Op::Bwt;
        best = copy_bytes(bwt);
    }
    if !foreign(aware) && aware.len() < best.len() {
        let back_ok = match &aware_back {
            Ok(v) => same_bytes(v.as_slice(), data),
            Err(_) => false,
        };
        if back_ok {
            best_op = Op::Aware;
            best = copy_bytes(aware);
        }
    }
    assert((best_op, best@) == spec_choice(data@, bwt@, aware@, bytes_result(aware_back)));
    if best.len() >= data.len() && best_op != Op::Zero {
        return None;
    }
    let out = pack(data.len() as u32, crc, best_op, best.as_slice());
    if out.len() >= data.len() {
        return None;
    }
    proof {
        lemma_frame_header(data.len() as u32, crc, best_op.spec_code(), best@);
    }
    let back = match decode_start(out.as_slice()) {
        DecodeStep::Done(res) => res,
        DecodeStep::Run { engine, blob, raw_len, crc } => match engine {
            Engine::Bwt => decode_finish(raw_len, crc, bwt_back),
            Engine::Aware => decode_finish(raw_len, crc, aware_back),
        },
    };
    match back {
        Ok(b) => {
            if same_bytes(b.as_slice(), data) {
                Some(out)
            } else {
                None
            }
        },
        Err(_) => None,
    }
}

// ---------------------------------------------------------------------------
// Laws

/// A container built by `pack` has a good header, and reading it gives back
/// the fields it was built from.
pub proof fn lemma_frame_header(raw_len: u32, crc: u32, code: u8, blob: Seq<u8>)
    requires
        blob.len() <= u32::MAX,
    ensures
        ({
            let f = spec_frame(raw_len, crc, code, blob);
            &&& f.len() == HEADER_LEN + blob.len()
            &&& spec_is_pccx(f)
            &&& !header_cut_short(f)
            &&& spec_header(f) == Ok::<(), &'static str>(())
            &&& le_u32(f, 5) == raw_len
            &&& le_u32(f, 9) == crc
            &&& le_u32(f, 13) == 1
            &&& f[17] == code
            &&& le_u32(f, 18) == raw_len
            &&& le_u32(f, 22) == blob.len()
            &&& f.skip(HEADER_LEN as int) == blob
            &&& engine_needed(f) == engine_of(code)
        }),
{
    let f = spec_frame(raw_len, crc, code, blob);
    assert(f.subrange(5, 9) =~= le_bytes(raw_len));
    lemma_field(f, 5, raw_len);
    assert(f.subrange(9, 13) =~= le_bytes(crc));
    lemma_field(f, 9, crc);
    assert(f.subrange(13, 17) =~= le_bytes(1));
    lemma_field(f, 13, 1);
    assert(f.subrange(18, 22) =~= le_bytes(raw_len));
    lemma_field(f, 18, raw_len);
    assert(f.subrange(22, 26) =~= le_bytes(blob.len() as u32));
    lemma_field(f, 22, blob.len() as u32);
    assert(f.take(4) =~= magic());
    assert(f.skip(HEADER_LEN as int) =~= blob);
}

/// The `u32` at `at` in a frame is the one written there.
proof fn lemma_field(f: Seq<u8>, at: int, v: u32)
    requires
        0 <= at,
        at + 4 <= f.len(),
        f.subrange(at, at + 4) == le_bytes(v),
    ensures
        le_u32(f, at) == v,
{
    lemma_le_roundtrip(v);
    assert(le_bytes(v).subrange(0, 4) =~= le_bytes(v));
    lemma_le_u32_window(f, le_bytes(v), at, 0);
}

/// Reading a container succeeds only with bytes of the recorded length and
/// CRC, under a good header.
pub proof fn theorem_decode_checked(buf: Seq<u8>, engine: Result<Seq<u8>, &'static str>)
    ensures
        spec_decode(buf, engine) matches Ok(o) ==> {
            &&& spec_is_pccx(buf)
            &&& spec_header(buf) is Ok
            &&& o.len() == le_u32(buf, 5)
            &&& spec_crc32(o) == le_u32(buf, 9)
        },
{
}

/// A container for one of this crate's own seats reads back to the input,
/// whatever the outside engines would say.
pub proof fn theorem_own_seat_roundtrip(
    data: Seq<u8>,
    op: Op,
    blob: Seq<u8>,
    engine: Result<Seq<u8>, &'static str>,
)
    requires
        0 < data.len() <= i32::MAX,
        blob.len() <= u32::MAX,
        (op == Op::Zero && blob.len() == 1 && spec_solid(data) == Some(blob[0])) || (op
            == Op::Match && blob == spec_lz_tokens(data)) || (op == Op::Store && blob == data),
    ensures
        spec_decode(spec_frame(data.len() as u32, spec_crc32(data), op.spec_code(), blob), engine)
            == Ok::<Seq<u8>, &'static str>(data),
{
    let f = spec_frame(data.len() as u32, spec_crc32(data), op.spec_code(), blob);
    if op == Op::Match {
        lemma_lz_roundtrip(data);
    }
    lemma_frame_header(data.len() as u32, spec_crc32(data), op.spec_code(), blob);
    if op == Op::Zero {
        assert(Seq::new(data.len() as nat, |k: int| blob[0]) =~= data);
    }
}

/// Every container `encode` gives is a PCC1 container smaller than
/// the input, and reading it back, with the same engine results, gives the
/// input.
pub proof fn theorem_encode_sound(
    data: Seq<u8>,
    bwt: Seq<u8>,
    bwt_back: Result<Seq<u8>, &'static str>,
    aware: Seq<u8>,
    aware_back: Result<Seq<u8>, &'static str>,
)
    requires
        data.len() <= i32::MAX,
    ensures
        spec_encode(data, bwt, bwt_back, aware, aware_back) matches Some(out) ==> {
            &&& out.len() < data.len()
            &&& spec_is_pccx(out)
            &&& spec_decode(out, engine_result(out[17], bwt_back, aware_back)) == Ok::<
                Seq<u8>,
                &'static str,
            >(data)
        },
{
    if data.len() > 0 {
        let (op, best) = spec_choice(data, bwt, aware, aware_back);
        if !(best.len() >= data.len() && op != Op::Zero) {
            if op == Op::Zero {
                assert(best.len() == 1);
            }
            lemma_frame_header(data.len() as u32, spec_crc32(data), op.spec_code(), best);
        }
    }
}

/// When one of this crate's own seats wins, `encode` refuses only for
/// size: the container is exactly the frame of that seat whenever the seat
/// (ZERO aside) and the whole container are smaller than the input.
pub proof fn theorem_own_seat_accepted(
    data: Seq<u8>,
    bwt: Seq<u8>,
    bwt_back: Result<Seq<u8>, &'static str>,
    aware: Seq<u8>,
    aware_back: Result<Seq<u8>, &'static str>,
)
    requires
        0 < data.len() <= i32::MAX,
        ({
            let op = spec_choice(data, bwt, aware, aware_back).0;
            op == Op::Zero || op == Op::Match || op == Op::Store
        }),
    ensures
        ({
            let (op, best) = spec_choice(data, bwt, aware, aware_back);
            spec_encode(data, bwt, bwt_back, aware, aware_back) == if (best.len() >= data.len()
                && op != Op::Zero) || HEADER_LEN + best.len() >= data.len() {
                None
            } else {
                Some(spec_frame(data.len() as u32, spec_crc32(data), op.spec_code(), best))
            }
        }),
{
    let (op, best) = spec_choice(data, bwt, aware, aware_back);
    if op == Op::Zero {
        assert(best == seq![data[0]]);
    }
    if !(best.len() >= data.len() && op != Op::Zero) {
        lemma_frame_header(data.len() as u32, spec_crc32(data), op.spec_code(), best);
        theorem_own_seat_roundtrip(
            data,
            op,
            best,
            engine_result(op.spec_code(), bwt_back, aware_back),
        );
    }
}

/// The seat `encode` takes is the smallest on offer: the block in its
/// container is no longer than the MATCH stream, the BWT block, one byte
/// when the input is one repeated byte, or the AWARE block when that one is
/// eligible (not foreign, and its decoder gives the input back).
pub proof fn theorem_encode_smallest(
    data: Seq<u8>,
    bwt: Seq<u8>,
    bwt_back: Result<Seq<u8>, &'static str>,
    aware: Seq<u8>,
    aware_back: Result<Seq<u8>, &'static str>,
)
    requires
        data.len() <= i32::MAX,
    ensures
        spec_encode(data, bwt, bwt_back, aware, aware_back) matches Some(out) ==> {
            let blob = out.skip(HEADER_LEN as int);
            &&& blob.len() <= spec_lz_tokens(data).len()
            &&& blob.len() <= bwt.len()
            &&& (spec_solid(data) is Some ==> blob.len() <= 1)
            &&& (!is_foreign(aware) && aware_back == Ok::<Seq<u8>, &'static str>(data)
                ==> blob.len() <= aware.len())
        },
{
    if data.len() > 0 {
        let (op, best) = spec_choice(data, bwt, aware, aware_back);
        if !(best.len() >= data.len() && op != Op::Zero) {
            if op == Op::Zero {
                assert(best.len() == 1);
            }
            lemma_frame_header(data.len() as u32, spec_crc32(data), op.spec_code(), best);
        }
    }
}

/// The op byte of a container from `encode` names the seat whose block it
/// holds, never STORE, and a later seat wins only when strictly shorter than
/// every earlier one.
pub proof fn theorem_encode_seat(
    data: Seq<u8>,
    bwt: Seq<u8>,
    bwt_back: Result<Seq<u8>, &'static str>,
    aware: Seq<u8>,
    aware_back: Result<Seq<u8>, &'static str>,
)
    requires
        data.len() <= i32::MAX,
    ensures
        spec_encode(data, bwt, bwt_back, aware, aware_back) matches Some(out) ==> {
            let blob = out.skip(HEADER_LEN as int);
            let lz = spec_lz_tokens(data);
            &&& out[17] == 0 || out[17] == 1 || out[17] == 2 || out[17] == 12
            &&& out[17] == 0 ==> spec_solid(data) == Some(data[0]) && blob == seq![data[0]]
            &&& out[17] == 1 ==> blob == lz && lz.len() < data.len() && spec_solid(data) is None
            &&& out[17] == 2 ==> blob == bwt && bwt.len() < lz.len() && bwt.len() < data.len()
                && (spec_solid(data) is Some ==> bwt.len() == 0)
            &&& out[17] == 12 ==> {
                &&& blob == aware
                &&& !is_foreign(aware)
                &&& aware_back == Ok::<Seq<u8>, &'static str>(data)
                &&& aware.len() < bwt.len()
                &&& aware.len() < lz.len()
                &&& aware.len() < data.len()
                &&& spec_solid(data) is Some ==> aware.len() == 0
            }
        },
{
    if data.len() > 0 {
        let (op, best) = spec_choice(data, bwt, aware, aware_back);
        lemma_lz_tokens_len(data);
        if !(best.len() >= data.len() && op != Op::Zero) {
            if op == Op::Zero {
                assert(best.len() == 1);
            }
            lemma_frame_header(data.len() as u32, spec_crc32(data), op.spec_code(), best);
            assert(spec_lz_tokens(data).len() >= 4);
        }
    }
}

/// A buffer of one repeated byte, longer than a ZERO container, is stored
/// in the ZERO seat whenever neither outside engine returns an empty block.
pub proof fn theorem_zero_seat(
    data: Seq<u8>,
    bwt: Seq<u8>,
    bwt_back: Result<Seq<u8>, &'static str>,
    aware: Seq<u8>,
    aware_back: Result<Seq<u8>, &'static str>,
)
    requires
        HEADER_LEN + 1 < data.len() <= i32::MAX,
        spec_solid(data) is Some,
        bwt.len() >= 1,
        aware.len() >= 1,
    ensures
        spec_encode(data, bwt, bwt_back, aware, aware_back) == Some(
            spec_frame(data.len() as u32, spec_crc32(data), 0, seq![data[0]]),
        ),
        spec_frame(data.len() as u32, spec_crc32(data), 0, seq![data[0]]).len() == HEADER_LEN + 1,
{
    assert(spec_lz_tokens(data).len() >= 4);
    assert(spec_choice(data, bwt, aware, aware_back) == (Op::Zero, seq![data[0]]));
    theorem_own_seat_accepted(data, bwt, bwt_back, aware, aware_back);
}

} // verus!
