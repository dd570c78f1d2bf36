//! The MATCH seat: a greedy LZ77 token stream.
//!
//! The stream is the input length as a little-endian `u32`, then tokens:
//! a literal `[0, byte]`, or a match `[1, len, dist as u32 LE]` that copies
//! `len` bytes starting `dist` bytes back in the output produced so far.
use vstd::prelude::*;
use crate::frame::{le_bytes, le_u32, lemma_le_roundtrip, lemma_le_u32_window, put_u32, read_u32};

verus! {

/// How far back a match may reach.
pub const WINDOW: usize = 0x10_0000;

/// Number of hash buckets.
pub const HASH_SIZE: usize = 0x1_0000;

/// How many earlier positions the match finder tries at most.
pub const MAX_CHAIN: u32 = 64;

/// Shortest match worth a token.
pub const MIN_MATCH: usize = 4;

/// Longest match a token can hold.
pub const MAX_MATCH: usize = 255;

/// The view of a byte-vector result.
pub open spec fn bytes_result(r: Result<Vec<u8>, &'static str>) -> Result<Seq<u8>, &'static str> {
    match r {
        Ok(v) => Ok(v@),
        Err(e) => Err(e),
    }
}

// ---------------------------------------------------------------------------
// Decoding

/// Appends `len` bytes to `out`, each copied from `d` bytes before the end
/// (so a copy may overlap the bytes it produces).
pub open spec fn copy_back(out: Seq<u8>, d: int, len: int) -> Seq<u8>
    decreases len,
{
    if len <= 0 {
        out
    } else {
        copy_back(out.push(out[out.len() - d]), d, len - 1)
    }
}

/// Decodes the tokens `toks` onto `out` until `n` bytes are there.
pub open spec fn detok(toks: Seq<u8>, out: Seq<u8>, n: int) -> Result<Seq<u8>, &'static str>
    decreases toks.len(),
{
    if out.len() >= n {
        if out.len() == n {
            Ok(out)
        } else {
            Err("lz n")
        }
    } else if toks.len() == 0 {
        Err("lz trunc")
    } else if toks[0] == 0 {
        if toks.len() < 2 {
            Err("lz lit")
        } else {
            detok(toks.skip(2), out.push(toks[1]), n)
        }
    } else if toks[0] == 1 {
        if toks.len() < 6 {
            Err("lz m")
        } else {
            let d = le_u32(toks, 2) as int;
            if d == 0 || d > out.len() {
                Err("lz dist")
            } else {
                detok(toks.skip(6), copy_back(out, d, toks[1] as int), n)
            }
        }
    } else {
        Err("lz op")
    }
}

/// What decoding a MATCH stream gives.
pub open spec fn spec_lz_detok(buf: Seq<u8>) -> Result<Seq<u8>, &'static str> {
    if buf.len() < 4 {
        Err("lz")
    } else {
        detok(buf.skip(4), seq![], le_u32(buf, 0) as int)
    }
}

// ---------------------------------------------------------------------------
// Encoding

/// Position `x` has four bytes of `data` starting at it, so it can be hashed.
pub open spec fn hashed(data: Seq<u8>, x: int) -> bool {
    0 <= x && x + 3 < data.len()
}

/// The bucket of the four bytes at `x`.
pub open spec fn hash4(data: Seq<u8>, x: int) -> int {
    (le_u32(data, x) as int) % (HASH_SIZE as int)
}

/// The nearest hashed position before `b` whose bucket is `h`, or -1.
pub open spec fn latest(data: Seq<u8>, h: int, b: int) -> int
    decreases b,
{
    if b <= 0 {
        -1
    } else if hashed(data, b - 1) && hash4(data, b - 1) == h {
        b - 1
    } else {
        latest(data, h, b - 1)
    }
}

/// Length of the common run of the bytes at `i` and at `j`, from `l` on:
/// it ends at the end of `data`, before the run at `j` reaches `i`, or at
/// `MAX_MATCH`.
pub open spec fn run_len(data: Seq<u8>, i: int, j: int, l: int) -> int
    decreases MAX_MATCH - l,
{
    if l < MAX_MATCH && i + l < data.len() && j + l < i && data[i + l] == data[j + l] {
        run_len(data, i, j, l + 1)
    } else {
        l
    }
}

/// The lowest position a match at `i` may start from.
pub open spec fn window_floor(i: int) -> int {
    if i >= WINDOW {
        i - WINDOW
    } else {
        0
    }
}

/// The best match `(len, dist)` for position `i`, trying the positions of
/// its bucket from `p` backwards, `steps` of them already tried: the
/// longest run of at least `MIN_MATCH`, the nearest one among equals.
pub open spec fn chain_best(data: Seq<u8>, i: int, p: int, steps: int, best_l: int, best_d: int) -> (
    int,
    int,
)
    decreases MAX_CHAIN - steps,
{
    if p >= window_floor(i) && steps < MAX_CHAIN {
        let l = run_len(data, i, p, 0);
        if l >= MIN_MATCH && l > best_l {
            chain_best(data, i, latest(data, hash4(data, i), p), steps + 1, l, i - p)
        } else {
            chain_best(data, i, latest(data, hash4(data, i), p), steps + 1, best_l, best_d)
        }
    } else {
        (best_l, best_d)
    }
}

/// The match chosen at position `i`; a length below `MIN_MATCH` means none.
pub open spec fn best_match(data: Seq<u8>, i: int) -> (int, int) {
    if i + 3 < data.len() {
        chain_best(data, i, latest(data, hash4(data, i), i), 0, 0, 0)
    } else {
        (0, 0)
    }
}

/// A match `(l, d)` at `i` copies bytes that really repeat.
pub open spec fn sound_match(data: Seq<u8>, i: int, l: int, d: int) -> bool {
    &&& MIN_MATCH <= l <= MAX_MATCH
    &&& i + l <= data.len()
    &&& 1 <= d <= i
    &&& forall|k: int| 0 <= k < l ==> data[i + k] == #[trigger] data[i - d + k]
}

/// A match `(l, d)` at `i` shorter than `MAX_MATCH` cannot be extended:
/// it ends at the end of `data`, where its source reaches `i`, or at a
/// byte that differs.
pub open spec fn maximal_match(data: Seq<u8>, i: int, l: int, d: int) -> bool {
    l < MAX_MATCH ==> (i + l == data.len() || l == d || data[i + l] != data[i - d + l])
}

/// The tokens for `data` from position `i` on: at each position the chosen
/// match if there is one, else the byte as a literal.
pub open spec fn tokens_from(data: Seq<u8>, i: int) -> Seq<u8>
    decreases data.len() - i,
{
    if i < 0 || i >= data.len() {
        seq![]
    } else {
        let (l, d) = best_match(data, i);
        if l >= MIN_MATCH {
            proof {
                lemma_best_match(data, i);
            }
            seq![1u8, l as u8] + le_bytes(d as u32) + tokens_from(data, i + l)
        } else {
            seq![0u8, data[i]] + tokens_from(data, i + 1)
        }
    }
}

/// The MATCH stream of `data`.
pub open spec fn spec_lz_tokens(data: Seq<u8>) -> Seq<u8> {
    le_bytes(data.len() as u32) + tokens_from(data, 0)
}

// ---------------------------------------------------------------------------
// Lemmas

/// `latest` finds an earlier hashed position of bucket `h`, or none.
pub proof fn lemma_latest(data: Seq<u8>, h: int, b: int)
    ensures
        latest(data, h, b) == -1 || (latest(data, h, b) < b && hashed(data, latest(data, h, b))
            && hash4(data, latest(data, h, b)) == h),
    decreases b,
{
    if b > 0 {
        lemma_latest(data, h, b - 1);
    }
}

/// The run found by `run_len` really is a common run.
pub proof fn lemma_run_len(data: Seq<u8>, i: int, j: int, l: int)
    requires
        0 <= j,
        j + l <= i,
        0 <= l <= MAX_MATCH,
        i + l <= data.len(),
        forall|k: int| 0 <= k < l ==> data[i + k] == #[trigger] data[j + k],
    ensures
        l <= run_len(data, i, j, l) <= MAX_MATCH,
        i + run_len(data, i, j, l) <= data.len(),
        j + run_len(data, i, j, l) <= i,
        forall|k: int| 0 <= k < run_len(data, i, j, l) ==> data[i + k] == #[trigger] data[j + k],
        run_len(data, i, j, l) < MAX_MATCH ==> !({
            let r = run_len(data, i, j, l);
            i + r < data.len() && j + r < i && data[i + r] == data[j + r]
        }),
    decreases MAX_MATCH - l,
{
    if l < MAX_MATCH && i + l < data.len() && j + l < i && data[i + l] == data[j + l] {
        assert forall|k: int| 0 <= k < l + 1 implies data[i + k] == #[trigger] data[j + k] by {
            if k < l {
            } else {
                assert(k == l);
            }
        }
        lemma_run_len(data, i, j, l + 1);
    }
}

/// Walking a chain only ever picks sound matches.
pub proof fn lemma_chain_best(data: Seq<u8>, i: int, p: int, steps: int, best_l: int, best_d: int)
    requires
        0 <= i < data.len(),
        p < i,
        best_l < MIN_MATCH || (sound_match(data, i, best_l, best_d) && maximal_match(
            data,
            i,
            best_l,
            best_d,
        )),
    ensures
        ({
            let (l, d) = chain_best(data, i, p, steps, best_l, best_d);
            l < MIN_MATCH || (sound_match(data, i, l, d) && maximal_match(data, i, l, d))
        }),
    decreases MAX_CHAIN - steps,
{
    if p >= window_floor(i) && steps < MAX_CHAIN {
        let l = run_len(data, i, p, 0);
        lemma_run_len(data, i, p, 0);
        lemma_latest(data, hash4(data, i), p);
        let next = latest(data, hash4(data, i), p);
        if l >= MIN_MATCH && l > best_l {
            assert forall|k: int| 0 <= k < l implies data[i + k] == #[trigger] data[i - (i - p) + k] by {
                assert(data[i + k] == data[p + k]);
            }
            assert(i - (i - p) + l == p + l);
            lemma_chain_best(data, i, next, steps + 1, l, i - p);
        } else {
            lemma_chain_best(data, i, next, steps + 1, best_l, best_d);
        }
    }
}

/// The match chosen at a position is sound.
pub proof fn lemma_best_match(data: Seq<u8>, i: int)
    requires
        0 <= i < data.len(),
    ensures
        best_match(data, i).0 < MIN_MATCH || (sound_match(
            data,
            i,
            best_match(data, i).0,
            best_match(data, i).1,
        ) && maximal_match(data, i, best_match(data, i).0, best_match(data, i).1)),
{
    if i + 3 < data.len() {
        lemma_latest(data, hash4(data, i), i);
        lemma_chain_best(data, i, latest(data, hash4(data, i), i), 0, 0, 0);
    }
}

/// Every match token of the MATCH stream is as long as it can be: unless it
/// has the full `MAX_MATCH` length, the byte after it differs from the byte
/// after its source, or it reaches the end of the input, or its source
/// reaches the match itself.
pub proof fn theorem_match_tokens_maximal(data: Seq<u8>, i: int)
    requires
        0 <= i < data.len(),
        data.len() <= u32::MAX,
        tokens_from(data, i)[0] == 1,
    ensures
        ({
            let t = tokens_from(data, i);
            let l = t[1] as int;
            let d = le_u32(t, 2) as int;
            &&& MIN_MATCH <= l <= MAX_MATCH
            &&& 1 <= d <= i
            &&& i + l <= data.len()
            &&& forall|k: int| 0 <= k < l ==> data[i + k] == #[trigger] data[i - d + k]
            &&& l < MAX_MATCH ==> (i + l == data.len() || l == d || data[i + l] != data[i - d
                + l])
        }),
{
    let t = tokens_from(data, i);
    let (l, d) = best_match(data, i);
    lemma_best_match(data, i);
    if l >= MIN_MATCH {
        let tok = seq![1u8, l as u8] + le_bytes(d as u32);
        assert(t == tok + tokens_from(data, i + l));
        lemma_le_roundtrip(d as u32);
        assert(t.subrange(2, 6) =~= le_bytes(d as u32).subrange(0, 4));
        lemma_le_u32_window(t, le_bytes(d as u32), 2, 0);
        assert(t[1] as int == l);
    } else {
        assert(t[0] == 0);
    }
}

/// The `k`-th earlier position the match finder tries for position `i`:
/// the nearest hashed position before `i` in the bucket of `i`, then the
/// nearest one before that, and so on (-1 once they run out).
pub open spec fn chain_pos(data: Seq<u8>, i: int, k: nat) -> int
    decreases k,
{
    if k == 0 {
        latest(data, hash4(data, i), i)
    } else {
        latest(data, hash4(data, i), chain_pos(data, i, (k - 1) as nat))
    }
}

/// The tried positions only move backwards.
proof fn lemma_chain_pos_mono(data: Seq<u8>, i: int, m: nat, k: nat)
    requires
        m <= k,
    ensures
        chain_pos(data, i, k) <= chain_pos(data, i, m),
        chain_pos(data, i, k) >= -1,
    decreases k,
{
    if k == 0 {
        lemma_latest(data, hash4(data, i), i);
    } else {
        lemma_chain_pos_mono(data, i, 0, (k - 1) as nat);
        lemma_latest(data, hash4(data, i), chain_pos(data, i, (k - 1) as nat));
        if m < k {
            lemma_chain_pos_mono(data, i, m, (k - 1) as nat);
        }
    }
}

/// Walking on never shortens the best match, and leaves it alone unless it
/// finds a longer one.
proof fn lemma_chain_mono(data: Seq<u8>, i: int, p: int, steps: int, best_l: int, best_d: int)
    ensures
        ({
            let (l, d) = chain_best(data, i, p, steps, best_l, best_d);
            l >= best_l && (l == best_l ==> d == best_d)
        }),
    decreases MAX_CHAIN - steps,
{
    if p >= window_floor(i) && steps < MAX_CHAIN {
        let l = run_len(data, i, p, 0);
        let next = latest(data, hash4(data, i), p);
        if l >= MIN_MATCH && l > best_l {
            lemma_chain_mono(data, i, next, steps + 1, l, i - p);
        } else {
            lemma_chain_mono(data, i, next, steps + 1, best_l, best_d);
        }
    }
}

/// From step `s` on, the walk ends with a match at least as long as the run
/// at tried position `k`, and no farther away when it is just as long.
proof fn lemma_chain_longest(data: Seq<u8>, i: int, s: nat, best_l: int, best_d: int, k: nat)
    requires
        s <= k < MAX_CHAIN,
        chain_pos(data, i, k) >= window_floor(i),
        run_len(data, i, chain_pos(data, i, k), 0) >= MIN_MATCH,
        best_l >= MIN_MATCH ==> i - best_d > chain_pos(data, i, s),
    ensures
        ({
            let (l, d) = chain_best(data, i, chain_pos(data, i, s), s as int, best_l, best_d);
            let r = run_len(data, i, chain_pos(data, i, k), 0);
            r <= l && (r == l ==> d <= i - chain_pos(data, i, k))
        }),
    decreases k - s,
{
    let p = chain_pos(data, i, s);
    let h = hash4(data, i);
    lemma_chain_pos_mono(data, i, s, k);
    lemma_chain_pos_mono(data, i, s, s + 1);
    let next = latest(data, h, p);
    assert(chain_pos(data, i, s + 1) == next);
    let lr = run_len(data, i, p, 0);
    lemma_latest(data, h, p);
    if lr >= MIN_MATCH && lr > best_l {
        if s == k {
            lemma_chain_mono(data, i, next, (s + 1) as int, lr, i - p);
        } else {
            lemma_chain_longest(data, i, s + 1, lr, i - p, k);
        }
    } else {
        if s == k {
            lemma_chain_mono(data, i, next, (s + 1) as int, best_l, best_d);
        } else {
            lemma_chain_longest(data, i, s + 1, best_l, best_d, k);
        }
    }
}

/// The match chosen at `i` is the longest run over every position the
/// finder tries (up to `MAX_CHAIN` of them, within `WINDOW`), and among
/// equally long runs the nearest one.
pub proof fn theorem_best_match_longest(data: Seq<u8>, i: int, k: nat)
    requires
        0 <= i,
        i + 3 < data.len(),
        k < MAX_CHAIN,
        chain_pos(data, i, k) >= window_floor(i),
    ensures
        ({
            let (l, d) = best_match(data, i);
            let r = run_len(data, i, chain_pos(data, i, k), 0);
            r >= MIN_MATCH ==> (r <= l && (r == l ==> d <= i - chain_pos(data, i, k)))
        }),
{
    if run_len(data, i, chain_pos(data, i, k), 0) >= MIN_MATCH {
        lemma_chain_longest(data, i, 0, 0, 0, k);
    }
}

/// Copying a repeated run back reproduces the input.
pub proof fn lemma_copy_back(data: Seq<u8>, i: int, d: int, l: int)
    requires
        1 <= d <= i,
        0 <= l,
        i + l <= data.len(),
        forall|k: int| 0 <= k < l ==> data[i + k] == #[trigger] data[i - d + k],
    ensures
        copy_back(data.take(i), d, l) == data.take(i + l),
    decreases l,
{
    if l > 0 {
        assert(data[i + 0] == data[i - d + 0]);
        assert(data.take(i).push(data.take(i)[data.take(i).len() - d]) =~= data.take(i + 1));
        assert forall|k: int| 0 <= k < l - 1 implies data[(i + 1) + k] == #[trigger] data[(i + 1)
            - d + k] by {
            assert(data[i + (k + 1)] == data[i - d + (k + 1)]);
        }
        lemma_copy_back(data, i + 1, d, l - 1);
    }
}

/// Decoding the tokens from `i` on, with the first `i` bytes already out,
/// gives back all of `data`.
pub proof fn lemma_tokens_decode(data: Seq<u8>, i: int)
    requires
        0 <= i <= data.len(),
        data.len() <= u32::MAX,
    ensures
        detok(tokens_from(data, i), data.take(i), data.len() as int) == Ok::<
            Seq<u8>,
            &'static str,
        >(data),
    decreases data.len() - i,
{
    let n = data.len() as int;
    let toks = tokens_from(data, i);
    if i == n {
        assert(data.take(i) =~= data);
    } else {
        let (l, d) = best_match(data, i);
        lemma_best_match(data, i);
        if l >= MIN_MATCH {
            let rest = tokens_from(data, i + l);
            let tok = seq![1u8, l as u8] + le_bytes(d as u32);
            assert(toks == tok + rest);
            lemma_le_roundtrip(d as u32);
            assert(toks.subrange(2, 6) =~= le_bytes(d as u32).subrange(0, 4));
            lemma_le_u32_window(toks, le_bytes(d as u32), 2, 0);
            assert(toks[0] == 1);
            assert(toks[1] as int == l);
            assert(toks.skip(6) =~= rest);
            lemma_copy_back(data, i, d, l);
            lemma_tokens_decode(data, i + l);
        } else {
            let rest = tokens_from(data, i + 1);
            assert(toks == seq![0u8, data[i]] + rest);
            assert(toks.skip(2) =~= rest);
            assert(data.take(i).push(data[i]) =~= data.take(i + 1));
            lemma_tokens_decode(data, i + 1);
        }
    }
}

/// Decoding the MATCH stream of `data` gives back `data`.
pub proof fn lemma_lz_roundtrip(data: Seq<u8>)
    requires
        data.len() <= u32::MAX,
    ensures
        spec_lz_detok(spec_lz_tokens(data)) == Ok::<Seq<u8>, &'static str>(data),
{
    let buf = spec_lz_tokens(data);
    lemma_le_roundtrip(data.len() as u32);
    assert(buf.subrange(0, 4) =~= le_bytes(data.len() as u32).subrange(0, 4));
    lemma_le_u32_window(buf, le_bytes(data.len() as u32), 0, 0);
    assert(buf.skip(4) =~= tokens_from(data, 0));
    assert(data.take(0) =~= seq![]);
    lemma_tokens_decode(data, 0);
}

/// The MATCH stream is at most four bytes plus two per input byte.
pub proof fn lemma_lz_tokens_len(data: Seq<u8>)
    ensures
        spec_lz_tokens(data).len() <= 4 + 2 * data.len(),
{
    lemma_tokens_from_len(data, 0);
}

/// The tokens from `i` on take at most two bytes per remaining input byte.
proof fn lemma_tokens_from_len(data: Seq<u8>, i: int)
    requires
        0 <= i,
    ensures
        tokens_from(data, i).len() <= 2 * (data.len() - i) || i >= data.len(),
        i >= data.len() ==> tokens_from(data, i).len() == 0,
    decreases data.len() - i,
{
    if i < data.len() {
        lemma_best_match(data, i);
        let (l, d) = best_match(data, i);
        if l >= MIN_MATCH {
            lemma_tokens_from_len(data, i + l);
        } else {
            lemma_tokens_from_len(data, i + 1);
        }
    }
}

// ---------------------------------------------------------------------------
// Executable code

/// Decodes a MATCH stream.
pub fn lz_detok(buf: &[u8]) -> (r: Result<Vec<u8>, &'static str>)
    ensures
        bytes_result(r) == spec_lz_detok(buf@),
{
    if buf.len() < 4 {
        return Err("lz");
    }
    let n = read_u32(buf, 0) as usize;
    let mut i: usize = 4;
    let mut out: Vec<u8> = Vec::with_capacity(n);
    assert(out@ =~= seq![]);
    while out.len() < n
        invariant
            4 <= i <= buf@.len(),
            n == le_u32(buf@, 0) as int,
            detok(buf@.skip(i as int), out@, n as int) == spec_lz_detok(buf@),
        decreases buf@.len() - i,
    {
        let ghost toks = buf@.skip(i as int);
        if i >= buf.len() {
            return Err("lz trunc");
        }
        match buf[i] {
            0 => {
                i = i + 1;
                if i >= buf.len() {
                    return Err("lz lit");
                }
                out.push(buf[i]);
                i = i + 1;
                assert(toks.skip(2) =~= buf@.skip(i as int));
            },
            1 => {
                i = i + 1;
                if buf.len() - i < 5 {
                    return Err("lz m");
                }
                let len = buf[i] as usize;
                i = i + 1;
                let d = read_u32(buf, i) as usize;
                proof {
                    assert(toks.subrange(2, 6) =~= buf@.subrange(i as int, i + 4));
                    lemma_le_u32_window(toks, buf@, 2, i as int);
                }
                i = i + 4;
                if d == 0 || d > out.len() {
                    return Err("lz dist");
                }
                let ghost start = out@;
                let mut k: usize = 0;
                while k < len
                    invariant
                        k <= len,
                        1 <= d <= out@.len(),
                        copy_back(out@, d as int, (len - k) as int) == copy_back(
                            start,
                            d as int,
                            len as int,
                        ),
                    decreases len - k,
                {
                    let b = out[out.len() - d];
                    out.push(b);
                    k = k + 1;
                }
                assert(toks.skip(6) =~= buf@.skip(i as int));
            },
            _ => {
                return Err("lz op");
            },
        }
    }
    if out.len() != n {
        return Err("lz n");
    }
    Ok(out)
}

/// The bucket of the four bytes at `x`.
fn hash_at(data: &[u8], x: usize) -> (h: usize)
    requires
        x + 3 < data@.len(),
    ensures
        h as int == hash4(data@, x as int),
        h < HASH_SIZE,
{
    (read_u32(data, x) as usize) % HASH_SIZE
}

/// `head[g]` is the latest hashed position before `b` in bucket `g`.
pub open spec fn head_ok(data: Seq<u8>, head: Seq<i32>, b: int) -> bool {
    &&& head.len() == HASH_SIZE
    &&& forall|g: int| 0 <= g < HASH_SIZE ==> #[trigger] head[g] as int == latest(data, g, b)
}

/// `prev[x]`, for every hashed position `x` before `b`, is the latest hashed
/// position before `x` in the same bucket.
pub open spec fn prev_ok(data: Seq<u8>, prev: Seq<i32>, b: int) -> bool {
    &&& prev.len() == data.len()
    &&& forall|x: int|
        0 <= x < b && hashed(data, x) ==> #[trigger] prev[x] as int == latest(data, hash4(data, x), x)
}

/// Passing a position that cannot be hashed leaves the chains as they are.
proof fn lemma_pass(data: Seq<u8>, head: Seq<i32>, prev: Seq<i32>, x: int)
    requires
        0 <= x,
        !hashed(data, x),
        head_ok(data, head, x),
        prev_ok(data, prev, x),
    ensures
        head_ok(data, head, x + 1),
        prev_ok(data, prev, x + 1),
{
    assert forall|g: int| 0 <= g < HASH_SIZE implies #[trigger] head[g] as int == latest(data, g, x + 1) by {
        assert(latest(data, g, x + 1) == latest(data, g, x));
    }
}

/// Enters hashed position `x`, of bucket `h`, at the front of its chain.
fn record(data: &[u8], head: &mut Vec<i32>, prev: &mut Vec<i32>, x: usize, h: usize)
    requires
        data@.len() <= i32::MAX,
        hashed(data@, x as int),
        h as int == hash4(data@, x as int),
        head_ok(data@, old(head)@, x as int),
        prev_ok(data@, old(prev)@, x as int),
    ensures
        head_ok(data@, final(head)@, x + 1),
        prev_ok(data@, final(prev)@, x + 1),
{
    let ghost old_head = head@;
    let ghost old_prev = prev@;
    proof {
        lemma_latest(data@, h as int, x as int);
    }
    let before = head[h];
    prev.set(x, before);
    head.set(h, x as i32);
    assert forall|g: int| 0 <= g < HASH_SIZE implies #[trigger] head@[g] as int == latest(
        data@,
        g,
        x + 1,
    ) by {
        if g != h {
            assert(head@[g] == old_head[g]);
        }
    }
    assert forall|y: int| 0 <= y < x + 1 && hashed(data@, y) implies #[trigger] prev@[y] as int
        == latest(data@, hash4(data@, y), y) by {
        if y != x {
            assert(prev@[y] == old_prev[y]);
        }
    }
}

/// Encodes `data` as a MATCH stream, finding matches by hash chains.
pub fn lz_tokens(data: &[u8]) -> (out: Vec<u8>)
    requires
        data@.len() <= i32::MAX,
    ensures
        out@ == spec_lz_tokens(data@),
{
    let n = data.len();
    let mut head: Vec<i32> = vec![-1i32; HASH_SIZE];
    let mut prev: Vec<i32> = vec![-1i32; n];
    let mut out: Vec<u8> = Vec::with_capacity(n / 2 + 16);
    put_u32(&mut out, n as u32);
    assert(out@ =~= seq![] + le_bytes(n as u32));
    let mut i: usize = 0;
    assert forall|g: int| 0 <= g < HASH_SIZE implies #[trigger] head@[g] as int == latest(
        data@,
        g,
        0,
    ) by {
        assert(head@[g] == -1i32);
    }
    while i < n
        invariant
            n == data@.len(),
            n <= i32::MAX,
            i <= n,
            head_ok(data@, head@, i as int),
            prev_ok(data@, prev@, i as int),
            out@ + tokens_from(data@, i as int) == spec_lz_tokens(data@),
        decreases n - i,
    {
        let ghost out_before = out@;
        let mut best_l: usize = 0;
        let mut best_d: usize = 0;
        if i + 3 < n {
            let h = hash_at(data, i);
            let mut p: i32 = head[h];
            let floor: i32 = i.saturating_sub(WINDOW) as i32;
            let mut steps: u32 = 0;
            proof {
                lemma_latest(data@, h as int, i as int);
            }
            while p >= floor && steps < MAX_CHAIN
                invariant
                    n == data@.len(),
                    n <= i32::MAX,
                    i + 3 < n,
                    h as int == hash4(data@, i as int),
                    prev_ok(data@, prev@, i as int),
                    floor as int == window_floor(i as int),
                    p == -1 || (0 <= p < i && hashed(data@, p as int) && hash4(data@, p as int)
                        == h),
                    best_l < MIN_MATCH || sound_match(data@, i as int, best_l as int, best_d as int),
                    best_l <= MAX_MATCH,
                    chain_best(data@, i as int, p as int, steps as int, best_l as int, best_d as int)
                        == best_match(data@, i as int),
                decreases MAX_CHAIN - steps,
            {
                let j = p as usize;
                let mut l: usize = 0;
                proof {
                    lemma_run_len(data@, i as int, j as int, 0);
                }
                while i + l < n && j + l < i && data[i + l] == data[j + l] && l < MAX_MATCH
                    invariant
                        n == data@.len(),
                        i < n,
                        j < i,
                        l <= MAX_MATCH,
                        i + l <= n,
                        run_len(data@, i as int, j as int, l as int) == run_len(
                            data@,
                            i as int,
                            j as int,
                            0,
                        ),
                    decreases MAX_MATCH - l,
                {
                    l = l + 1;
                }
                if l >= MIN_MATCH && l > best_l {
                    best_l = l;
                    best_d = i - j;
                    assert forall|k: int| 0 <= k < best_l implies data@[i + k] == #[trigger] data@[i
                        - best_d + k] by {
                        assert(data@[i + k] == data@[j + k]);
                    }
                }
                p = prev[j];
                proof {
                    lemma_latest(data@, h as int, j as int);
                }
                steps = steps + 1;
            }
            record(data, &mut head, &mut prev, i, h);
        } else {
            proof {
                lemma_pass(data@, head@, prev@, i as int);
            }
        }
        assert((best_l as int, best_d as int) == best_match(data@, i as int));
        if best_l >= MIN_MATCH {
            out.push(1);
            out.push(best_l as u8);
            put_u32(&mut out, best_d as u32);
            let mut k: usize = 1;
            while k < best_l
                invariant
                    n == data@.len(),
                    n <= i32::MAX,
                    1 <= k <= best_l,
                    i + best_l <= n,
                    head_ok(data@, head@, i + k),
                    prev_ok(data@, prev@, i + k),
                decreases best_l - k,
            {
                if i + k + 3 < n {
                    let h = hash_at(data, i + k);
                    record(data, &mut head, &mut prev, i + k, h);
                } else {
                    proof {
                        lemma_pass(data@, head@, prev@, i + k);
                    }
                }
                k = k + 1;
            }
            assert(out@ + tokens_from(data@, i + best_l) =~= out_before + tokens_from(
                data@,
                i as int,
            ));
            i = i + best_l;
        } else {
            out.push(0);
            out.push(data[i]);
            assert(out@ + tokens_from(data@, i + 1) =~= out_before + tokens_from(data@, i as int));
            i = i + 1;
        }
    }
    assert(tokens_from(data@, i as int) =~= seq![]);
    assert(out@ =~= out@ + tokens_from(data@, i as int));
    out
}

} // verus!
