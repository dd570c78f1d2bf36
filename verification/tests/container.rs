use pccx::{
    crc32, decode_finish, decode_start, encode, is_cut_short, is_pccx, lz_detok, lz_tokens, pack,
    put_u32, solid, version, DecodeStep, Engine, Op, HEADER_LEN, MAGIC, VER, VERSION,
};

/// Reads a container whose block is one of the crate's own seats.
fn decode_own(buf: &[u8]) -> Result<Vec<u8>, &'static str> {
    match decode_start(buf) {
        DecodeStep::Done(r) => r,
        DecodeStep::Run { .. } => panic!("block needs an outside engine"),
    }
}

/// Encodes with outside engines that leave the bytes as they are (so they
/// never win a seat).
fn encode_plain(data: &[u8]) -> Option<Vec<u8>> {
    encode(data, data, Ok(data.to_vec()), data, Ok(data.to_vec()))
}

#[test]
fn zeros() {
    let s = vec![0u8; 1000];
    let e = encode_plain(&s).unwrap();
    assert_eq!(decode_own(&e).unwrap(), s);
    assert!(e.len() < 40);
}

#[test]
fn repeat() {
    let s = b"the cat sat on the mat. the cat sat. ".repeat(80);
    let e = encode_plain(&s).unwrap();
    assert_eq!(decode_own(&e).unwrap(), s);
    assert!(e.len() < s.len());
}

#[test]
fn version_string() {
    assert_eq!(version(), "pccx-0.3.0");
    assert_eq!(version(), VERSION);
}

#[test]
fn crc32_known_values() {
    assert_eq!(crc32(b""), 0);
    assert_eq!(crc32(b"123456789"), 0xCBF4_3926);
    assert_eq!(crc32(b"The quick brown fox jumps over the lazy dog"), 0x414F_A339);
    assert_eq!(crc32(&[0u8]), 0xD202_EF8D);
}

#[test]
fn put_u32_little_endian() {
    let mut v = vec![9u8];
    put_u32(&mut v, 0x0403_0201);
    assert_eq!(v, vec![9, 1, 2, 3, 4]);
    put_u32(&mut v, u32::MAX);
    assert_eq!(v, vec![9, 1, 2, 3, 4, 255, 255, 255, 255]);
}

#[test]
fn op_codes() {
    assert_eq!(Op::Zero.code(), 0);
    assert_eq!(Op::Match.code(), 1);
    assert_eq!(Op::Bwt.code(), 2);
    assert_eq!(Op::Store.code(), 3);
    assert_eq!(Op::Aware.code(), 12);
}

#[test]
fn pack_layout() {
    let out = pack(5, 0xAABB_CCDD, Op::Store, b"hello");
    let mut want = vec![0x50, 0x43, 0x43, 0x31, 2];
    want.extend_from_slice(&[5, 0, 0, 0]);
    want.extend_from_slice(&[0xDD, 0xCC, 0xBB, 0xAA]);
    want.extend_from_slice(&[1, 0, 0, 0]);
    want.push(3);
    want.extend_from_slice(&[5, 0, 0, 0]);
    want.extend_from_slice(&[5, 0, 0, 0]);
    want.extend_from_slice(b"hello");
    assert_eq!(out, want);
    assert_eq!(out.len(), HEADER_LEN + 5);
    assert_eq!(&out[..4], &MAGIC);
    assert_eq!(out[4], VER);
}

#[test]
fn is_pccx_cases() {
    let f = pack(1, 2, Op::Zero, &[7]);
    assert!(is_pccx(&f));
    assert!(is_pccx(&f[..17]));
    assert!(!is_pccx(&f[..16]));
    assert!(!is_pccx(b""));
    let mut bad_magic = f.clone();
    bad_magic[0] = b'Q';
    assert!(!is_pccx(&bad_magic));
    let mut bad_ver = f.clone();
    bad_ver[4] = 3;
    assert!(!is_pccx(&bad_ver));
}

#[test]
fn solid_cases() {
    assert_eq!(solid(b""), None);
    assert_eq!(solid(b"a"), Some(b'a'));
    assert_eq!(solid(b"aaaa"), Some(b'a'));
    assert_eq!(solid(b"aaab"), None);
    assert_eq!(solid(b"baaa"), None);
}

#[test]
fn lz_tokens_exact_stream() {
    let t = lz_tokens(b"abcdabcdabcd");
    let want: Vec<u8> = vec![
        12, 0, 0, 0, 0, b'a', 0, b'b', 0, b'c', 0, b'd', 1, 4, 4, 0, 0, 0, 1, 4, 4, 0, 0, 0,
    ];
    assert_eq!(t, want);
    assert_eq!(lz_detok(&t).unwrap(), b"abcdabcdabcd".to_vec());
}

#[test]
fn lz_tokens_short_inputs_are_literals() {
    assert_eq!(lz_tokens(b""), vec![0, 0, 0, 0]);
    assert_eq!(lz_tokens(b"ab"), vec![2, 0, 0, 0, 0, b'a', 0, b'b']);
    assert_eq!(lz_detok(&[0, 0, 0, 0]).unwrap(), Vec::<u8>::new());
}

#[test]
fn lz_roundtrip_various() {
    let mut inputs: Vec<Vec<u8>> = vec![
        b"".to_vec(),
        b"x".to_vec(),
        b"aaaaaaaaaaaaaaaaaaaaaaaaaaaaaaaaaaaaaaaaa".to_vec(),
        b"the cat sat on the mat. the cat sat. ".repeat(20),
        vec![0u8; 5000],
    ];
    let mut v = Vec::new();
    let mut x: u32 = 12345;
    for _ in 0..20000 {
        x = x.wrapping_mul(1_103_515_245).wrapping_add(12345);
        v.push((x >> 24) as u8 % 7);
    }
    inputs.push(v);
    for s in inputs {
        let t = lz_tokens(&s);
        assert_eq!(lz_detok(&t).unwrap(), s);
        assert!(t.len() <= 4 + 2 * s.len());
    }
}

#[test]
fn lz_long_run_is_mostly_matches() {
    let s = vec![7u8; 1000];
    let t = lz_tokens(&s);
    assert!(t.len() < 200);
    assert_eq!(lz_detok(&t).unwrap(), s);
}

#[test]
fn lz_detok_errors() {
    assert_eq!(lz_detok(&[1, 0, 0]), Err("lz"));
    assert_eq!(lz_detok(&[2, 0, 0, 0, 0, b'a']), Err("lz trunc"));
    assert_eq!(lz_detok(&[2, 0, 0, 0, 0]), Err("lz lit"));
    assert_eq!(lz_detok(&[2, 0, 0, 0, 0, b'a', 1, 1, 1, 0, 0]), Err("lz m"));
    assert_eq!(lz_detok(&[2, 0, 0, 0, 1, 1, 0, 0, 0, 0]), Err("lz dist"));
    assert_eq!(lz_detok(&[2, 0, 0, 0, 0, b'a', 1, 1, 2, 0, 0, 0]), Err("lz dist"));
    assert_eq!(lz_detok(&[2, 0, 0, 0, 5]), Err("lz op"));
    assert_eq!(lz_detok(&[2, 0, 0, 0, 0, b'a', 1, 3, 1, 0, 0, 0]), Err("lz n"));
}

#[test]
fn lz_detok_overlapping_copy() {
    assert_eq!(lz_detok(&[5, 0, 0, 0, 0, b'z', 1, 4, 1, 0, 0, 0]).unwrap(), b"zzzzz".to_vec());
    assert_eq!(lz_detok(&[1, 0, 0, 0, 0, b'q', 0, b'r']).unwrap(), b"q".to_vec());
}

#[test]
fn decode_header_errors() {
    assert_eq!(decode_own(b"hello world, not a container"), Err("pccx"));
    let mut f = pack(1, crc32(&[7]), Op::Zero, &[7]);
    f[13] = 2;
    assert_eq!(decode_own(&f), Err("pccx blocks"));
    let mut f = pack(1, crc32(&[7]), Op::Zero, &[7]);
    f.push(0);
    assert_eq!(decode_own(&f), Err("pccx len"));
}

#[test]
fn decode_block_errors() {
    let f = pack(3, 0, Op::Zero, &[7, 7]);
    assert_eq!(decode_own(&f), Err("zero"));
    let f = pack(3, 0, Op::Store, &[7, 7]);
    assert_eq!(decode_own(&f), Err("store"));
    let mut f = pack(2, 0, Op::Store, &[7, 7]);
    f[17] = 9;
    assert_eq!(decode_own(&f), Err("op"));
    let f = pack(2, 0, Op::Match, &[1, 0, 0, 0, 0, 7, 0, 7]);
    assert_eq!(decode_own(&f), Err("n"));
    let f = pack(2, crc32(&[7, 7]) ^ 1, Op::Store, &[7, 7]);
    assert_eq!(decode_own(&f), Err("crc"));
    let f = pack(2, 0, Op::Match, &[9]);
    assert_eq!(decode_own(&f), Err("lz"));
}

#[test]
fn decode_own_seats() {
    let f = pack(4, crc32(b"aaaa"), Op::Zero, b"a");
    assert_eq!(decode_own(&f).unwrap(), b"aaaa".to_vec());
    let f = pack(2, crc32(b"hi"), Op::Store, b"hi");
    assert_eq!(decode_own(&f).unwrap(), b"hi".to_vec());
    let data = b"abcdabcdabcd";
    let f = pack(12, crc32(data), Op::Match, &lz_tokens(data));
    assert_eq!(decode_own(&f).unwrap(), data.to_vec());
}

#[test]
fn decode_outside_seats_ask_for_engine() {
    let f = pack(3, crc32(b"abc"), Op::Bwt, b"xyz");
    match decode_start(&f) {
        DecodeStep::Run { engine, blob, raw_len, crc } => {
            assert_eq!(engine, Engine::Bwt);
            assert_eq!(blob, b"xyz".to_vec());
            assert_eq!(raw_len, 3);
            assert_eq!(crc, crc32(b"abc"));
            assert_eq!(decode_finish(raw_len, crc, Ok(b"abc".to_vec())), Ok(b"abc".to_vec()));
            assert_eq!(decode_finish(raw_len, crc, Ok(b"abd".to_vec())), Err("crc"));
            assert_eq!(decode_finish(raw_len, crc, Ok(b"ab".to_vec())), Err("n"));
            assert_eq!(decode_finish(raw_len, crc, Err("bwt")), Err("bwt"));
        }
        DecodeStep::Done(_) => panic!("expected an engine step"),
    }
    let f = pack(3, crc32(b"abc"), Op::Aware, b"q");
    match decode_start(&f) {
        DecodeStep::Run { engine, blob, .. } => {
            assert_eq!(engine, Engine::Aware);
            assert_eq!(blob, b"q".to_vec());
        }
        DecodeStep::Done(_) => panic!("expected an engine step"),
    }
}

#[test]
fn cut_short_headers() {
    let f = pack(1, crc32(&[7]), Op::Zero, &[7]);
    assert!(!is_cut_short(&f));
    assert!(is_cut_short(&f[..20]));
    assert!(is_cut_short(&f[..17]));
    assert!(!is_cut_short(&f[..16]));
    let mut g = f[..20].to_vec();
    g[13] = 2;
    assert!(!is_cut_short(&g));
    assert_eq!(decode_own(&g), Err("pccx blocks"));
}

#[test]
fn encode_empty_and_tiny() {
    assert_eq!(encode_plain(b""), None);
    assert_eq!(encode_plain(b"a"), None);
    assert_eq!(encode_plain(b"abcdefghij"), None);
    assert_eq!(encode_plain(&[5u8; 27]), None);
}

#[test]
fn encode_zero_seat_exact() {
    let s = vec![9u8; 28];
    let e = encode_plain(&s).unwrap();
    assert_eq!(e, pack(28, crc32(&s), Op::Zero, &[9]));
    assert_eq!(e.len(), HEADER_LEN + 1);
    assert_eq!(decode_own(&e).unwrap(), s);
}

#[test]
fn encode_match_seat_exact() {
    let s = b"the cat sat on the mat. the cat sat. ".repeat(10);
    let e = encode_plain(&s).unwrap();
    assert_eq!(e, pack(s.len() as u32, crc32(&s), Op::Match, &lz_tokens(&s)));
    assert_eq!(e[17], 1);
}

#[test]
fn encode_never_larger_than_input() {
    let mut x: u32 = 99;
    for len in [1usize, 5, 26, 27, 28, 40, 100, 1000] {
        let mut s = Vec::new();
        for _ in 0..len {
            x = x.wrapping_mul(1_664_525).wrapping_add(1_013_904_223);
            s.push((x >> 24) as u8);
        }
        if let Some(e) = encode_plain(&s) {
            assert!(e.len() < s.len());
            assert!(is_pccx(&e));
            assert_eq!(decode_own(&e).unwrap(), s);
        }
    }
}

#[test]
fn encode_prefers_shorter_bwt_block() {
    let s = b"the cat sat on the mat. the cat sat. ".repeat(10);
    let bwt = vec![1u8, 2, 3];
    let e = encode(&s, &bwt, Ok(s.clone()), &s, Ok(s.clone())).unwrap();
    assert_eq!(e, pack(s.len() as u32, crc32(&s), Op::Bwt, &bwt));
    match decode_start(&e) {
        DecodeStep::Run { engine, raw_len, crc, .. } => {
            assert_eq!(engine, Engine::Bwt);
            assert_eq!(decode_finish(raw_len, crc, Ok(s.clone())).unwrap(), s);
        }
        DecodeStep::Done(_) => panic!("expected an engine step"),
    }
}

#[test]
fn encode_refuses_when_engine_cannot_read_back() {
    let s = b"the cat sat on the mat. the cat sat. ".repeat(10);
    let bwt = vec![1u8, 2, 3];
    assert_eq!(encode(&s, &bwt, Err("bwt"), &s, Ok(s.clone())), None);
    let mut wrong = s.clone();
    wrong[0] ^= 1;
    assert_eq!(encode(&s, &bwt, Ok(wrong), &s, Ok(s.clone())), None);
}

#[test]
fn encode_aware_seat_rules() {
    let s = b"the cat sat on the mat. the cat sat. ".repeat(10);
    let gc = vec![0xA0u8, 1, 2, 3];
    let e = encode(&s, &s, Ok(s.clone()), &gc, Ok(s.clone())).unwrap();
    assert_eq!(e, pack(s.len() as u32, crc32(&s), Op::Aware, &gc));
    // Its decoder must give the input back, or the seat is not taken.
    let e = encode(&s, &s, Ok(s.clone()), &gc, Err("frame")).unwrap();
    assert_eq!(e[17], 1);
    // Foreign formats never take the seat.
    for foreign in [
        vec![0x1fu8, 0x8b, 0, 0],
        b"XZ1\0".to_vec(),
        b"ZLB1".to_vec(),
        b"BZh9".to_vec(),
        b"BZ1\0\x10\0\0\0".to_vec(),
    ] {
        let e = encode(&s, &s, Ok(s.clone()), &foreign, Ok(s.clone())).unwrap();
        assert_eq!(e[17], 1);
    }
    // A three-byte "BZh" is too short to count as foreign.
    let e = encode(&s, &s, Ok(s.clone()), b"BZh", Ok(s.clone())).unwrap();
    assert_eq!(e[17], 12);
}

#[test]
fn encode_ties_keep_the_earlier_seat() {
    let s = b"the cat sat on the mat. the cat sat. ".repeat(10);
    let lz = lz_tokens(&s);
    let e = encode(&s, &lz, Ok(s.clone()), &s, Ok(s.clone())).unwrap();
    assert_eq!(e[17], 1);
}
