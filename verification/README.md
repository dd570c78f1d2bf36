# pccx

A single-block container (`PCC1`) that stores a buffer under the smallest of
several encodings and guards it with a CRC-32. The library in `src/` is
verified with Verus:

- `crc.rs`: CRC-32, specified bit by bit.
- `frame.rs`: the 26-byte header, `pack` and `is_pccx`.
- `lz.rs`: the MATCH seat, a greedy hash-chain LZ77 coder, with the proof
  that decoding its stream gives the input back.
- `codec.rs`: seat selection (`encode`), reading a container
  (`decode_start`, `decode_finish`), and the laws that connect them.

Two seats, BWT and AWARE, come from engines outside the library. `encode`
and `decode_finish` take those engines' results as plain values; `app/`
runs the engines and drives the library from the command line.
