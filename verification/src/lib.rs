//! PCCX: a single-block container that stores a buffer under the smallest
//! of several encodings ("seats") and guards it with a CRC-32.
//!
//! * `crc`   — the CRC-32 that every container records for its contents.
//! * `frame` — the PCC1 header: layout, `pack`, `is_pccx`.
//! * `lz`    — the MATCH seat: a greedy hash-chain LZ77 coder and decoder.
//! * `codec` — choosing the seat (`encode`) and reading a container back
//!   (`decode_start`, `decode_finish`), with the laws that tie them together.
use vstd::prelude::*;

pub mod codec;
pub mod crc;
pub mod frame;
pub mod lz;

pub use codec::{decode_finish, decode_start, encode, is_cut_short, solid, DecodeStep, Engine};
pub use crc::crc32;
pub use frame::{is_pccx, pack, put_u32, Op, HEADER_LEN, MAGIC, VER};
pub use lz::{lz_detok, lz_tokens};

verus! {

/// Version string of this build.
pub const VERSION: &'static str = "pccx-0.3.0";

/// Returns the version string.
pub fn version() -> (r: &'static str)
    ensures
        r == VERSION,
{
    VERSION
}

} // verus!
