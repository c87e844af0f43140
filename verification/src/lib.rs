//! Verified building blocks of the Binius64 M4 proof system: the proof transcript, the batch
//! witness table and its AND-check operand columns, the logUp* index witnesses, the bit-reversal
//! permutation of plain and packed buffers, the CRC-64 reference computation, and the sequential
//! indexed-iterator adaptors.
use vstd::prelude::*;

pub mod and_reduction;
pub mod bit_reverse;
pub mod bitand;
pub mod bitwise;
pub mod claims;
pub mod crc64;
pub mod intmul_witness;
pub mod logup_witness;
pub mod packed_buffer;
pub mod par_iter;
pub mod round_state;
pub mod transcript;
pub mod value_table;
