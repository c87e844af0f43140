# binius64

Verified building blocks of the Binius64 M4 proof system, written in Verus.

- `transcript`: the proof tape written by the prover and read back by the verifier, with the
  bytes each side's Fiat-Shamir challenger absorbs; the round-trip law states that a verifier
  mirroring the prover's steps reads back exactly what was written and absorbs the same bytes.
- `value_table`: the instance-major batch witness of `2^k` circuit instances and the zero-padded
  public-word segment.
- `bitand`: word shifts, operand evaluation and the batched AND-check operand columns.
- `and_reduction`: reshaping word columns into fixed-length chunks.
- `logup_witness`: the index-dependent logUp* witnesses (denominators and the pushforward) over
  128-bit binary-field underliers, with the pushforward/pullback duality for 0/1 tables.
- `intmul_witness`: the two-valued selector columns of the integer-multiplication witness.
- `claims`: the claim records exchanged between reductions and the logUp* input check.
- `bit_reverse`: bit reversal of integers and the in-place bit-reversal permutation, of plain
  slices and of packed buffers (pairwise, and in two phases that move whole packed elements).
- `packed_buffer`: scalars held in packed elements of a power-of-two width.
- `crc64`: the CRC-64/GO-ISO computation over four words.
- `round_state`: the execute/fold call discipline of sumcheck-style provers.
- `bitwise`: selecting one bit position out of a slice of integers.
- `par_iter`: sequential counterparts of the indexed parallel-iterator adaptors.

`app/` holds the process-level glue (build-dependent default options, the optional proof dump).

## What stays outside

The sumcheck, zerocheck, IntMul, shift and logUp* reductions (their provers and verifiers, the
Gruen eq trackers, the MLE store, the exponentiation trees, the NTT and low-degree extension, and
the IOP verifier) compute with binary-field arithmetic and packed fields from the project's field,
math and core crates, which are not part of this crate's sources. Their logic cannot be parted from
that arithmetic, so they are not here. What they hand around that needs no field arithmetic (the
claim records, the witness table, the operand columns, the index witnesses, the selector columns,
the bit-reversal permutation and the transcript) is here and verified. Challenge sampling from the
transcript's absorbed bytes rests on the Fiat-Shamir challenger of that same code base and is not
provided either.
