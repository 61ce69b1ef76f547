# ldpc_rust

LDPC coding for the CCSDS (512, 256) code family and custom `(M, N)` block
codes, with the integer logic specified and proved in Verus.

## Layout

- `src/` — the verified library
  - `bitarray.rs`: packed bit arrays (`get_bit`, `set_bit`, `xor_bit`, `xor_bytes`)
    and their bit-level view.
  - `gf2.rs`: GF(2) sums, inner products and matrix products on bytes.
  - `encoder.rs`: the systematic encoder; `P = B^-1 A` by Gauss-Jordan
    elimination, proved to yield words that pass every parity check.
  - `tanner.rs`: row and column adjacency lists of a parity-check matrix.
  - `ldpc_decoder.rs`: hard-decision decoders (Gallager-A/B, WBF, MWBF, NWBF),
    each specified as one exact step on the unpacked word.
  - `spa_decoder_llr.rs`: the Tanner graph with edge numbering and the
    syndrome check used by the min-sum decoder, plus its result types.
  - `server_router.rs`: request checking and decoding logic of the service.
  - `correction.rs`: one-step single-error correction by Gallager-B, MWBF and NWBF.
  - `matrix_text.rs`: reading a matrix row written as `0`/`1` characters.
  - `channel.rs`: what a random draw does to the bits in the binary symmetric
    and burst-noise channels.
- `tests/` — tests of the library.
- `app/` — the HTTP service (`server` subcommand), the floating-point channel
  models, the min-sum decoder and the simulation tools (`bench`, `ber-spa`).
  The (512, 256) parity-check matrix is read at start-up from the file given
  by `--matrix` (256 lines of 512 `0`/`1` characters).
