# hash_benches

Support code for benchmarking hash functions: generation of pseudo-random data
blocks from a seed, and rendering of byte counts in human-readable units.

- `src/` is the verified library (Verus):
  - `human.rs`: `bytes_to_human_readable`, specified exactly over integers
    (rounding to double precision, choice of unit, two decimals with ties to
    even), with proved laws on the shown number.
  - `decimal.rs`: base-ten rendering of naturals.
  - `data.rs`: `generate_data_block` and
    `generate_data_blocks_for_async_benchmarking`, and the derivation of the
    generator seed from a seed value.
  - `outside.rs`: the trusted items around `rand` and `zerocopy`.
- `app/` holds `system_info`, the asynchronous reading of memory and CPU usage
  through `heim`.
- `tests/` runs the library, and compares `bytes_to_human_readable` with the
  same computation in double precision.
