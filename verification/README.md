# md5_simd

MD5 (RFC 1321) for batches of independent messages and for many live streams,
with the schedulers proved to compute MD5.

- `model` — MD5 as spec functions: the compression function, the padding
  rule, the digest of a message, and the abstract incremental stream
  (`absorb`, `snapshot`), with the laws that relate them.
- `compress`, `frame`, `backend` — the single-stream compressor, the final
  block builder and the one-shot digest.
- `state` — `Md5State`, a copyable incremental state.
- `platform` — the multi-buffer kernel that advances several streams in
  lockstep.
- `simd` — `hash_many_dispatch` (equal-length runs through the fused kernel,
  other messages through the lane-refill scheduler) and
  `update_many_dispatch` (windows of live streams).

Every function in `src/` is verified; the crate has no trusted items.
