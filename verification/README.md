# oxideav-pbm

A Netpbm image codec — PBM / PGM / PPM / PNM (`P1`–`P6`), PAM (`P7`) and
the Portable FloatMap (`Pf` / `PF`) — written in Verus. Every header
reader, body decoder and writer carries a contract over a mathematical
model of its bytes, and Verus proves the code against it.

## Layout

- `src/` — the verified library.
  - `lex`, `numtext`: whitespace, comments, decimal tokens, Unicode
    trimming, the unsigned-integer and float-literal grammars of PAM and
    PFM headers, UTF-8 checks.
  - `binary32`: when a decimal scale literal, read as an IEEE-754
    binary32 value, becomes an infinity or a zero — stated in exact
    integer arithmetic over its digits, decided by digit comparison.
  - `header`: the magic, PNM / PAM / PFM header models and readers, the
    comment walker.
  - `ascii`, `binary`, `pfm`: plain, binary and float bodies.
  - `decoder`, `encoder`: whole images, streams of images, the binary,
    plain and explicit-format writers, and the writers' laws (row padding
    is never written; the `Auto*` selectors are the binary and plain
    writers; a selector is unsupported exactly for the formats it cannot
    write).
  - `image`, `error`: the image model and errors; every error a contract
    speaks of carries its exact message.
  - `written`: whatever plane the binary or plain writer accepts, what it
    writes reads back as the plane's rows packed tightly, whatever bytes
    follow.
  - `recode`, `plain_recode`, `streams`: the round-trip laws — decoding,
    re-encoding and decoding again is a fixed point; every image in the
    decoder's shape written by the binary, plain or float-map writer reads
    back as itself; a stream of written images is walked back into exactly
    those images.
- `tests/` — tests against the compiled library.
- `app/` — the oxideav framework glue (codec and container registration,
  demuxer / muxer / decoder / encoder objects) and the `f32` helpers of the
  float-map API (scale factors applied to samples, scale printing).
