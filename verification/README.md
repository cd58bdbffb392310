# yip

Data over Opus audio by parallel tone-position FSK, as a formally verified
library with a thin command-line program around it.

- `src/` — the verified library: configuration arithmetic and the wire
  header (`config`), packet framing with CRC-32 (`framing`), zstd payload
  compression (`compress`), byte/symbol packing and the symbol side of stream
  decoding (`modulation`, `bits`), the Opus packet container (`opus`), the
  `.yip` file layout (`container`), the pilot, CRAM, differential and
  constellation schemes' integer logic (`pilot`, `cram`, `differential`,
  `constellation`), streaming frame scheduling (`stream`), throughput and
  overhead figures (`quant`) and the bitrate tiers (`tiers`).
- `app/` — the `yote` program: tone synthesis and detection (floating point),
  libopus encoding and decoding, WAV/`.yip`/`.opus` file I/O and the CLI.
- `tests/` — tests of the library.
