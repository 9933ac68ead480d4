# oxideav-hdr

A reader and writer for Radiance RGBE pictures (`.hdr` / `.pic`).

- `src/` is the byte-level codec, verified with Verus: the text header
  (magic line, program lines, `FORMAT`, the typed records, `VIEW` merging),
  the resolution line and its axis flags, the limits checked before any
  pixel is read, the three scanline codings (new RLE, old RLE with run
  sentinels, flat), the eight picture symmetries on pixel buffers, and
  whole files of RGBE quads. `roundtrip.rs` proves that what the encoder
  writes the decoder reads back.
- `app/` is the float layer around it: RGBE to float RGB, exposure, colour
  correction, gamma, tone mapping, CIE XYZ, and the `oxideav-core` codec and
  container registration.
- `tests/` runs the library on concrete files and buffers.
