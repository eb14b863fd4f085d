# omegaflow

The verified core of the Omegaflow server, written in Verus.

- `src/stream.rs`: the binary stream sent to the viewer (four little-endian
  `u32` section lengths, then the sections), its reader, and the encoding of
  float payloads as little-endian words.
- `src/magnetic.rs`: counts and layouts of magnetic-model coefficient tables.
- `src/masses.rs`: which bodies are streamed, heaviest first.
- `src/tile.rs`: one-degree elevation tiles read from big-endian sample files.
- `src/ephemeris.rs`, `src/calendar.rs`: the lookups into `anise` and `time`
  that feed them.
- `app/`: the HTTP servers, file loading and the floating-point geometry.
- `tests/`: tests of the library on concrete values.
