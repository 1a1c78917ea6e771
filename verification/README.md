# dss_codec

Container handling for Olympus, Philips and Grundig dictation files (`.dss`,
`.ds2`), verified with [Verus](https://github.com/verus-lang/verus).

- `src/demux`: the DS2 container. Where its blocks begin, which mode they are
  in, the packets of the SP mode, the segments of the QP mode and the records of
  the QP7 mode; at once for a whole file, or while its bytes arrive.
- `src/codec`: the bit fields of the QP and QP7 modes and the bookkeeping of the
  excitation.
- `src/streaming`: recognising a file while its bytes arrive, plain or
  encrypted. Every call says what is to be deciphered or decoded next.
- `app`: floating-point synthesis, and the streams that run the steps with the
  demultiplexers, codecs and block decryptor that a `Backends` supplies.

Every public function states in its contract what it returns, over spec
functions of the same module. What relates several functions is stated by the
proof functions whose names begin with `law_`.
