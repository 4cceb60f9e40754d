# oxiaudio_codec

Verified parts of audio codecs, written in Verus: the Opus range coder and CELT
layer, Vorbis packets, AAC-LC parsing, and Ogg pages.

- `src/` is the library. Every function has a contract over a mathematical
  model: a range coder is an interval of numbers, a Vorbis packet a run of bits,
  an Ogg stream a sequence of packets. The `*_laws` modules state what holds of
  several functions together, such as that a decoder reads back what an encoder
  wrote.
- `tests/` runs the library on concrete values. Opus frames are handed to an
  independent Opus decoder, which must end with the encoder's final range.
- `app/` is the floating-point side: transforms, psychoacoustics, quantisers,
  files and streams.
