# compcol

Compression codecs in Rust, verified with Verus: PackBits, RLE90, move-to-front,
an adaptive range coder, LZSS, LZS, LZNT1, raw LZMA2, the decoders of RAR 3 and of
PPMd (variant H), the Huffman coding of LZX and of StuffIt 13, the filters of RAR 5,
and QPACK with its static table, its dynamic table and its string code.

* `src/` is the library. Each module states what its functions return by spec
  functions, and proves it. Laws that relate several functions are public proof
  functions: that decoding inverts encoding, that the way in which calls cut the
  input does not show in the output, that a table stays within its capacity.
* `tests/` runs the library on concrete streams.
* `app/` adapts codecs to tokio's streams. What it decides between two reads or
  writes stands in `src/pump.rs`.
