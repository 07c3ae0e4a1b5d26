# pngfier

A library that hides data "inside" an image: the data is mapped onto runs of
elements that already occur in the image (reference chunks) and elements that
do not (literal chunks), and a key records those chunks. Extracting reads the
key back and rebuilds the data from the image and the key.

The library is written in Verus; every function under `src/` is verified
against its contract, except the six small wrappers in
`src/chunks/storage/bits.rs` that call `bitstream-io`: their contracts are
trusted, as each one's doc comment says, and the functions built on them are
verified against those contracts.

- `src/streams`: positioned streams of bytes or elements (in-memory streams,
  spans over a stream, a search), with contracts over their contents. A
  stream says whether its medium is reliable and how far its positions go;
  over reliable streams the contracts also say when each operation, and each
  operation built on streams, succeeds.
- `src/elems.rs`: elements and matrices of index sets keyed by element pairs.
- `src/chunks/mapping`: the reach mapper (best match of each data position in
  the image, found through a matrix of bigram positions) and the greedy
  mapping of data onto chunks.
- `src/chunks/storage`: the key format (bit fields through `bitstream-io`),
  its writer and reader (which reads records with the widths the key starts
  with), and the proof that a key written for chunks is read back as the
  elements the chunks stand for.
- `src/cli`: commands, configuration choices, and the compile and extract
  operations.
- `app/`: the command-line program (argument parsing with `clap`, file I/O).
- `tests/`: tests of the library.
