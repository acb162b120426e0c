# lzma_core

The verified core of an LZMA2, XZ and LZIP codec. Everything under `src/` is written in Verus and
proved against its contracts; `app/` connects it to readers, writers and threads of the standard
library.

- `lz`: the sliding window, the hash chain match finder and the dictionary of the decoder
- `range_dec`: the range decoder
- `lzma2_reader`: the LZMA2 chunk reader
- `xz`: checksums, variable length integers, filters, and what XZ readers and writers decide
- `lzip`: finding the members of a file, and reading them in parallel
- `mt`, `enc`: splitting work, putting results back in order, and the parallel LZMA2 writer

The checksums are those of the crates `crc` and `sha2`. Three small functions in `src/xz/check.rs`
call them; within `src/` their contracts are the only ones that are not proved. Verus does not read
`app/`: that its reader keeps the contract of the trait `Read`, and that it calls the library as the
library requires, is not proved either.
