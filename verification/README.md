# mergehex-rs

Merges Intel HEX, raw binary and ELF images into a single Intel HEX image.

- `src/` is the library, verified with Verus:
  - `hex.rs`: Intel HEX records — parsing a record line, reading a file line by
    line, and writing a memory image as records;
  - `hex_laws.rs`: the written text, split at its newlines into lines, reads
    back as the image again, for images whose addresses all lie below 4 GiB
    (higher addresses wrap, as extended linear address records hold 16 bits);
  - `memory.rs`: the sparse memory image, overlap policies and contiguous chunks;
  - `input.rs`: input specifications (`path[@offset]`), format names and offsets;
  - `elf.rs`: the bytes of the loadable segments of an object file (read with the
    `object` crate);
  - `text.rs`: trimming, number parsing, message texts and UTF-8 facts shared
    by the parsers.
- `app/main.rs` is the command line: argument parsing, reading the inputs and
  writing the output file.
- `tests/` exercises the library.
