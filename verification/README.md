# memlib

A pointer-chain memory inspection library, verified with Verus, and a
command-line front end around it.

The library decides everything that does not need the operating system:
how offsets and addresses are written and parsed, where a pointer chain
leads, what a scan reads next and which results it keeps, how eight bytes
decode in every width, how entity tables are walked, how processes are
named, ordered and filtered, and how results are exported as a C++ header.
Reading and writing another process's memory happens in `app/`, which
hands the bytes it read to the library's state machines (`PointerChain`,
`MemoryScan`, `EntityScan`) and performs the reads they ask for.

## Layout

- `src/text.rs`, `src/number.rs`, `src/format.rs`: characters, integer
  parsing with the standard library's error kinds, hex and decimal text.
- `src/parse.rs`: offsets (`0x40+0x20`, `0x40,0x20` or `[[base]+0x40]+0x20]`)
  and base addresses.
- `src/memory.rs`: little-endian decoding and encoding, and the reading of
  an address in every width.
- `src/chain.rs`: following a pointer chain, one read at a time.
- `src/scan.rs`, `src/entity.rs`: the offset scan and the entity scan.
- `src/process.rs`: process names, ordering and filtering.
- `src/export.rs`: the C++ header export.
- `src/roundtrip.rs`: laws that relate printing and parsing.
- `src/header_laws.rs`: laws about the exported header.
- `app/`: the command-line program, the Windows process access and the
  JSON files of saved scans.

Floating-point readings are kept as their bit patterns in the library and
shown as floats by the program.
