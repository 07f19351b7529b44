# vostok_pdb_parser

Tools for matching a rebuilt program against the one it was rebuilt from.

`src/` is the library, verified with Verus:

- `rich_context`: for every function, its disassembly interleaved with the source statements
  that produced it, grouped by source file. `listing` renders one function, `disasm` decodes
  and formats its instructions, `statements` splits it, `symbols` names addresses, `pe` finds
  the code section, `report` orders the blocks and lays out the output.
- `rich_objdiff`: the diff of one function between two object files.
- `checksums`: the source files behind two programs, compared by the checksums in their PDBs.
- `text`, `error`: what the others share.

`app/` reads the files, hands the library plain records and writes what it returns. Its `main`
prints the comparison of two PDBs by checksum.

Disassembly, PE parsing, the decoding of recorded names and the diff of objects are done by
`iced-x86`, `object`, `pdb` and `objdiff-core`. The functions marked
`#[verifier::external_body]` make those calls; their doc comments say what is taken on trust.
