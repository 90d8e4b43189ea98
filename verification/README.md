# ferrite-core

The core of Ferrite, a memory scanner and cheat-table tool for 64-bit Windows
processes, written in Verus.

- `src/` is the verified library: cheat-table script parsing and
  classification, `.CT` entry import, address expressions and pointer
  chains, module maps, value and byte-pattern scans (first scan, next scan,
  region and chunk bookkeeping), text encodings, the Lua API's argument and
  result handling, the freeze set, and the region walk. Each public function
  states its result in its contract; the properties that span several
  functions are public proof functions.
- `app/` performs the I/O around it: attaching to a process and reading and
  writing its memory through the Windows API, enumerating processes,
  modules, regions and icons, running the freeze thread and the Lua
  interpreter, reading `.CT` XML and saving tables as JSON. It hands the
  library plain values and acts on what the library decides.
- `tests/` runs the library on concrete inputs.

The desktop interface (egui windows, tables, file dialogs and theme) is not
part of this crate, and `app/` is a library with no binary: the interface's
decisions (value-type choices, labels, row states, manual entries, the
process picker's filter and summary) are in `src/choices.rs` and
`src/process.rs`, and what is left of it is drawing.
