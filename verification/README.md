# Bang

A UEFI bootloader for Multiboot kernels, Linux bzImages and other UEFI
applications, whose decisions are proved correct with Verus.

- `src/` is the library: everything Bang works out from bytes it has read and
  values the firmware has handed it, each function with a contract and the
  properties that span functions stated and proved as lemmas.
  - `config` — the `\bang.cfg` format and what any text of it means;
  - `discover` — what to look for on each volume, what a find is called, and
    how finds join the configured entries;
  - `menu` — the boot menu as a state machine driven by keys and ticks;
  - `elf` — recognising a kernel (ELF32/ELF64, Multiboot1/2 headers), planning
    its segments, and choosing how it is entered;
  - `modules` — the boot-module name table;
  - `multiboot` — the Multiboot1 and Multiboot2 information structures;
  - `linux` — the bzImage setup header and the boot parameters of the EFI
    handover protocol;
  - `gop`, `le`, `text`, `ucs2` — the framebuffer description, little-endian
    bytes, reading text, and UEFI's string encoding.
- `app/` is the UEFI program around it: file and protocol access, allocation,
  the console, and the jumps into kernels.
- `tests/` runs the library on concrete inputs.
