# raid reassembly, verified core

A command-line tool that infers RAID parameters from raw disk images and
rebuilds logical volumes (RAID-0, RAID-1, RAID-5 in four layouts, and RAID-5
with one disk missing). The logic is written in Verus and proved against its
contracts; the program around it reads and writes files.

- `src/` — the verified library (crate `lib`):
  - `features` — zero blocks, XOR of blocks, parity rows, byte histograms,
    and the parity laws (a parity block completes a row; any one block of a
    parity row is the XOR of the others; the order of the blocks does not
    matter).
  - `image` — images as path and size; the smallest image size; the
    block-by-block scan that counts zero blocks.
  - `raid` — disk orders, RAID-5 parity rotation and data-disk order, the
    map of surviving disks, and assembly plans that name, row by row, the
    stripe of each image (or the XOR rebuild) that makes up the volume;
    a degraded array's plan gives the bytes of the complete array's plan.
  - `detect` — row classification, the row scan and its counts, entropy edges,
    stripe-size votes and their stable ranking, size formatting.
  - `report` — the JSON and Markdown reports and the console summary; JSON
    string decoding gives back every escaped text.
  - `cli` — parsing of subcommands, options, sizes and disk orders.
  - `text` — character-level helpers (decimal numbers, trimming, case).
- `app/` — the program: file reading and writing, block entropy and the
  floating-point candidate scores, which it writes out as decimal text for
  the reports.
- `tests/` — tests of the library.
