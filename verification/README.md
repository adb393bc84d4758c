# scrub-rs

A btrfs data scrub for single-device filesystems on a NonRAID/unRAID array, with
recovery of corrupt sectors from the array's P and Q parity. Every sector is
checked against the checksum tree; a mismatch is re-confirmed against live
metadata, rebuilt from parity, and written back only if the rebuilt block has the
stored checksum.

## Layout

- `src/` is the library, verified with Verus. It does no I/O: reads, writes,
  freezing and reporting are closures that the caller supplies, and contracts say
  what the library does with what they return.
  - `recovery/`: arithmetic in GF(2^8), the P, Q and two-disk paths, and the laws
    of parity.
  - `array/`: array configuration, stripes, syndromes, one-sector recovery.
  - `btrfs/`: on-disk structures, verified node reads, tree walks, checksum
    ranges, read isolation, the scrub, and re-confirmation.
  - `batch_recover`, `freeze`, `canary`: the batched recovery writer and what
    guards it.
  - `cli`, `status`, `craft`: the command line, the status page, and crafted
    corruptions for recovery tests.
- `tests/` runs the library over disks and filesystems in memory.
- `app/` is the program: devices, threads, sockets, signals and printing.

## What is trusted

`src/hash.rs` calls the checksum crates and names their results. `parallel_csums`
in `src/btrfs/scrub.rs` hashes sectors on rayon's thread pool. `src/text.rs`
states what `String::push` does, and names what std's `Debug` writes for a text.
Everything else is proved.
