# blockdev

Verified helpers for block devices: decoding what `lsblk` and `sfdisk`
report, reading size strings, walking a device's parent hierarchy, the
bookkeeping of loopback devices, and splitting declared paths into the
parent to resolve and the leaf to keep.

- `src/` is the library, proved with Verus: `text` and `num` (characters,
  lines, trimming, decimal integers), `size`, `lsblk`, `device`,
  `partition`, `loopback` and `path_parts`.
- `app/` runs the commands, reads sysfs, decodes JSON with serde, resolves
  paths with `cap-std-ext`, and sets up tracing; it hands plain values to
  the library.
- `tests/` exercises the library, comparing it with `std` and `regex` where
  they do the same thing.
