# microps_utils

The utility layer of a small TCP/IP stack, verified with Verus:

- `src/byteorder.rs`: byte swapping, the host's byte order and network-to-host
  conversion of 16- and 32-bit words.
- `src/checksum.rs`: the 16-bit one's-complement Internet checksum.
- `src/hexdump.rs`: rendering a buffer as a hex-dump table.
- `src/queue.rs`: a generic first-in, first-out queue of entries.
- `src/handle_queue.rs`: a first-in, first-out queue of opaque handles with an
  entry count, as the C side of the stack uses it.

`app/lib.rs` exports these with C calling conventions: it turns raw pointers,
C strings and `FILE` streams into slices and handles, and does the writing.
