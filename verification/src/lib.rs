//! Byte-order conversion, the Internet checksum, a hex-dump renderer and
//! FIFO queues, the utility layer of a small TCP/IP stack.

pub mod byteorder;
pub mod checksum;
pub mod hexdump;
pub mod queue;
pub mod handle_queue;
