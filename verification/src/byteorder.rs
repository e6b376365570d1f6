//! Byte swapping and network-to-host conversion of 16- and 32-bit words.

use vstd::prelude::*;
use vstd::endian::{endianness, Endian};

verus! {

/// The 16-bit word whose two bytes are those of `v` in the other order.
pub open spec fn swapped16(v: u16) -> int {
    (v % 0x100) * 0x100 + v / 0x100
}

/// The 32-bit word whose four bytes are those of `v` in reverse order.
pub open spec fn swapped32(v: u32) -> int {
    (v % 0x100) * 0x100_0000 + ((v / 0x100) % 0x100) * 0x1_0000 + ((v / 0x1_0000) % 0x100)
        * 0x100 + v / 0x100_0000
}

/// Exchanges the two bytes of a 16-bit word.
pub fn byteswap16(v: u16) -> (r: u16)
    ensures
        r == swapped16(v),
{
    let r: u16 = ((v & 0x00ff) << 8) | ((v & 0xff00) >> 8);
    assert(r == (v % 0x100) * 0x100 + v / 0x100) by (bit_vector)
        requires
            r == ((v & 0x00ff) << 8) | ((v & 0xff00) >> 8),
    ;
    r
}

/// Reverses the four bytes of a 32-bit word.
pub fn byteswap32(v: u32) -> (r: u32)
    ensures
        r == swapped32(v),
{
    let r: u32 = ((v & 0x0000_00ff) << 24) | ((v & 0x0000_ff00) << 8) | ((v & 0x00ff_0000) >> 8)
        | ((v & 0xff00_0000) >> 24);
    assert(r == (v % 0x100) * 0x100_0000 + ((v / 0x100) % 0x100) * 0x1_0000 + ((v / 0x1_0000)
        % 0x100) * 0x100 + v / 0x100_0000) by (bit_vector)
        requires
            r == ((v & 0x0000_00ff) << 24) | ((v & 0x0000_ff00) << 8) | ((v & 0x00ff_0000) >> 8)
                | ((v & 0xff00_0000) >> 24),
    ;
    r
}


/// The value that `byteorder` reports for a host that stores the
/// least significant byte of a word first.
pub const LITTLE_ENDIAN: i32 = 1234;

/// The value that `byteorder` reports for a host that stores the
/// most significant byte of a word first.
pub const BIG_ENDIAN: i32 = 4321;

/// The byte order of the machine that runs the code, in the form in which
/// `byteorder` reports it; `endianness` is vstd's name for the byte order
/// of the executing hardware.
pub open spec fn host_byte_order() -> i32 {
    match endianness() {
        Endian::Little => LITTLE_ENDIAN,
        Endian::Big => BIG_ENDIAN,
    }
}

/// The four bytes of `w` in memory order on a host of byte order `order`:
/// least significant first on a little-endian host, most significant first
/// otherwise.
pub open spec fn bytes32(order: i32, w: u32) -> Seq<u8> {
    let b0 = (w % 0x100) as u8;
    let b1 = ((w / 0x100) % 0x100) as u8;
    let b2 = ((w / 0x1_0000) % 0x100) as u8;
    let b3 = (w / 0x100_0000) as u8;
    if order == LITTLE_ENDIAN {
        seq![b0, b1, b2, b3]
    } else {
        seq![b3, b2, b1, b0]
    }
}

/// The in-memory form of `w` on this host, from `u32::to_ne_bytes`: its
/// bytes least significant first on little-endian hardware and most
/// significant first on big-endian hardware.
#[verifier::external_body]
fn native_bytes32(w: u32) -> (b: [u8; 4])
    ensures
        b@ == bytes32(host_byte_order(), w),
{
    w.to_ne_bytes()
}

/// The byte order named by the first in-memory byte of the word 1.
pub fn byteorder_from_probe(first_byte: u8) -> (r: i32)
    ensures
        r == (if first_byte == 1 { LITTLE_ENDIAN } else { BIG_ENDIAN }),
{
    if first_byte == 1 {
        LITTLE_ENDIAN
    } else {
        BIG_ENDIAN
    }
}

/// The byte order of the host: `LITTLE_ENDIAN` or `BIG_ENDIAN`.
pub fn byteorder() -> (r: i32)
    ensures
        r == host_byte_order(),
        r == LITTLE_ENDIAN || r == BIG_ENDIAN,
{
    let probe: [u8; 4] = native_bytes32(1);
    byteorder_from_probe(probe[0])
}

/// What `ntoh16` gives on a host of byte order `order`: the bytes are
/// exchanged on a little-endian host and kept otherwise.
pub open spec fn network_to_host16(order: i32, n: u16) -> int {
    if order == LITTLE_ENDIAN {
        swapped16(n)
    } else {
        n as int
    }
}

/// What `ntoh32` gives on a host of byte order `order`.
pub open spec fn network_to_host32(order: i32, n: u32) -> int {
    if order == LITTLE_ENDIAN {
        swapped32(n)
    } else {
        n as int
    }
}

/// Converts a 16-bit word from network byte order to that of a host
/// whose byte order is `order`.
pub fn ntoh16_for_order(order: i32, n: u16) -> (r: u16)
    ensures
        r == network_to_host16(order, n),
{
    if order == LITTLE_ENDIAN {
        byteswap16(n)
    } else {
        n
    }
}

/// Converts a 32-bit word from network byte order to that of a host
/// whose byte order is `order`.
pub fn ntoh32_for_order(order: i32, n: u32) -> (r: u32)
    ensures
        r == network_to_host32(order, n),
{
    if order == LITTLE_ENDIAN {
        byteswap32(n)
    } else {
        n
    }
}

/// Converts a 16-bit word from network byte order to host byte order.
pub fn ntoh16(n: u16) -> (r: u16)
    ensures
        r == network_to_host16(host_byte_order(), n),
{
    ntoh16_for_order(byteorder(), n)
}

/// Converts a 32-bit word from network byte order to host byte order.
pub fn ntoh32(n: u32) -> (r: u32)
    ensures
        r == network_to_host32(host_byte_order(), n),
{
    ntoh32_for_order(byteorder(), n)
}

/// The same conversion as `ntoh16`, under the name that the stack links against.
pub fn ntoh16_rust(n: u16) -> (r: u16)
    ensures
        r == network_to_host16(host_byte_order(), n),
{
    ntoh16(n)
}

/// The same conversion as `ntoh32`, under the name that the stack links against.
pub fn ntoh32_rust(n: u32) -> (r: u32)
    ensures
        r == network_to_host32(host_byte_order(), n),
{
    ntoh32(n)
}

/// The 16-bit word that a host of byte order `order` reads from the two
/// bytes `b0` (lower address) and `b1`.
pub open spec fn native_word16(order: i32, b0: u8, b1: u8) -> int {
    if order == LITTLE_ENDIAN {
        b0 + b1 * 0x100
    } else {
        b0 * 0x100 + b1
    }
}

/// The 32-bit word that a host of byte order `order` reads from the four
/// bytes `b0` (lowest address) to `b3`.
pub open spec fn native_word32(order: i32, b0: u8, b1: u8, b2: u8, b3: u8) -> int {
    if order == LITTLE_ENDIAN {
        b0 + b1 * 0x100 + b2 * 0x1_0000 + b3 * 0x100_0000
    } else {
        b0 * 0x100_0000 + b1 * 0x1_0000 + b2 * 0x100 + b3
    }
}

/// Swapping the bytes of a 16-bit word twice gives the word back.
pub proof fn lemma_swap16_involution(v: u16)
    ensures
        swapped16(v) == (swapped16(v) as u16) as int,
        swapped16(swapped16(v) as u16) == v,
{
}

/// Swapping the bytes of a 32-bit word twice gives the word back.
pub proof fn lemma_swap32_involution(v: u32)
    ensures
        swapped32(v) == (swapped32(v) as u32) as int,
        swapped32(swapped32(v) as u32) == v,
{
    let w: u32 = swapped32(v) as u32;
    assert(swapped32(v) < 0x1_0000_0000) by (bit_vector);
    assert(((w % 0x100) * 0x100_0000 + ((w / 0x100) % 0x100) * 0x1_0000 + ((w / 0x1_0000) % 0x100)
        * 0x100 + w / 0x100_0000) == v) by (bit_vector)
        requires
            w == (v % 0x100) * 0x100_0000 + ((v / 0x100) % 0x100) * 0x1_0000 + ((v / 0x1_0000)
                % 0x100) * 0x100 + v / 0x100_0000,
    ;
}

/// On a host of either byte order, converting twice from network order
/// gives the word back.
pub proof fn lemma_ntoh16_involution(order: i32, n: u16)
    ensures
        network_to_host16(order, network_to_host16(order, n) as u16) == n,
{
    lemma_swap16_involution(n);
}

/// On a host of either byte order, converting twice from network order
/// gives the word back.
pub proof fn lemma_ntoh32_involution(order: i32, n: u32)
    ensures
        network_to_host32(order, network_to_host32(order, n) as u32) == n,
{
    lemma_swap32_involution(n);
}

/// Whichever the host's byte order, converting the word that it reads from
/// two bytes received off the network gives their big-endian value.
pub proof fn lemma_ntoh16_reads_network_order(order: i32, b0: u8, b1: u8)
    requires
        order == LITTLE_ENDIAN || order == BIG_ENDIAN,
    ensures
        0 <= native_word16(order, b0, b1) <= u16::MAX,
        network_to_host16(order, native_word16(order, b0, b1) as u16) == b0 * 0x100 + b1,
{
}

/// Whichever the host's byte order, converting the word that it reads from
/// four bytes received off the network gives their big-endian value.
pub proof fn lemma_ntoh32_reads_network_order(order: i32, b0: u8, b1: u8, b2: u8, b3: u8)
    requires
        order == LITTLE_ENDIAN || order == BIG_ENDIAN,
    ensures
        0 <= native_word32(order, b0, b1, b2, b3) <= u32::MAX,
        network_to_host32(order, native_word32(order, b0, b1, b2, b3) as u32) == b0 * 0x100_0000
            + b1 * 0x1_0000 + b2 * 0x100 + b3,
{
    if order == LITTLE_ENDIAN {
        let w: u32 = (b0 + b1 * 0x100 + b2 * 0x1_0000 + b3 * 0x100_0000) as u32;
        assert(b0 + b1 * 0x100 + b2 * 0x1_0000 + b3 * 0x100_0000 <= u32::MAX) by (bit_vector);
        assert((w % 0x100) * 0x100_0000 + ((w / 0x100) % 0x100) * 0x1_0000 + ((w / 0x1_0000)
            % 0x100) * 0x100 + w / 0x100_0000 == b0 * 0x100_0000 + b1 * 0x1_0000 + b2 * 0x100
            + b3) by (bit_vector)
            requires
                w == b0 + b1 * 0x100 + b2 * 0x1_0000 + b3 * 0x100_0000,
        ;
    } else {
        assert(b0 * 0x100_0000 + b1 * 0x1_0000 + b2 * 0x100 + b3 <= u32::MAX) by (bit_vector);
    }
}

} // verus!
