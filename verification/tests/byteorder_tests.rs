use microps_utils::byteorder::{
    byteorder, byteorder_from_probe, byteswap16, byteswap32, ntoh16, ntoh16_for_order,
    ntoh16_rust, ntoh32, ntoh32_for_order, ntoh32_rust, BIG_ENDIAN, LITTLE_ENDIAN,
};

#[test]
fn byteswap16_exchanges_bytes() {
    assert_eq!(byteswap16(0x1234), 0x3412);
    assert_eq!(byteswap16(0x00ff), 0xff00);
    assert_eq!(byteswap16(0), 0);
}

#[test]
fn byteswap32_reverses_bytes() {
    assert_eq!(byteswap32(0x1234_5678), 0x7856_3412);
    assert_eq!(byteswap32(0x0000_00ff), 0xff00_0000);
    assert_eq!(byteswap32(0xffff_ffff), 0xffff_ffff);
}

#[test]
fn byteswap_twice_is_identity() {
    for v in [0u16, 1, 0x1234, 0xabcd, 0xffff] {
        assert_eq!(byteswap16(byteswap16(v)), v);
    }
    for v in [0u32, 1, 0x1234_5678, 0xdead_beef, 0xffff_ffff] {
        assert_eq!(byteswap32(byteswap32(v)), v);
    }
}

#[test]
fn byteorder_matches_the_host() {
    let expected = if 1u32.to_ne_bytes()[0] == 1 { LITTLE_ENDIAN } else { BIG_ENDIAN };
    assert_eq!(byteorder(), expected);
    assert_eq!(byteorder_from_probe(1), LITTLE_ENDIAN);
    assert_eq!(byteorder_from_probe(0), BIG_ENDIAN);
}

#[test]
fn ntoh_for_order_swaps_only_on_little_endian() {
    assert_eq!(ntoh16_for_order(LITTLE_ENDIAN, 0x1234), 0x3412);
    assert_eq!(ntoh16_for_order(BIG_ENDIAN, 0x1234), 0x1234);
    assert_eq!(ntoh32_for_order(LITTLE_ENDIAN, 0x1234_5678), 0x7856_3412);
    assert_eq!(ntoh32_for_order(BIG_ENDIAN, 0x1234_5678), 0x1234_5678);
}

#[test]
fn ntoh_matches_from_be() {
    for v in [0u16, 0x0800, 0x1234, 0xfffe] {
        assert_eq!(ntoh16(v), u16::from_be(v));
        assert_eq!(ntoh16_rust(v), u16::from_be(v));
    }
    for v in [0u32, 0xc0a8_0001, 0x1234_5678] {
        assert_eq!(ntoh32(v), u32::from_be(v));
        assert_eq!(ntoh32_rust(v), u32::from_be(v));
    }
}

#[test]
fn ntoh_reads_network_bytes() {
    let bytes = [0x12u8, 0x34, 0x56, 0x78];
    let w16 = u16::from_ne_bytes([bytes[0], bytes[1]]);
    assert_eq!(ntoh16(w16), 0x1234);
    let w32 = u32::from_ne_bytes(bytes);
    assert_eq!(ntoh32(w32), 0x1234_5678);
}

#[test]
fn ntoh_twice_is_identity_for_each_order() {
    for order in [LITTLE_ENDIAN, BIG_ENDIAN] {
        assert_eq!(ntoh16_for_order(order, ntoh16_for_order(order, 0xbeef)), 0xbeef);
        assert_eq!(ntoh32_for_order(order, ntoh32_for_order(order, 0xdead_beef)), 0xdead_beef);
    }
}
