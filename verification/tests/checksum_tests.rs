use microps_utils::byteorder::{byteorder, BIG_ENDIAN, LITTLE_ENDIAN};
use microps_utils::checksum::{cksum16, cksum16_for_order, cksum16_rust};

const SAMPLE: [u8; 8] = [0x00, 0x01, 0xf2, 0x03, 0xf4, 0xf5, 0xf6, 0xf7];

#[test]
fn checksum_of_rfc1071_sample() {
    assert_eq!(cksum16_for_order(BIG_ENDIAN, &SAMPLE, 8, 0), 0x220d);
    assert_eq!(cksum16_for_order(LITTLE_ENDIAN, &SAMPLE, 8, 0), 0x0d22);
}

#[test]
fn checksum_with_odd_count_adds_last_byte() {
    assert_eq!(cksum16_for_order(BIG_ENDIAN, &SAMPLE, 7, 0), 0x180f);
    assert_eq!(cksum16_for_order(LITTLE_ENDIAN, &SAMPLE, 7, 0), 0x0423);
}

#[test]
fn checksum_with_initial_sum_that_wraps() {
    assert_eq!(cksum16_for_order(BIG_ENDIAN, &SAMPLE, 8, 0xffff_fff0), 0x221d);
    assert_eq!(cksum16_for_order(LITTLE_ENDIAN, &SAMPLE, 8, 0xffff_fff0), 0x0d32);
}

#[test]
fn checksum_of_nothing() {
    assert_eq!(cksum16_for_order(LITTLE_ENDIAN, &[], 0, 0), 0xffff);
    assert_eq!(cksum16_for_order(BIG_ENDIAN, &SAMPLE, 0, 0x1234), 0xedcb);
}

#[test]
fn checksum_ignores_bytes_past_count() {
    assert_eq!(
        cksum16_for_order(BIG_ENDIAN, &SAMPLE, 4, 0),
        cksum16_for_order(BIG_ENDIAN, &SAMPLE[..4], 4, 0)
    );
}

#[test]
fn host_checksum_follows_host_order() {
    let order = byteorder();
    assert_eq!(cksum16(&SAMPLE, 8, 0), cksum16_for_order(order, &SAMPLE, 8, 0));
    assert_eq!(cksum16_rust(&SAMPLE, 7, 5), cksum16_for_order(order, &SAMPLE, 7, 5));
}

#[test]
fn appended_checksum_verifies_to_zero() {
    for order in [LITTLE_ENDIAN, BIG_ENDIAN] {
        let c = cksum16_for_order(order, &SAMPLE, 8, 0);
        let mut framed = SAMPLE.to_vec();
        if order == LITTLE_ENDIAN {
            framed.extend_from_slice(&c.to_le_bytes());
        } else {
            framed.extend_from_slice(&c.to_be_bytes());
        }
        assert_eq!(cksum16_for_order(order, &framed, 10, 0), 0);
    }
    let c = cksum16(&SAMPLE, 8, 0);
    let mut framed = SAMPLE.to_vec();
    framed.extend_from_slice(&c.to_ne_bytes());
    assert_eq!(cksum16(&framed, 10, 0), 0);
}

#[test]
fn checksum_computed_in_pieces() {
    let data: Vec<u8> = (0u8..37).map(|b| b.wrapping_mul(29)).collect();
    for order in [LITTLE_ENDIAN, BIG_ENDIAN] {
        let whole = cksum16_for_order(order, &data, 37, 0x0102);
        let first = cksum16_for_order(order, &data, 10, 0x0102);
        let partial = (!first) as u32;
        let rest = cksum16_for_order(order, &data[10..], 27, partial);
        assert_eq!(whole, rest);
    }
    let first = cksum16(&data, 10, 0);
    assert_eq!(cksum16(&data, 37, 0), cksum16(&data[10..], 27, (!first) as u32));
}

#[test]
fn checksum_of_swapped_words_is_swapped() {
    let mut swapped = SAMPLE;
    for pair in swapped.chunks_mut(2) {
        pair.swap(0, 1);
    }
    for order in [LITTLE_ENDIAN, BIG_ENDIAN] {
        assert_eq!(
            cksum16_for_order(order, &swapped, 8, 0),
            cksum16_for_order(order, &SAMPLE, 8, 0).swap_bytes()
        );
    }
}

#[test]
fn odd_count_on_each_order() {
    let data = [0x01u8, 0x02, 0x03];
    assert_eq!(cksum16_for_order(LITTLE_ENDIAN, &data, 3, 0), 0xfdfb);
    assert_eq!(cksum16_for_order(BIG_ENDIAN, &data, 3, 0), 0xfefa);
}
