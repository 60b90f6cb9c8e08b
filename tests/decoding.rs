use neato_xv11::calc_checksum;
use neato_xv11::frame::{FRAME_LEN, START_MARKER};
use neato_xv11::{parse_packet, LidarDriverError, LidarDriverMessage, LidarPacket, LidarReading, LidarReadingError};

const PACKET: [u8; 22] = [
    0xFA, 0xB1, 0xE3, 0x49, 0xE4, 0x00, 0xE1, 0x05, 0xE2, 0x00, 0x34, 0x06, 0xE0, 0x00, 0x25,
    0x06, 0xDF, 0x00, 0x84, 0x06, 0xF6, 0x6B,
];

const PACKET_CHECKSUM: u32 = 0x6BF6;

const BAD_CHECKSUM: [u8; 22] = [
    0xFA, 0xB1, 0xE3, 0x49, 0xE4, 0x00, 0xE1, 0x05, 0xE2, 0x00, 0x34, 0x06, 0xE0, 0x00, 0x25,
    0x06, 0xDF, 0x00, 0x84, 0x06, 0xA6, 0xCE,
];

/// A frame with the given number, speed field and four (distance, quality)
/// fields, carrying its correct checksum.
fn make_frame(number: u8, speed: u16, fields: [(u16, u16); 4]) -> [u8; 22] {
    let mut f = [0u8; 22];
    f[0] = START_MARKER;
    f[1] = number;
    f[2..4].copy_from_slice(&speed.to_le_bytes());
    for (k, (d, q)) in fields.iter().enumerate() {
        f[4 + 4 * k..6 + 4 * k].copy_from_slice(&d.to_le_bytes());
        f[6 + 4 * k..8 + 4 * k].copy_from_slice(&q.to_le_bytes());
    }
    let c = calc_checksum(&f[..20]) as u16;
    f[20..22].copy_from_slice(&c.to_le_bytes());
    f
}

fn packet_of(r: Result<LidarDriverMessage, LidarDriverError>) -> LidarPacket {
    match r {
        Ok(LidarDriverMessage::Packet(p)) => p,
        other => panic!("expected a packet, got {:?}", other),
    }
}

#[test]
fn checksum_fn_should_be_correct() {
    let expected_checksum = PACKET_CHECKSUM;
    let actual_checksum = calc_checksum(&PACKET[..20]);
    assert_eq!(expected_checksum, actual_checksum);
}

#[test]
fn parse_with_correct_checksum_should_return_ok() {
    let actual_result = parse_packet(&PACKET);
    assert!(actual_result.is_ok());
}

#[test]
fn parse_with_incorrect_checksum_should_return_error() {
    let expected_result = LidarDriverError::Checksum(0x11);
    let actual_result = parse_packet(&BAD_CHECKSUM);
    assert_eq!(expected_result, actual_result.unwrap_err());
}

#[test]
fn checksum_ignores_bytes_after_the_span() {
    assert_eq!(calc_checksum(&PACKET), PACKET_CHECKSUM);
}

#[test]
fn checksum_of_zeros_and_of_all_ones() {
    assert_eq!(calc_checksum(&[0u8; 20]), 0);
    // Accumulator 0xFFFF * 1023 = 0x03FE_FC01; low 15 bits 0x7C01, high bits 0x07FD.
    assert_eq!(calc_checksum(&[0xFFu8; 20]), (0x7C01 + 0x07FD) & 0x7FFF);
}

#[test]
fn good_frame_decodes_to_four_clean_readings() {
    let p = packet_of(parse_packet(&PACKET));
    assert_eq!(p.readings.len(), 4);
    assert_eq!(p.raw_speed, 0x49E3);
    assert_eq!(p.raw_speed as f64 / 64.0, ((0x49 << 8) | 0xE3) as f64 / 64.0);
    let expected = [
        LidarReading::new(68, 0xE4, 0x05E1, None),
        LidarReading::new(69, 0xE2, 0x0634, None),
        LidarReading::new(70, 0xE0, 0x0625, None),
        LidarReading::new(71, 0xDF, 0x0684, None),
    ];
    assert_eq!(p.readings, expected.to_vec());
    for r in &p.readings {
        assert!(r.error.is_none());
    }
}

#[test]
fn bad_checksum_yields_no_packet() {
    match parse_packet(&BAD_CHECKSUM) {
        Err(LidarDriverError::Checksum(i)) => assert_eq!(i, 0xB1 - 0xA0),
        other => panic!("unexpected {:?}", other),
    }
}

#[test]
fn decoding_twice_gives_identical_packets() {
    let a = packet_of(parse_packet(&PACKET));
    let b = packet_of(parse_packet(&PACKET));
    assert_eq!(a, b);
    assert_eq!(a.readings, b.readings);
    assert_eq!(a.raw_speed, b.raw_speed);
}

#[test]
fn first_and_last_frame_numbers_give_slots_0_and_359() {
    let first = packet_of(parse_packet(&make_frame(0xA0, 0, [(1, 1); 4])));
    let idx: Vec<usize> = first.readings.iter().map(|r| r.index).collect();
    assert_eq!(idx, vec![0, 1, 2, 3]);
    let last = packet_of(parse_packet(&make_frame(0xF9, 0, [(1, 1); 4])));
    let idx: Vec<usize> = last.readings.iter().map(|r| r.index).collect();
    assert_eq!(idx, vec![356, 357, 358, 359]);
}

#[test]
fn every_frame_number_stays_in_range() {
    for number in 0xA0u8..=0xF9 {
        let p = packet_of(parse_packet(&make_frame(number, 0, [(5, 5); 4])));
        for (k, r) in p.readings.iter().enumerate() {
            assert_eq!(r.index, 4 * (number as usize - 0xA0) + k);
            assert!(r.index <= 359);
        }
    }
}

#[test]
fn flag_bits_are_decoded() {
    let f = make_frame(0xA5, 0x1234, [(0x8042, 7), (0x4123, 8), (0xC0FF, 9), (0x3FFF, 10)]);
    let p = packet_of(parse_packet(&f));
    assert_eq!(p.raw_speed, 0x1234);
    assert_eq!(
        p.readings[0],
        LidarReading::new(20, 0x8042, 7, Some(LidarReadingError::InvalidDataError(0x42)))
    );
    assert_eq!(
        p.readings[1],
        LidarReading::new(21, 0x0123, 8, Some(LidarReadingError::SignalStrengthWarning))
    );
    // Bit 15 takes priority over bit 14.
    assert_eq!(
        p.readings[2],
        LidarReading::new(22, 0xC0FF, 9, Some(LidarReadingError::InvalidDataError(0xFF)))
    );
    assert_eq!(p.readings[3], LidarReading::new(23, 0x3FFF, 10, None));
}

#[test]
fn a_single_flipped_bit_fails_the_checksum() {
    let mut f = make_frame(0xC0, 300, [(100, 200); 4]);
    f[9] ^= 0x01;
    match parse_packet(&f) {
        Err(e) => assert_eq!(e, LidarDriverError::Checksum(0x20)),
        Ok(m) => panic!("unexpected {:?}", m),
    }
}

#[test]
fn driver_errors_compare_by_kind() {
    assert_eq!(LidarDriverError::Checksum(7), LidarDriverError::Checksum(7));
    assert_ne!(LidarDriverError::ResyncRequired, LidarDriverError::ResyncRequired);
    assert_ne!(LidarDriverError::Checksum(1), LidarDriverError::Checksum(2));
    assert_ne!(LidarDriverError::Checksum(1), LidarDriverError::ResyncRequired);
}

#[test]
fn packet_new_keeps_its_parts() {
    let r = LidarReading::new(3, 10, 20, None);
    let p = LidarPacket::new(vec![r; 4], 640);
    assert_eq!(p.readings.len(), 4);
    assert_eq!(p.raw_speed, 640);
    assert_eq!(p.readings[0].index, 3);
    assert_eq!(FRAME_LEN, 22);
}
