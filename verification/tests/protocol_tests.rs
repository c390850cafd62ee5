use cat_printer::printer::PrinterState;
use cat_printer::protocol::{
    build_control_packet, chunk_data, crc8, pack_1bpp_pixels, parse_notification,
    parse_printer_status, rotate_mirror_pixels, Notification, PackError, ParseError,
};

#[test]
fn crc8_of_empty_is_zero() {
    assert_eq!(crc8(&[]), 0x00);
}

#[test]
fn crc8_of_single_zero_byte() {
    assert_eq!(crc8(&[0x00]), 0x00);
}

#[test]
fn crc8_standard_check_value() {
    assert_eq!(crc8(b"123456789"), 0xF4);
}

#[test]
fn crc8_known_payload() {
    assert_eq!(crc8(&[0xDE, 0xAD, 0xBE, 0xEF]), 0xCA);
}

#[test]
fn crc8_is_deterministic() {
    let payload = [0x0A, 0x00, 0x30, 0x00];
    assert_eq!(crc8(&payload), crc8(&payload));
    assert_eq!(crc8(&payload), 0x65);
}

#[test]
fn crc8_is_order_dependent() {
    assert_eq!(crc8(&[1, 2, 3]), 0x48);
    assert_eq!(crc8(&[3, 2, 1]), 0x90);
    assert_ne!(crc8(&[1, 2, 3]), crc8(&[3, 2, 1]));
}

#[test]
fn build_control_packet_layout() {
    let packet = build_control_packet(0xA1, &[0x00]);
    assert_eq!(packet, vec![0x22, 0x21, 0xA1, 0x00, 0x01, 0x00, 0x00, 0x00, 0xFF]);
}

#[test]
fn build_control_packet_length_field_is_little_endian() {
    let payload = vec![0x07u8; 0x0102];
    let packet = build_control_packet(0x55, &payload);
    assert_eq!(packet[4], 0x02);
    assert_eq!(packet[5], 0x01);
    assert_eq!(packet.len(), 8 + payload.len());
    assert_eq!(*packet.last().unwrap(), 0xFF);
}

#[test]
fn parse_notification_round_trips_a_built_packet() {
    let payload = [0x0A, 0x00, 0x30, 0x00];
    let packet = build_control_packet(0xA9, &payload);
    let n = parse_notification(&packet).unwrap();
    assert_eq!(n.command_id, 0xA9);
    assert_eq!(n.unknown, 0x00);
    assert_eq!(n.payload, payload.to_vec());
    assert_eq!(n.crc, Some(crc8(&payload)));
}

#[test]
fn parse_notification_too_short() {
    assert_eq!(parse_notification(&[0x22, 0x21, 0xA9, 0x00, 0x01, 0x00]), Err(ParseError::TooShort));
}

#[test]
fn parse_notification_bad_preamble() {
    assert_eq!(
        parse_notification(&[0x23, 0x21, 0xA9, 0x00, 0x01, 0x00, 0x00]),
        Err(ParseError::BadPreamble)
    );
}

#[test]
fn parse_notification_truncated_payload() {
    assert_eq!(
        parse_notification(&[0x22, 0x21, 0xA9, 0x00, 0x05, 0x00, 0x00]),
        Err(ParseError::TruncatedPayload)
    );
}

#[test]
fn parse_notification_without_trailing_checksum() {
    let n = parse_notification(&[0x22, 0x21, 0xAA, 0x07, 0x01, 0x00, 0x42]).unwrap();
    assert_eq!(
        n,
        Notification { command_id: 0xAA, unknown: 0x07, payload: vec![0x42], crc: None }
    );
}

#[test]
fn parse_notification_keeps_unverified_checksum_byte() {
    // The trailing byte is captured even when it is not the payload's CRC.
    let n = parse_notification(&[0x22, 0x21, 0xAA, 0x00, 0x01, 0x00, 0x42, 0x99]).unwrap();
    assert_eq!(n.crc, Some(0x99));
    assert_ne!(n.crc, Some(crc8(&[0x42])));
}

#[test]
fn pack_alternating_row_bits() {
    let pixels = [0, 255, 0, 255, 0, 255, 0, 255];
    let packed = pack_1bpp_pixels(&pixels, 8, 1).unwrap();
    assert_eq!(packed, vec![0b01010101]);
}

#[test]
fn pack_partial_group_defaults_white() {
    // Width 10: the second byte of each row carries only two pixels.
    let mut pixels = vec![255u8; 20];
    pixels[8] = 0; // row 0, bit 0 of the second byte
    pixels[19] = 0; // row 1, bit 1 of the second byte
    let packed = pack_1bpp_pixels(&pixels, 10, 2).unwrap();
    assert_eq!(packed, vec![0x00, 0b0000_0001, 0x00, 0b0000_0010]);
}

#[test]
fn pack_rows_do_not_share_bytes() {
    // Width 3, height 2: each row gets its own byte.
    let pixels = [0, 255, 255, 255, 255, 0];
    let packed = pack_1bpp_pixels(&pixels, 3, 2).unwrap();
    assert_eq!(packed, vec![0b0000_0001, 0b0000_0100]);
}

#[test]
fn pack_rejects_zero_dimensions() {
    assert_eq!(pack_1bpp_pixels(&[0u8; 4], 0, 4), Err(PackError::InvalidDimensions));
    assert_eq!(pack_1bpp_pixels(&[0u8; 4], 4, 0), Err(PackError::InvalidDimensions));
}

#[test]
fn pack_rejects_overflowing_dimensions() {
    assert_eq!(pack_1bpp_pixels(&[0u8; 4], usize::MAX, 2), Err(PackError::Overflow));
}

#[test]
fn pack_rejects_short_buffer() {
    assert_eq!(pack_1bpp_pixels(&[0u8; 7], 4, 2), Err(PackError::InsufficientPixels));
}

#[test]
fn status_printing_with_battery_and_temperature() {
    let mut payload = [0u8; 13];
    payload[6] = 1;
    payload[9] = 77;
    payload[10] = 30;
    payload[12] = 0;
    let st = parse_printer_status(&payload);
    assert_eq!(st.state, PrinterState::Printing);
    assert_eq!(st.battery_percent, Some(77));
    assert_eq!(st.temperature, Some(30));
}

#[test]
fn status_short_payload_is_unknown() {
    let st = parse_printer_status(&[0u8; 6]);
    assert_eq!(st.state, PrinterState::Unknown);
    assert_eq!(st.battery_percent, None);
    assert_eq!(st.temperature, None);
}

#[test]
fn status_standby() {
    let payload = [0u8; 13];
    let st = parse_printer_status(&payload);
    assert_eq!(st.state, PrinterState::Standby);
}

#[test]
fn status_unexpected_flag_is_unknown() {
    let mut payload = [0u8; 13];
    payload[6] = 9;
    let st = parse_printer_status(&payload);
    assert_eq!(st.state, PrinterState::Unknown);
}

#[test]
fn status_error_code_from_byte_thirteen() {
    let mut payload = [0u8; 14];
    payload[9] = 50;
    payload[10] = 22;
    payload[12] = 1;
    payload[13] = 42;
    let st = parse_printer_status(&payload);
    assert_eq!(st.state, PrinterState::Error(42));
    assert_eq!(st.battery_percent, Some(50));
    assert_eq!(st.temperature, Some(22));
}

#[test]
fn status_error_flag_without_code_is_unknown() {
    let mut payload = [0u8; 13];
    payload[12] = 1;
    let st = parse_printer_status(&payload);
    assert_eq!(st.state, PrinterState::Unknown);
    assert_eq!(st.battery_percent, Some(0));
}

#[test]
fn chunk_size_zero_returns_whole_input() {
    let data = [1u8, 2, 3, 4, 5];
    let chunks = chunk_data(&data, 0);
    assert_eq!(chunks.len(), 1);
    assert_eq!(chunks[0], &data[..]);
}

#[test]
fn chunk_counts_and_sizes() {
    let data: Vec<u8> = (0..10).collect();
    let chunks = chunk_data(&data, 3);
    assert_eq!(chunks.len(), 4);
    assert_eq!(chunks[0], &[0, 1, 2][..]);
    assert_eq!(chunks[1], &[3, 4, 5][..]);
    assert_eq!(chunks[2], &[6, 7, 8][..]);
    assert_eq!(chunks[3], &[9][..]);
}

#[test]
fn chunk_exact_division() {
    let data = [1u8, 2, 3, 4];
    let chunks = chunk_data(&data, 2);
    assert_eq!(chunks.len(), 2);
    assert_eq!(chunks[0], &[1, 2][..]);
    assert_eq!(chunks[1], &[3, 4][..]);
}

#[test]
fn chunk_empty_input() {
    let chunks = chunk_data(&[], 4);
    assert_eq!(chunks.len(), 0);
}

#[test]
fn rotate_mirror_moves_each_pixel() {
    let pixels = [1u8, 2, 3, 4, 5, 6];
    let rotated = rotate_mirror_pixels(&pixels, 3, 2);
    assert_eq!(rotated, vec![6, 5, 4, 3, 2, 1]);
}

#[test]
fn rotate_mirror_is_an_involution() {
    let pixels: Vec<u8> = (0..35).collect();
    let once = rotate_mirror_pixels(&pixels, 7, 5);
    let twice = rotate_mirror_pixels(&once, 7, 5);
    assert_eq!(twice, pixels);
}

#[test]
fn rotate_mirror_zeroes_bytes_beyond_the_image() {
    let pixels = [9u8, 8, 7, 6, 5];
    let rotated = rotate_mirror_pixels(&pixels, 2, 2);
    assert_eq!(rotated, vec![6, 7, 8, 9, 0]);
}
