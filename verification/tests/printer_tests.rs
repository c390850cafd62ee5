use std::time::Duration;

use cat_printer::font::TextRasterizer;
use cat_printer::printer::{CatPrinter, PrintError, PrinterState, Transport};
use cat_printer::protocol::{build_control_packet, crc8, render_text_to_pixels, ParseError};

/// A scripted transport: records every write and replays queued replies.
struct MockTransport {
    control_writes: Vec<Vec<u8>>,
    data_writes: Vec<Vec<u8>>,
    replies: Vec<Result<Vec<u8>, String>>,
    fail_control: bool,
    endless_noise: bool,
}

impl MockTransport {
    fn new(replies: Vec<Result<Vec<u8>, String>>) -> Self {
        MockTransport {
            control_writes: Vec::new(),
            data_writes: Vec::new(),
            replies,
            fail_control: false,
            endless_noise: false,
        }
    }
}

impl Transport for MockTransport {
    fn write_control(&mut self, data: &[u8]) -> Result<(), String> {
        if self.fail_control {
            return Err("control channel down".to_string());
        }
        self.control_writes.push(data.to_vec());
        Ok(())
    }

    fn write_data(&mut self, data: &[u8]) -> Result<(), String> {
        self.data_writes.push(data.to_vec());
        Ok(())
    }

    fn read_notification(&mut self, _timeout: Duration) -> Result<Vec<u8>, String> {
        if !self.replies.is_empty() {
            self.replies.remove(0)
        } else if self.endless_noise {
            Ok(vec![0x22, 0x21, 0xA1, 0x00, 0x01, 0x00, 0x00])
        } else {
            Err("no reply scripted".to_string())
        }
    }
}

/// A seven-byte notification with the given command and one payload byte.
fn notification(command_id: u8, payload_byte: u8) -> Vec<u8> {
    vec![0x22, 0x21, command_id, 0x00, 0x01, 0x00, payload_byte]
}

/// A fixed-output rasterizer that records what it was asked to draw.
struct FixedRasterizer {
    buffer: Vec<u8>,
    seen: std::cell::RefCell<Vec<(String, usize, u32)>>,
}

impl TextRasterizer for FixedRasterizer {
    fn rasterize(&self, text: &str, width: usize, font_size: u32) -> Vec<u8> {
        self.seen.borrow_mut().push((text.to_string(), width, font_size));
        self.buffer.clone()
    }
}

#[test]
fn new_printer_defaults_to_180_byte_chunks() {
    let printer = CatPrinter::new(MockTransport::new(Vec::new()));
    assert_eq!(printer.chunk_size, 180);
}

#[test]
fn end_to_end_all_white_print_completes() {
    // A 384 x 10 all-white buffer packs to all-zero bytes; the session is
    // accepted and then completed by an 0xAA notification.
    let mut pixels = vec![255u8; 384 * 10];
    cat_printer::dithering::threshold_dither(&mut pixels);
    assert!(pixels.iter().all(|&p| p == 255));

    let transport = MockTransport::new(vec![
        Ok(notification(0xA9, 0x00)),
        Ok(notification(0xAA, 0x00)),
    ]);
    let mut printer = CatPrinter::new(transport);
    let r = printer.print_image(&pixels, 384, 10, 0x00, None);
    assert_eq!(r, Ok(()));

    // 48 packed bytes per row, 10 rows: chunks of 180, 180, 120, all zero.
    let sizes: Vec<usize> = printer.transport.data_writes.iter().map(|c| c.len()).collect();
    assert_eq!(sizes, vec![180, 180, 120]);
    assert!(printer.transport.data_writes.iter().all(|c| c.iter().all(|&b| b == 0)));

    // The size announcement carries the line count, 0x30, and the mode.
    let expected_a9 = build_control_packet(0xA9, &[10, 0, 0x30, 0x00]);
    assert_eq!(printer.transport.control_writes[0], expected_a9);
    let expected_ad = build_control_packet(0xAD, &[0x00]);
    assert_eq!(printer.transport.control_writes[1], expected_ad);
}

#[test]
fn print_rejected_on_refusal_byte() {
    let transport = MockTransport::new(vec![Ok(notification(0xA9, 0x01))]);
    let mut printer = CatPrinter::new(transport);
    let r = printer.print_image(&vec![255u8; 384 * 10], 384, 10, 0x00, None);
    assert_eq!(r, Err(PrintError::PrinterRejected));
    // Rejection aborts before any data is streamed.
    assert!(printer.transport.data_writes.is_empty());
}

#[test]
fn print_rejected_on_wrong_command_id() {
    let transport = MockTransport::new(vec![Ok(notification(0x77, 0x00))]);
    let mut printer = CatPrinter::new(transport);
    let r = printer.print_image(&vec![255u8; 8], 8, 1, 0x00, None);
    assert_eq!(r, Err(PrintError::PrinterRejected));
}

#[test]
fn print_rejected_on_unparseable_ack() {
    let transport = MockTransport::new(vec![Ok(vec![0x22, 0x21])]);
    let mut printer = CatPrinter::new(transport);
    let r = printer.print_image(&vec![255u8; 8], 8, 1, 0x00, None);
    assert_eq!(r, Err(PrintError::PrinterRejected));
}

#[test]
fn print_discards_other_notifications_until_complete() {
    let transport = MockTransport::new(vec![
        Ok(notification(0xA9, 0x00)),
        Ok(notification(0xA1, 0x00)),
        Ok(notification(0xAA, 0x00)),
    ]);
    let mut printer = CatPrinter::new(transport);
    let r = printer.print_image(&vec![255u8; 8], 8, 1, 0x00, None);
    assert_eq!(r, Ok(()));
}

#[test]
fn print_surfaces_transport_failure() {
    let mut transport = MockTransport::new(Vec::new());
    transport.fail_control = true;
    let mut printer = CatPrinter::new(transport);
    let r = printer.print_image(&vec![255u8; 8], 8, 1, 0x00, None);
    assert_eq!(r, Err(PrintError::TransportFailure("control channel down".to_string())));
}

#[test]
fn print_malformed_completion_is_an_error() {
    let transport = MockTransport::new(vec![
        Ok(notification(0xA9, 0x00)),
        Ok(vec![0x01, 0x02, 0x03]),
    ]);
    let mut printer = CatPrinter::new(transport);
    let r = printer.print_image(&vec![255u8; 8], 8, 1, 0x00, None);
    assert_eq!(r, Err(PrintError::MalformedPacket(ParseError::TooShort)));
}

#[test]
fn print_validates_buffer_before_any_io() {
    let mut printer = CatPrinter::new(MockTransport::new(Vec::new()));
    assert_eq!(
        printer.print_image(&[], 0, 10, 0x00, None),
        Err(PrintError::InvalidImageDimensions)
    );
    assert_eq!(
        printer.print_image(&[0u8; 4], usize::MAX, 2, 0x00, None),
        Err(PrintError::SizeOverflow)
    );
    assert_eq!(
        printer.print_image(&[0u8; 7], 4, 2, 0x00, None),
        Err(PrintError::PixelBufferTooSmall)
    );
    assert!(printer.transport.control_writes.is_empty());
}

#[test]
fn print_honors_chunk_size_override() {
    let transport = MockTransport::new(vec![
        Ok(notification(0xA9, 0x00)),
        Ok(notification(0xAA, 0x00)),
    ]);
    let mut printer = CatPrinter::new(transport);
    let r = printer.print_image(&vec![255u8; 16 * 4], 16, 4, 0x00, Some(3));
    assert_eq!(r, Ok(()));
    let sizes: Vec<usize> = printer.transport.data_writes.iter().map(|c| c.len()).collect();
    assert_eq!(sizes, vec![3, 3, 2]);
}

#[test]
fn print_times_out_on_endless_noise() {
    // A printer that keeps sending unrelated notifications exhausts the
    // completion wait's retry budget.
    let mut transport = MockTransport::new(vec![Ok(notification(0xA9, 0x00))]);
    transport.endless_noise = true;
    let mut printer = CatPrinter::new(transport);
    let r = printer.print_image(&vec![255u8; 8], 8, 1, 0x00, None);
    assert_eq!(r, Err(PrintError::SessionTimedOut));
}

#[test]
fn get_status_decodes_reply() {
    let mut payload = vec![0u8; 13];
    payload[6] = 1;
    payload[9] = 77;
    payload[10] = 30;
    let mut raw = vec![0x22, 0x21, 0xA1, 0x00, 13, 0x00];
    raw.extend_from_slice(&payload);
    let transport = MockTransport::new(vec![Ok(raw)]);
    let mut printer = CatPrinter::new(transport);
    let st = printer.get_status(Duration::from_secs(1)).unwrap();
    assert_eq!(st.state, PrinterState::Printing);
    assert_eq!(st.battery_percent, Some(77));
    assert_eq!(st.temperature, Some(30));

    // The request is the 0xA1 control packet with a single zero byte.
    let expected = build_control_packet(0xA1, &[0x00]);
    assert_eq!(printer.transport.control_writes[0], expected);
    assert_eq!(crc8(&[0x00]), expected[7]);
}

#[test]
fn get_status_surfaces_malformed_reply() {
    let transport = MockTransport::new(vec![Ok(vec![0x01, 0x02])]);
    let mut printer = CatPrinter::new(transport);
    let r = printer.get_status(Duration::from_secs(1));
    assert!(matches!(r, Err(PrintError::MalformedPacket(ParseError::TooShort))));
}

#[test]
fn get_status_surfaces_transport_failure() {
    let transport = MockTransport::new(vec![Err("gone".to_string())]);
    let mut printer = CatPrinter::new(transport);
    let r = printer.get_status(Duration::from_secs(1));
    assert!(matches!(r, Err(PrintError::TransportFailure(ref s)) if s == "gone"));
}

#[test]
fn render_text_appends_author_signature() {
    let rasterizer = FixedRasterizer {
        buffer: vec![255u8; 200],
        seen: std::cell::RefCell::new(Vec::new()),
    };
    let out = render_text_to_pixels(&rasterizer, "Hello", "me", 100);
    assert_eq!(out.len(), 200);
    let seen = rasterizer.seen.borrow();
    assert_eq!(seen.len(), 1);
    assert_eq!(seen[0], ("Hello\n\n-- me".to_string(), 100, 48));
}

#[test]
fn print_text_runs_a_full_session() {
    let rasterizer = FixedRasterizer {
        buffer: vec![255u8; 384 * 2],
        seen: std::cell::RefCell::new(Vec::new()),
    };
    let transport = MockTransport::new(vec![
        Ok(notification(0xA9, 0x00)),
        Ok(notification(0xAA, 0x00)),
    ]);
    let mut printer = CatPrinter::new(transport);
    let r = printer.print_text(&rasterizer, "Hi", "bob");
    assert_eq!(r, Ok(()));
    // Two rows of 48 packed bytes each, all white, so all zero.
    let expected_a9 = build_control_packet(0xA9, &[2, 0, 0x30, 0x00]);
    assert_eq!(printer.transport.control_writes[0], expected_a9);
    assert_eq!(printer.transport.data_writes.concat(), vec![0u8; 96]);
}

#[test]
fn print_text_pixels_rejects_short_and_tall_buffers() {
    let mut printer = CatPrinter::new(MockTransport::new(Vec::new()));
    // Shorter than one 384-pixel row: no rows to print.
    let r = printer.print_text_pixels(&[255u8; 383]);
    assert_eq!(r, Err(PrintError::InvalidImageDimensions));
    // Taller than the 16-bit line count can announce.
    let tall = vec![255u8; 384 * 65536];
    let r = printer.print_text_pixels(&tall);
    assert_eq!(r, Err(PrintError::InvalidImageDimensions));
    assert!(printer.transport.control_writes.is_empty());
}

#[test]
fn print_text_pixels_runs_a_session() {
    let transport = MockTransport::new(vec![
        Ok(notification(0xA9, 0x00)),
        Ok(notification(0xAA, 0x00)),
    ]);
    let mut printer = CatPrinter::new(transport);
    let r = printer.print_text_pixels(&vec![255u8; 384 * 3]);
    assert_eq!(r, Ok(()));
    assert_eq!(printer.chunk_size, 180);
}

#[test]
fn print_text_rejects_empty_rasterization() {
    // A buffer shorter than one row yields zero lines, which cannot print.
    let rasterizer = FixedRasterizer {
        buffer: vec![255u8; 10],
        seen: std::cell::RefCell::new(Vec::new()),
    };
    let mut printer = CatPrinter::new(MockTransport::new(Vec::new()));
    let r = printer.print_text(&rasterizer, "Hi", "bob");
    assert_eq!(r, Err(PrintError::InvalidImageDimensions));
}
