//! Print session logic: the transport capability, printer status types, and
//! the request/acknowledge/completion choreography of a print job.

use vstd::prelude::*;

use crate::font::TextRasterizer;
use crate::protocol::{
    build_control_packet, chunk_data, pack_1bpp_pixels, parse_notification,
    parse_notification_spec, parse_printer_status, printer_status_spec, render_text_to_pixels,
    rotate_mirror_pixels, PackError, ParseError,
};

verus! {

/// Transport capability for printer communication. The core never owns the
/// connection: it only issues calls within a caller-supplied session.
pub trait Transport {
    /// Write a control packet to the printer.
    fn write_control(&mut self, data: &[u8]) -> Result<(), String>;

    /// Write image/text data to the printer.
    fn write_data(&mut self, data: &[u8]) -> Result<(), String>;

    /// Read a notification from the printer, waiting at most `timeout`.
    fn read_notification(&mut self, timeout: core::time::Duration) -> Result<Vec<u8>, String>;
}

/// The printer's reported state, decoded from a status payload.
#[derive(Debug, Clone, PartialEq, Eq, Structural)]
pub enum PrinterState {
    Standby,
    Printing,
    Error(u8),
    Unknown,
}

/// Battery, temperature, and state decoded from a status notification.
#[derive(Debug, Clone)]
pub struct PrinterStatus {
    pub battery_percent: Option<u8>,
    pub temperature: Option<u8>,
    pub state: PrinterState,
}

/// Why a printer operation failed. Every variant is a recoverable result
/// value: a failed print is fully failed, and a new session restarts from
/// the size announcement.
#[derive(Debug, Clone, PartialEq, Eq)]
pub enum PrintError {
    /// An inbound packet did not parse.
    MalformedPacket(ParseError),
    /// Width or height of the image is zero, or the rasterized text has more
    /// rows than the 16-bit line count can announce.
    InvalidImageDimensions,
    /// `width * height` overflows the address space.
    SizeOverflow,
    /// The pixel buffer is shorter than `width * height`.
    PixelBufferTooSmall,
    /// The printer refused the size announcement, replied with the wrong
    /// command, or sent an unparseable reply.
    PrinterRejected,
    /// No completion notification arrived within the deadline.
    SessionTimedOut,
    /// An I/O error from the transport, passed through.
    TransportFailure(String),
}

/// Declares std::time::Instant, which vstd leaves unspecified, as an opaque
/// type for the session deadline clock.
#[verifier::external_type_specification]
#[verifier::external_body]
pub struct ExInstant(std::time::Instant);

/// Relies on std::time::Instant::now: an opaque reading of the monotonic
/// clock.
#[verifier::external_body]
fn instant_now() -> std::time::Instant {
    std::time::Instant::now()
}

/// Relies on std::time::Instant::elapsed: the time since the reading was
/// taken, as an opaque duration.
#[verifier::external_body]
fn elapsed_since(start: &std::time::Instant) -> core::time::Duration {
    start.elapsed()
}

/// Relies on core::time::Duration::as_millis: the duration in whole
/// milliseconds.
#[verifier::external_body]
fn duration_as_millis(d: &core::time::Duration) -> u128 {
    d.as_millis()
}

/// Relies on core::time::Duration::from_millis.
#[verifier::external_body]
fn duration_from_millis(ms: u64) -> core::time::Duration {
    core::time::Duration::from_millis(ms)
}

/// Whether a raw size-announcement reply accepts the print: it parses, its
/// command id is the announcement's own (0xA9), and its first payload byte
/// is not the 0x01 refusal flag. Anything else — a parse failure included —
/// counts as a rejection.
pub open spec fn size_ack_accepts(raw: Seq<u8>) -> bool {
    match parse_notification_spec(raw) {
        Ok(n) => n.command_id == 0xA9 && !(n.payload.len() > 0 && n.payload[0] == 0x01),
        Err(_) => false,
    }
}

/// Decides whether a raw size-announcement reply accepts the print.
pub fn evaluate_size_ack(raw: &[u8]) -> (r: bool)
    ensures
        r == size_ack_accepts(raw@),
{
    match parse_notification(raw) {
        Ok(n) => {
            if n.command_id != 0xA9 {
                false
            } else if n.payload.len() > 0 {
                let first = n.payload[0];
                first != 0x01
            } else {
                true
            }
        },
        Err(_) => false,
    }
}

/// Synchronous printer driver: owns the session choreography over a
/// caller-supplied transport, streaming data in `chunk_size`-byte chunks
/// (180 by default).
pub struct CatPrinter<T: Transport> {
    pub transport: T,
    pub chunk_size: usize,
}

impl<T: Transport> CatPrinter<T> {
    /// A driver over the given transport with the default 180-byte chunk
    /// size.
    pub fn new(transport: T) -> (r: Self)
        ensures
            r.chunk_size == 180,
            r.transport == transport,
    {
        CatPrinter { transport, chunk_size: 180 }
    }

    /// Queries the printer's status: sends a get-status control packet
    /// (command 0xA1, payload `[0x00]`), waits at most `timeout` for the
    /// reply, and decodes its payload. Any status it returns is the decoding
    /// of a reply that parsed as a notification.
    pub fn get_status(&mut self, timeout: core::time::Duration) -> (r: Result<
        PrinterStatus,
        PrintError,
    >)
        ensures
            final(self).chunk_size == old(self).chunk_size,
            r matches Ok(st) ==> exists|raw: Seq<u8>|
                {
                    &&& #[trigger] parse_notification_spec(raw) matches Ok(n)
                    &&& st == printer_status_spec(n.payload)
                },
    {
        let payload = vec![0x00u8];
        let req = build_control_packet(0xA1, payload.as_slice());
        match self.transport.write_control(req.as_slice()) {
            Ok(_) => (),
            Err(e) => {
                return Err(PrintError::TransportFailure(e));
            },
        }
        let raw = match self.transport.read_notification(timeout) {
            Ok(v) => v,
            Err(e) => {
                return Err(PrintError::TransportFailure(e));
            },
        };
        let notif = match parse_notification(raw.as_slice()) {
            Ok(n) => n,
            Err(pe) => {
                return Err(PrintError::MalformedPacket(pe));
            },
        };
        let st = parse_printer_status(notif.payload.as_slice());
        proof {
            assert(parse_notification_spec(raw@) matches Ok(n) && st == printer_status_spec(
                n.payload,
            ));
        }
        Ok(st)
    }

    /// Prints a raw grayscale buffer (row-major, 0 = black, 255 = white):
    /// packs it to 1 bit per pixel, announces `height` rows (command 0xA9,
    /// mode byte as given), aborts as rejected unless the reply accepts,
    /// streams the packed data in chunks, signals end of data (command
    /// 0xAD), and waits up to a minute for the print-complete notification
    /// (command 0xAA), discarding notifications with any other command.
    /// The buffer is validated before any I/O: the exact packing error comes
    /// back and nothing is sent when the dimensions are zero, overflow, or
    /// exceed the buffer.
    pub fn print_image(
        &mut self,
        pixels: &[u8],
        width: usize,
        height: usize,
        mode: u8,
        chunk_size: Option<usize>,
    ) -> (r: Result<(), PrintError>)
        requires
            height <= 0xFFFF,
        ensures
            final(self).chunk_size == old(self).chunk_size,
            r == Err::<(), PrintError>(PrintError::InvalidImageDimensions) <==> width == 0
                || height == 0,
            r == Err::<(), PrintError>(PrintError::SizeOverflow) <==> width > 0 && height > 0
                && width * height > usize::MAX,
            r == Err::<(), PrintError>(PrintError::PixelBufferTooSmall) <==> width > 0 && height
                > 0 && width * height <= usize::MAX && pixels@.len() < width * height,
            r matches Ok(v) ==> width > 0 && height > 0 && width * height <= pixels@.len(),
            r matches Ok(v) ==> exists|ack: Seq<u8>, done: Seq<u8>|
                {
                    &&& #[trigger] size_ack_accepts(ack)
                    &&& #[trigger] parse_notification_spec(done) matches Ok(n)
                    &&& n.command_id == 0xAA
                },
            r == Err::<(), PrintError>(PrintError::PrinterRejected) ==> exists|ack: Seq<u8>|
                !(#[trigger] size_ack_accepts(ack)),
    {
        let packed = match pack_1bpp_pixels(pixels, width, height) {
            Ok(p) => p,
            Err(PackError::InvalidDimensions) => {
                return Err(PrintError::InvalidImageDimensions);
            },
            Err(PackError::Overflow) => {
                return Err(PrintError::SizeOverflow);
            },
            Err(PackError::InsufficientPixels) => {
                return Err(PrintError::PixelBufferTooSmall);
            },
        };
        let mut a9_payload: Vec<u8> = Vec::new();
        a9_payload.push((height % 256) as u8);
        a9_payload.push(((height / 256) % 256) as u8);
        a9_payload.push(0x30);
        a9_payload.push(mode);
        let a9 = build_control_packet(0xA9, a9_payload.as_slice());
        match self.transport.write_control(a9.as_slice()) {
            Ok(_) => (),
            Err(e) => {
                return Err(PrintError::TransportFailure(e));
            },
        }
        let resp = match self.transport.read_notification(duration_from_millis(2000)) {
            Ok(v) => v,
            Err(e) => {
                return Err(PrintError::TransportFailure(e));
            },
        };
        if !evaluate_size_ack(resp.as_slice()) {
            proof {
                assert(!size_ack_accepts(resp@));
            }
            return Err(PrintError::PrinterRejected);
        }
        let ghost accepted_ack = resp@;
        let size = match chunk_size {
            Some(s) => s,
            None => self.chunk_size,
        };
        let chunks = chunk_data(packed.as_slice(), size);
        let mut ci: usize = 0;
        while ci < chunks.len()
            invariant
                width > 0,
                height > 0,
                width * height <= pixels@.len(),
                width * height <= usize::MAX,
                size_ack_accepts(accepted_ack),
                self.chunk_size == old(self).chunk_size,
            decreases chunks@.len() - ci,
        {
            match self.transport.write_data(chunks[ci]) {
                Ok(_) => (),
                Err(e) => {
                    return Err(PrintError::TransportFailure(e));
                },
            }
            ci = ci + 1;
        }
        let ad_payload = vec![0x00u8];
        let ad = build_control_packet(0xAD, ad_payload.as_slice());
        match self.transport.write_control(ad.as_slice()) {
            Ok(_) => (),
            Err(e) => {
                return Err(PrintError::TransportFailure(e));
            },
        }
        // The deadline is the wall clock's: one minute from here. Each
        // discarded notification also spends one unit of the retry budget,
        // which keeps the wait finite even against a stalled clock.
        let start = instant_now();
        let mut budget: u64 = 60000;
        while budget > 0
            invariant
                width > 0,
                height > 0,
                width * height <= pixels@.len(),
                width * height <= usize::MAX,
                size_ack_accepts(accepted_ack),
                self.chunk_size == old(self).chunk_size,
            decreases budget,
        {
            let elapsed = duration_as_millis(&elapsed_since(&start));
            if elapsed >= 60000 {
                return Err(PrintError::SessionTimedOut);
            }
            let remaining: u64 = 60000 - (elapsed as u64);
            let wait = if remaining < budget {
                remaining
            } else {
                budget
            };
            let raw = match self.transport.read_notification(duration_from_millis(wait)) {
                Ok(v) => v,
                Err(e) => {
                    return Err(PrintError::TransportFailure(e));
                },
            };
            match parse_notification(raw.as_slice()) {
                Ok(n) => {
                    if n.command_id == 0xAA {
                        proof {
                            assert(size_ack_accepts(accepted_ack));
                            assert(parse_notification_spec(raw@) matches Ok(m) && m.command_id
                                == 0xAA);
                        }
                        return Ok(());
                    }
                },
                Err(pe) => {
                    return Err(PrintError::MalformedPacket(pe));
                },
            }
            budget = budget - 1;
        }
        Err(PrintError::SessionTimedOut)
    }

    /// Prints an already-rasterized text buffer 384 pixels wide: rotates and
    /// mirrors it as the printer expects of text, and prints its whole rows
    /// in 1-bit-per-pixel mode. A buffer shorter than one row has no rows to
    /// print, and one taller than the 16-bit line count can announce cannot
    /// be sent: both are rejected as invalid dimensions before any I/O, and
    /// no other validation error can arise.
    pub fn print_text_pixels(&mut self, pixels: &[u8]) -> (r: Result<(), PrintError>)
        ensures
            final(self).chunk_size == old(self).chunk_size,
            r == Err::<(), PrintError>(PrintError::InvalidImageDimensions) <==> pixels@.len() < 384
                || pixels@.len() / 384 > 0xFFFF,
            r != Err::<(), PrintError>(PrintError::SizeOverflow),
            r != Err::<(), PrintError>(PrintError::PixelBufferTooSmall),
            r matches Ok(v) ==> exists|ack: Seq<u8>, done: Seq<u8>|
                {
                    &&& #[trigger] size_ack_accepts(ack)
                    &&& #[trigger] parse_notification_spec(done) matches Ok(n)
                    &&& n.command_id == 0xAA
                },
            r == Err::<(), PrintError>(PrintError::PrinterRejected) ==> exists|ack: Seq<u8>|
                !(#[trigger] size_ack_accepts(ack)),
    {
        let width: usize = 384;
        let pixels_len = pixels.len();
        let height = pixels_len / width;
        if height > 0xFFFF {
            return Err(PrintError::InvalidImageDimensions);
        }
        proof {
            assert(width * height <= pixels@.len() && (height == 0 <==> pixels@.len() < 384)) by (
            nonlinear_arith)
                requires
                    width == 384,
                    height == pixels@.len() as int / 384,
            ;
        }
        let rotated = rotate_mirror_pixels(pixels, width, height);
        self.print_image(rotated.as_slice(), width, height, 0x00, None)
    }

    /// Prints text with an author signature: rasterizes it 384 pixels wide
    /// through the given rasterizer, then prints the buffer as text rows. A
    /// rasterization too tall for the 16-bit line count is rejected as
    /// invalid dimensions.
    pub fn print_text<R: TextRasterizer>(
        &mut self,
        rasterizer: &R,
        main: &str,
        author: &str,
    ) -> (r: Result<(), PrintError>)
        ensures
            final(self).chunk_size == old(self).chunk_size,
            r matches Ok(v) ==> exists|ack: Seq<u8>, done: Seq<u8>|
                {
                    &&& #[trigger] size_ack_accepts(ack)
                    &&& #[trigger] parse_notification_spec(done) matches Ok(n)
                    &&& n.command_id == 0xAA
                },
            r == Err::<(), PrintError>(PrintError::PrinterRejected) ==> exists|ack: Seq<u8>|
                !(#[trigger] size_ack_accepts(ack)),
    {
        let pixels = render_text_to_pixels(rasterizer, main, author, 384);
        self.print_text_pixels(pixels.as_slice())
    }
}

} // verus!
