//! Binary protocol codec: checksum, packet framing, notification parsing,
//! status decoding, 1-bit-per-pixel packing, chunking, and the rotate-mirror
//! pixel transform.

use vstd::prelude::*;

use crate::font::TextRasterizer;
use crate::printer::{PrinterState, PrinterStatus};

verus! {

use vstd::string::StringExecFns;

/// One round of the CRC-8 shift register: shift left, and fold in the
/// polynomial `0x07` when the top bit was set.
pub open spec fn crc8_shift(c: u8) -> u8 {
    if c & 0x80 != 0 {
        (c << 1) ^ 0x07
    } else {
        c << 1
    }
}

/// `n` rounds of the CRC-8 shift register.
pub open spec fn crc8_rounds(c: u8, n: nat) -> u8
    decreases n,
{
    if n == 0 {
        c
    } else {
        crc8_shift(crc8_rounds(c, (n - 1) as nat))
    }
}

/// Absorb one byte into the CRC-8 state: xor it in, then run eight rounds.
pub open spec fn crc8_step(c: u8, b: u8) -> u8 {
    crc8_rounds(c ^ b, 8)
}

/// CRC-8 of a byte sequence: polynomial `0x07`, initial value `0x00`,
/// most-significant-bit-first, no final xor.
pub open spec fn crc8_of(s: Seq<u8>) -> u8
    decreases s.len(),
{
    if s.len() == 0 {
        0x00
    } else {
        crc8_step(crc8_of(s.drop_last()), s.last())
    }
}

/// Computes the CRC-8 checksum used by the printer protocol
/// (polynomial `0x07`, initial value `0x00`, MSB-first, no final xor).
pub fn crc8(data: &[u8]) -> (r: u8)
    ensures
        r == crc8_of(data@),
{
    let mut crc: u8 = 0x00;
    let mut i: usize = 0;
    while i < data.len()
        invariant
            0 <= i <= data@.len(),
            crc == crc8_of(data@.subrange(0, i as int)),
        decreases data@.len() - i,
    {
        crc = crc ^ data[i];
        let mut round: usize = 0;
        let ghost start = crc;
        while round < 8
            invariant
                0 <= round <= 8,
                crc == crc8_rounds(start, round as nat),
            decreases 8 - round,
        {
            if (crc & 0x80) != 0 {
                crc = (crc << 1) ^ 0x07;
            } else {
                crc = crc << 1;
            }
            round = round + 1;
        }
        proof {
            assert(data@.subrange(0, i + 1).drop_last() =~= data@.subrange(0, i as int));
            assert(data@.subrange(0, i + 1).last() == data@[i as int]);
        }
        i = i + 1;
    }
    proof {
        assert(data@.subrange(0, data@.len() as int) =~= data@);
    }
    crc
}

/// The byte sequence of an outbound control packet: preamble `22 21`,
/// command byte, a zero reserved byte, payload length as little-endian
/// 16-bit, the payload verbatim, the payload's CRC-8, trailer `FF`.
pub open spec fn control_packet_spec(command_id: u8, payload: Seq<u8>) -> Seq<u8> {
    seq![
        0x22u8,
        0x21u8,
        command_id,
        0x00u8,
        (payload.len() % 256) as u8,
        ((payload.len() / 256) % 256) as u8,
    ] + payload + seq![crc8_of(payload), 0xFFu8]
}

/// Builds an outbound control packet ready to send to the printer.
///
/// The 16-bit length field bounds the payload to 65535 bytes.
pub fn build_control_packet(command_id: u8, payload: &[u8]) -> (r: Vec<u8>)
    requires
        payload@.len() <= 0xFFFF,
    ensures
        r@ == control_packet_spec(command_id, payload@),
{
    let n = payload.len();
    let mut out: Vec<u8> = Vec::new();
    out.push(0x22);
    out.push(0x21);
    out.push(command_id);
    out.push(0x00);
    out.push((n % 256) as u8);
    out.push(((n / 256) % 256) as u8);
    let mut i: usize = 0;
    while i < payload.len()
        invariant
            0 <= i <= payload@.len(),
            out@ == control_packet_spec(command_id, payload@).subrange(0, 6 + i),
        decreases payload@.len() - i,
    {
        out.push(payload[i]);
        proof {
            assert(out@ =~= control_packet_spec(command_id, payload@).subrange(0, 6 + i + 1));
        }
        i = i + 1;
    }
    out.push(crc8(payload));
    out.push(0xFF);
    proof {
        assert(out@ =~= control_packet_spec(command_id, payload@));
    }
    out
}

/// Why an inbound notification failed to parse.
#[derive(Debug, Clone, Copy, PartialEq, Eq, Structural)]
pub enum ParseError {
    /// Fewer than 7 bytes in all.
    TooShort,
    /// The first two bytes are not `22 21`.
    BadPreamble,
    /// Fewer bytes than the declared payload length needs.
    TruncatedPayload,
}

/// A parsed inbound notification packet.
#[derive(Debug, Clone, PartialEq, Eq)]
pub struct Notification {
    pub command_id: u8,
    pub unknown: u8,
    pub payload: Vec<u8>,
    /// The byte immediately after the payload, when present. It is captured
    /// but never verified: the firmware sometimes omits it or sends an
    /// invalid value, and that is not itself an error.
    pub crc: Option<u8>,
}

/// The mathematical model of a parsed notification.
pub ghost struct NotificationModel {
    pub command_id: u8,
    pub unknown: u8,
    pub payload: Seq<u8>,
    pub crc: Option<u8>,
}

impl View for Notification {
    type V = NotificationModel;

    open spec fn view(&self) -> NotificationModel {
        NotificationModel {
            command_id: self.command_id,
            unknown: self.unknown,
            payload: self.payload@,
            crc: self.crc,
        }
    }
}

/// The declared payload length of a notification: little-endian 16-bit at
/// offsets 4 and 5.
pub open spec fn notification_payload_len(data: Seq<u8>) -> int {
    data[4] + 256 * data[5]
}

/// What parsing an inbound notification yields: the command byte, the
/// reserved/unknown byte, the declared payload, and the optional trailing
/// checksum byte, or the first failing condition.
pub open spec fn parse_notification_spec(data: Seq<u8>) -> Result<NotificationModel, ParseError> {
    if data.len() < 7 {
        Err(ParseError::TooShort)
    } else if data[0] != 0x22 || data[1] != 0x21 {
        Err(ParseError::BadPreamble)
    } else if data.len() < 6 + notification_payload_len(data) {
        Err(ParseError::TruncatedPayload)
    } else {
        let plen = notification_payload_len(data);
        Ok(NotificationModel {
            command_id: data[2],
            unknown: data[3],
            payload: data.subrange(6, 6 + plen),
            crc: if data.len() > 6 + plen {
                Some(data[6 + plen])
            } else {
                None
            },
        })
    }
}

/// Parses an inbound notification packet.
///
/// The trailing checksum byte, when present, is captured but not verified
/// against a recomputed checksum: this mirrors the firmware, which sometimes
/// omits it or sends an invalid value.
pub fn parse_notification(data: &[u8]) -> (r: Result<Notification, ParseError>)
    ensures
        match r {
            Ok(n) => parse_notification_spec(data@) == Ok::<NotificationModel, ParseError>(n@),
            Err(e) => parse_notification_spec(data@) == Err::<NotificationModel, ParseError>(e),
        },
{
    if data.len() < 7 {
        return Err(ParseError::TooShort);
    }
    if data[0] != 0x22 || data[1] != 0x21 {
        return Err(ParseError::BadPreamble);
    }
    let cmd = data[2];
    let unknown = data[3];
    let payload_len: usize = data[4] as usize + 256 * (data[5] as usize);
    if data.len() < 6 + payload_len {
        return Err(ParseError::TruncatedPayload);
    }
    let mut payload: Vec<u8> = Vec::new();
    let mut i: usize = 0;
    while i < payload_len
        invariant
            0 <= i <= payload_len,
            6 + payload_len <= data@.len() <= usize::MAX,
            payload@ == data@.subrange(6, 6 + i),
        decreases payload_len - i,
    {
        payload.push(data[6 + i]);
        proof {
            assert(payload@ =~= data@.subrange(6, 6 + i + 1));
        }
        i = i + 1;
    }
    let crc = if data.len() > 6 + payload_len {
        Some(data[6 + payload_len])
    } else {
        None
    };
    Ok(Notification { command_id: cmd, unknown, payload, crc })
}

/// Law: a control packet parses back as a notification that recovers the
/// command byte, a zero reserved byte, the payload verbatim, and the
/// payload's checksum as the trailing byte.
pub proof fn lemma_control_packet_parses(command_id: u8, payload: Seq<u8>)
    requires
        payload.len() <= 0xFFFF,
    ensures
        parse_notification_spec(control_packet_spec(command_id, payload))
            == Ok::<NotificationModel, ParseError>(NotificationModel {
                command_id: command_id,
                unknown: 0x00,
                payload: payload,
                crc: Some(crc8_of(payload)),
            }),
{
    let data = control_packet_spec(command_id, payload);
    assert(data.len() == 8 + payload.len());
    assert(data[4] == (payload.len() % 256) as u8);
    assert(data[5] == ((payload.len() / 256) % 256) as u8);
    assert(notification_payload_len(data) == payload.len()) by {
        let n = payload.len() as int;
        assert(n % 256 + 256 * ((n / 256) % 256) == n) by (nonlinear_arith)
            requires 0 <= n <= 0xFFFF;
    }
    assert(data.subrange(6, 6 + payload.len() as int) =~= payload);
    assert(data[6 + payload.len() as int] == crc8_of(payload));
}

/// Law: a hand-built notification frame sharing a payload round-trips it
/// byte-for-byte: the parser recovers the command byte, the unknown byte,
/// the payload verbatim, and the first trailing byte as the optional,
/// unverified checksum. A frame with an empty payload and no trailing byte
/// is only six bytes and fails the minimum-length check instead.
pub proof fn lemma_hand_built_notification_parses(
    command_id: u8,
    unknown: u8,
    payload: Seq<u8>,
    tail: Seq<u8>,
)
    requires
        payload.len() <= 0xFFFF,
        payload.len() + tail.len() >= 1,
    ensures
        parse_notification_spec(
            seq![
                0x22u8,
                0x21u8,
                command_id,
                unknown,
                (payload.len() % 256) as u8,
                ((payload.len() / 256) % 256) as u8,
            ] + payload + tail,
        ) == Ok::<NotificationModel, ParseError>(NotificationModel {
            command_id: command_id,
            unknown: unknown,
            payload: payload,
            crc: if tail.len() > 0 {
                Some(tail[0])
            } else {
                None
            },
        }),
{
    let data = seq![
        0x22u8,
        0x21u8,
        command_id,
        unknown,
        (payload.len() % 256) as u8,
        ((payload.len() / 256) % 256) as u8,
    ] + payload + tail;
    assert(data.len() == 6 + payload.len() + tail.len());
    assert(notification_payload_len(data) == payload.len()) by {
        let n = payload.len() as int;
        assert(n % 256 + 256 * ((n / 256) % 256) == n) by (nonlinear_arith)
            requires 0 <= n <= 0xFFFF;
    }
    assert(data.subrange(6, 6 + payload.len() as int) =~= payload);
    if tail.len() > 0 {
        assert(data[6 + payload.len() as int] == tail[0]);
    }
}

/// Why a pixel buffer could not be packed.
#[derive(Debug, Clone, Copy, PartialEq, Eq, Structural)]
pub enum PackError {
    /// Width or height is zero.
    InvalidDimensions,
    /// `width * height` overflows the address space.
    Overflow,
    /// The buffer is shorter than `width * height`.
    InsufficientPixels,
}

/// Packed bytes per row: 8 pixels per byte, the last byte of a row possibly
/// partial.
pub open spec fn bytes_per_row(width: int) -> int {
    (width + 7) / 8
}

/// How many pixels the group starting at column `8 * group` holds: 8, or
/// fewer for the last group of a row.
pub open spec fn group_len(width: int, group: int) -> int {
    if width - group * 8 < 8 {
        width - group * 8
    } else {
        8
    }
}

/// The byte packing the `count` pixels starting at `start`: bit `k` is set
/// exactly when pixel `start + k` is 0 (black); unset bits default to 0
/// (white).
pub open spec fn group_byte(pixels: Seq<u8>, start: int, count: int) -> u8
    decreases count,
{
    if count <= 0 {
        0u8
    } else {
        group_byte(pixels, start, count - 1) | (if pixels[start + count - 1] == 0 {
            1u8 << ((count - 1) as u8)
        } else {
            0u8
        })
    }
}

/// The packed 1-bit-per-pixel image: rows top to bottom, each row
/// independently byte-aligned, bit 0 of each byte the leftmost pixel of its
/// 8-pixel group, bit value 1 = black.
pub open spec fn pack_spec(pixels: Seq<u8>, width: int, height: int) -> Seq<u8> {
    Seq::new(
        (height * bytes_per_row(width)) as nat,
        |i: int|
            group_byte(
                pixels,
                (i / bytes_per_row(width)) * width + (i % bytes_per_row(width)) * 8,
                group_len(width, i % bytes_per_row(width)),
            ),
    )
}

/// Packs a grayscale buffer (0 = black, anything else = white) into the
/// printer's 1-bit-per-pixel layout. Row groups never span across rows.
pub fn pack_1bpp_pixels(pixels: &[u8], width: usize, height: usize) -> (r: Result<
    Vec<u8>,
    PackError,
>)
    ensures
        match r {
            Ok(out) => width > 0 && height > 0 && width * height <= usize::MAX
                && width * height <= pixels@.len()
                && out@ == pack_spec(pixels@, width as int, height as int),
            Err(PackError::InvalidDimensions) => width == 0 || height == 0,
            Err(PackError::Overflow) => width > 0 && height > 0
                && width * height > usize::MAX,
            Err(PackError::InsufficientPixels) => width > 0 && height > 0
                && width * height <= usize::MAX && pixels@.len() < width * height,
        },
{
    if width == 0 || height == 0 {
        return Err(PackError::InvalidDimensions);
    }
    let required = match width.checked_mul(height) {
        Some(n) => n,
        None => {
            return Err(PackError::Overflow);
        },
    };
    if pixels.len() < required {
        return Err(PackError::InsufficientPixels);
    }
    let bpr = width / 8 + (if width % 8 != 0 { 1 } else { 0 });
    assert(bpr == bytes_per_row(width as int));
    assert(1 <= bpr <= width);
    let ghost packed = pack_spec(pixels@, width as int, height as int);
    proof {
        assert(height * bpr <= height * width) by (nonlinear_arith)
            requires 1 <= bpr <= width, height >= 1;
        assert(height * width == width * height) by (nonlinear_arith);
        assert(packed.len() == height * bpr);
    }
    let mut out: Vec<u8> = Vec::new();
    let mut row: usize = 0;
    while row < height
        invariant
            0 <= row <= height,
            width >= 1,
            height >= 1,
            bpr == bytes_per_row(width as int),
            1 <= bpr <= width,
            width * height <= pixels@.len() <= usize::MAX,
            packed == pack_spec(pixels@, width as int, height as int),
            packed.len() == height * bpr,
            row * bpr <= height * bpr,
            out@ == packed.subrange(0, row * bpr),
        decreases height - row,
    {
        proof {
            assert(row * width + width <= width * height) by (nonlinear_arith)
                requires 0 <= row < height;
            assert(row * bpr + bpr <= height * bpr) by (nonlinear_arith)
                requires 0 <= row < height;
        }
        let row_off = row * width;
        let mut group: usize = 0;
        while group < bpr
            invariant
                0 <= group <= bpr,
                0 <= row < height,
                width >= 1,
                height >= 1,
                bpr == bytes_per_row(width as int),
                1 <= bpr <= width,
                width * height <= pixels@.len() <= usize::MAX,
                row_off == row * width,
                row * width + width <= width * height,
                row * bpr + bpr <= height * bpr,
                packed == pack_spec(pixels@, width as int, height as int),
                packed.len() == height * bpr,
                out@ == packed.subrange(0, row * bpr + group),
            decreases bpr - group,
        {
            proof {
                assert(group * 8 + group_len(width as int, group as int) <= width
                    && (group < bpr - 1 ==> group_len(width as int, group as int) == 8)
                    && group_len(width as int, group as int) >= 1) by (nonlinear_arith)
                    requires 0 <= group < bpr, bpr == (width + 7) / 8, width >= 1;
            }
            let base = row_off + group * 8;
            let end = if width - group * 8 < 8 {
                row_off + width
            } else {
                base + 8
            };
            assert(end - base == group_len(width as int, group as int));
            let count = end - base;
            let mut b: u8 = 0;
            let mut bit: usize = 0;
            while bit < count
                invariant
                    0 <= bit <= count <= 8,
                    count == end - base,
                    base + count <= row_off + width,
                    row_off + width <= width * height <= pixels@.len(),
                    b == group_byte(pixels@, base as int, bit as int),
                decreases count - bit,
            {
                if pixels[base + bit] == 0 {
                    b = b | (1u8 << (bit as u8));
                } else {
                    proof {
                        assert(b | 0u8 == b) by (bit_vector);
                    }
                }
                bit = bit + 1;
            }
            out.push(b);
            proof {
                let i: int = row * bpr + group;
                assert(i / (bpr as int) == row && i % (bpr as int) == group) by (nonlinear_arith)
                    requires 0 <= group < bpr, 0 <= row, bpr >= 1, i == row * bpr + group;
                assert(packed[i as int] == b);
                assert(out@ =~= packed.subrange(0, row * bpr + group + 1));
            }
            group = group + 1;
        }
        proof {
            assert(row * bpr + bpr == (row + 1) * bpr) by (nonlinear_arith);
            assert((row + 1) * bpr <= height * bpr) by (nonlinear_arith)
                requires row + 1 <= height, bpr >= 0;
        }
        row = row + 1;
    }
    proof {
        assert(out@ =~= packed);
    }
    Ok(out)
}

/// The status a payload decodes to. A payload shorter than 13 bytes yields
/// all-`None`/`Unknown`. Otherwise byte 12 is the overall error flag: when
/// zero, byte 6 maps 0 to `Standby`, 1 to `Printing`, anything else to
/// `Unknown`; when nonzero, byte 13 (if present) is the error code. Battery
/// (byte 9) and temperature (byte 10) are read whenever the length guard
/// passes, even in the error branch.
pub open spec fn printer_status_spec(payload: Seq<u8>) -> PrinterStatus {
    if payload.len() < 13 {
        PrinterStatus { battery_percent: None, temperature: None, state: PrinterState::Unknown }
    } else {
        PrinterStatus {
            battery_percent: Some(payload[9]),
            temperature: Some(payload[10]),
            state: if payload[12] == 0 {
                if payload[6] == 0 {
                    PrinterState::Standby
                } else if payload[6] == 1 {
                    PrinterState::Printing
                } else {
                    PrinterState::Unknown
                }
            } else if payload.len() > 13 {
                PrinterState::Error(payload[13])
            } else {
                PrinterState::Unknown
            },
        }
    }
}

/// Decodes a status notification payload. Total: never fails, whatever the
/// payload length.
pub fn parse_printer_status(payload: &[u8]) -> (r: PrinterStatus)
    ensures
        r == printer_status_spec(payload@),
{
    if payload.len() < 13 {
        return PrinterStatus {
            battery_percent: None,
            temperature: None,
            state: PrinterState::Unknown,
        };
    }
    let state = if payload[12] == 0 {
        if payload[6] == 0 {
            PrinterState::Standby
        } else if payload[6] == 1 {
            PrinterState::Printing
        } else {
            PrinterState::Unknown
        }
    } else if payload.len() > 13 {
        PrinterState::Error(payload[13])
    } else {
        PrinterState::Unknown
    };
    PrinterStatus { battery_percent: Some(payload[9]), temperature: Some(payload[10]), state }
}

/// The `i`-th chunk of `data` under chunk size `n`: `n` bytes, or whatever
/// remains for the last chunk.
pub open spec fn chunk_spec(data: Seq<u8>, n: int, i: int) -> Seq<u8> {
    data.subrange(i * n, if (i + 1) * n < data.len() { (i + 1) * n } else { data.len() as int })
}

/// Splits `data` into consecutive chunks of exactly `chunk_size` bytes except
/// possibly the last. A chunk size of zero returns the entire input as a
/// single chunk.
pub fn chunk_data<'a>(data: &'a [u8], chunk_size: usize) -> (r: Vec<&'a [u8]>)
    ensures
        chunk_size == 0 ==> r@.len() == 1 && r@[0]@ == data@,
        chunk_size > 0 ==> {
            &&& r@.len() == (data@.len() + chunk_size - 1) / (chunk_size as int)
            &&& forall|i: int|
                0 <= i < r@.len() ==> (#[trigger] r@[i])@ == chunk_spec(
                    data@,
                    chunk_size as int,
                    i,
                )
        },
{
    let mut r: Vec<&[u8]> = Vec::new();
    if chunk_size == 0 {
        r.push(data);
        return r;
    }
    let len = data.len();
    let mut pos: usize = 0;
    proof {
        assert(r@.len() * chunk_size == 0) by (nonlinear_arith)
            requires r@.len() == 0;
    }
    while pos < len
        invariant
            chunk_size >= 1,
            len == data@.len(),
            pos == if r@.len() * chunk_size < len {
                r@.len() * chunk_size
            } else {
                len as int
            },
            r@.len() >= 1 ==> (r@.len() - 1) * chunk_size < len,
            forall|i: int|
                0 <= i < r@.len() ==> (#[trigger] r@[i])@ == chunk_spec(
                    data@,
                    chunk_size as int,
                    i,
                ),
        decreases len - pos,
    {
        let ghost k = r@.len();
        proof {
            assert(pos == k * chunk_size);
            assert((k + 1) * chunk_size == k * chunk_size + chunk_size) by (nonlinear_arith);
        }
        let end = if len - pos > chunk_size {
            pos + chunk_size
        } else {
            len
        };
        let chunk = vstd::slice::slice_subrange(data, pos, end);
        r.push(chunk);
        proof {
            assert(r@[k as int]@ == chunk_spec(data@, chunk_size as int, k as int));
        }
        pos = end;
    }
    proof {
        let k = r@.len() as int;
        let n = chunk_size as int;
        let l = len as int;
        if l == 0 {
            assert(k == 0);
            assert((l + n - 1) / n == 0) by (nonlinear_arith)
                requires n >= 1, l == 0;
        } else {
            assert(k >= 1);
            assert(l <= k * n);
            assert((k - 1) * n < l);
            assert(k == (l + n - 1) / n) by (nonlinear_arith)
                requires n >= 1, l >= 1, l <= k * n, (k - 1) * n < l;
        }
    }
    r
}

/// All the chunks of `data` under a positive chunk size `n`, in order.
pub open spec fn chunks_spec(data: Seq<u8>, n: int) -> Seq<Seq<u8>> {
    Seq::new(((data.len() + n - 1) / n) as nat, |i: int| chunk_spec(data, n, i))
}

/// The first `k` chunks concatenate to the first `min(k * n, len)` bytes of
/// the input.
proof fn lemma_chunks_prefix_flatten(data: Seq<u8>, n: int, k: int)
    requires
        n >= 1,
        0 <= k <= (data.len() + n - 1) / n,
    ensures
        Seq::new(k as nat, |i: int| chunk_spec(data, n, i)).flatten_alt() == data.take(
            if k * n < data.len() {
                k * n
            } else {
                data.len() as int
            },
        ),
    decreases k,
{
    let prefix = Seq::new(k as nat, |i: int| chunk_spec(data, n, i));
    if k == 0 {
        assert(prefix.flatten_alt() =~= data.take(0));
    } else {
        lemma_chunks_prefix_flatten(data, n, k - 1);
        assert((k - 1) * n < data.len()) by (nonlinear_arith)
            requires
                n >= 1,
                1 <= k <= (data.len() + n - 1) / n,
        ;
        assert(prefix.drop_last() =~= Seq::new((k - 1) as nat, |i: int| chunk_spec(data, n, i)));
        assert(prefix.flatten_alt() == prefix.drop_last().flatten_alt() + prefix.last());
        assert((k - 1) * n == k * n - n) by (nonlinear_arith);
        assert(prefix.flatten_alt() =~= data.take(
            if k * n < data.len() {
                k * n
            } else {
                data.len() as int
            },
        ));
    }
}

/// Law: under a positive chunk size the chunks partition the input. Every
/// chunk but the last holds exactly `n` bytes, the last holds between 1 and
/// `n`, and the concatenation of all chunks in order is the input itself —
/// no byte dropped, duplicated or reordered.
pub proof fn lemma_chunks_partition(data: Seq<u8>, n: int)
    requires
        n >= 1,
    ensures
        chunks_spec(data, n).len() == (data.len() + n - 1) / n,
        forall|i: int|
            0 <= i < chunks_spec(data, n).len() - 1 ==> (#[trigger] chunks_spec(data, n)[i]).len()
                == n,
        data.len() > 0 ==> chunks_spec(data, n).len() >= 1 && 1 <= chunks_spec(
            data,
            n,
        ).last().len() <= n,
        chunks_spec(data, n).flatten() == data,
{
    let count = (data.len() + n - 1) / n;
    let chunks = chunks_spec(data, n);
    assert(data.len() <= count * n && (count - 1) * n < data.len() && (data.len() > 0 ==> count
        >= 1) && (data.len() == 0 ==> count == 0)) by (nonlinear_arith)
        requires
            n >= 1,
            count == (data.len() + n - 1) / n,
            data.len() >= 0,
    ;
    assert forall|i: int| 0 <= i < count - 1 implies (#[trigger] chunks[i]).len() == n by {
        assert(0 <= i * n && (i + 1) * n <= (count - 1) * n && (i + 1) * n == i * n + n) by (
        nonlinear_arith)
            requires 0 <= i < count - 1, n >= 1;
    }
    if data.len() > 0 {
        assert(0 <= (count - 1) * n) by (nonlinear_arith)
            requires count >= 1, n >= 1;
        assert(chunks.last() == chunk_spec(data, n, count - 1));
        assert((count - 1) * n + n == count * n) by (nonlinear_arith);
    }
    lemma_chunks_prefix_flatten(data, n, count);
    assert(chunks.flatten_alt() =~= data) by {
        assert(data.take(data.len() as int) =~= data);
    }
    chunks.lemma_flatten_and_flatten_alt_are_equivalent();
}

/// The rotate-and-mirror transform: the pixel at `(row, col)` moves to
/// `(height - 1 - row, width - 1 - col)` — a 180-degree rotation, which on
/// the flat row-major buffer is exactly a reversal of the first
/// `width * height` bytes. Bytes beyond `width * height` are zeroed.
pub open spec fn rotate_mirror_spec(s: Seq<u8>, width: int, height: int) -> Seq<u8> {
    Seq::new(
        s.len(),
        |i: int|
            if i < width * height {
                s[width * height - 1 - i]
            } else {
                0u8
            },
    )
}

/// Rotates and mirrors a row-major pixel buffer (180-degree rotation).
pub fn rotate_mirror_pixels(pixels: &[u8], width: usize, height: usize) -> (r: Vec<u8>)
    requires
        width * height <= pixels@.len(),
    ensures
        r@ == rotate_mirror_spec(pixels@, width as int, height as int),
{
    let buf_len = pixels.len();
    assert(width * height <= buf_len);
    let n = width * height;
    let mut r: Vec<u8> = vec![0u8; buf_len];
    let mut i: usize = 0;
    while i < n
        invariant
            0 <= i <= n,
            n == width * height <= pixels@.len(),
            r@.len() == pixels@.len(),
            forall|j: int| 0 <= j < i ==> r@[n - 1 - j] == pixels@[j],
            forall|j: int| i <= j < n ==> r@[#[trigger] (n - 1 - j)] == 0,
            forall|j: int| n <= j < r@.len() ==> r@[j] == 0,
        decreases n - i,
    {
        r[n - 1 - i] = pixels[i];
        i = i + 1;
    }
    proof {
        assert(r@ =~= rotate_mirror_spec(pixels@, width as int, height as int));
    }
    r
}

/// Law: the transform sends the pixel at `(row, col)` to
/// `(height - 1 - row, width - 1 - col)`.
pub proof fn lemma_rotate_mirror_maps(s: Seq<u8>, width: int, height: int, row: int, col: int)
    requires
        width * height <= s.len(),
        0 <= row < height,
        0 <= col < width,
    ensures
        rotate_mirror_spec(s, width, height)[(height - 1 - row) * width + (width - 1 - col)]
            == s[row * width + col],
{
    assert((height - 1 - row) * width + (width - 1 - col) == width * height - 1 - (row * width
        + col)) by (nonlinear_arith);
    assert(0 <= row * width + col < width * height) by (nonlinear_arith)
        requires 0 <= row < height, 0 <= col < width;
}

/// Renders the main text, a blank line, and the author name behind a `-- `
/// signature marker into a grayscale pixel buffer (row-major, 0 = black,
/// 255 = white) `width` pixels wide, through the caller-supplied rasterizer
/// capability. The buffer's shape is whatever the rasterizer produced:
/// callers validate it before packing.
pub fn render_text_to_pixels<R: TextRasterizer>(
    rasterizer: &R,
    main: &str,
    author: &str,
    width: usize,
) -> Vec<u8> {
    let mut full = String::new();
    full.append(main);
    full.append("\n\n-- ");
    full.append(author);
    rasterizer.rasterize(full.as_str(), width, 48)
}

/// Law: the rotate-and-mirror transform is an involution — applying it twice
/// to any rectangular buffer returns the original buffer unchanged.
pub proof fn lemma_rotate_mirror_involution(s: Seq<u8>, width: int, height: int)
    requires
        s.len() == width * height,
    ensures
        rotate_mirror_spec(rotate_mirror_spec(s, width, height), width, height) == s,
{
    assert(rotate_mirror_spec(rotate_mirror_spec(s, width, height), width, height) =~= s);
}

} // verus!
