//! Driver core for a line of BLE-connected thermal printers.
//!
//! The crate covers three pieces: the binary protocol codec (packet framing,
//! checksum, notification parsing, 1-bit-per-pixel packing, status decoding),
//! the dithering engine that converts grayscale images to the printer's
//! binary pixel format, and the print session logic that sequences control
//! packets, data chunks, and completion acknowledgement over a caller-supplied
//! transport.

pub mod dithering;
pub mod font;
pub mod printer;
pub mod protocol;
