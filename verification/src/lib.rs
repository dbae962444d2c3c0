//! ClipGlimpse: moving text across a screen as a cycle of QR codes.
//!
//! The verified core: the binary chunk protocol (framing, CRC-32, chunking and
//! reassembly), the in-memory message history, the hotkey setting, QR image
//! layout, the pixel helpers of the reader, the saving of the settings and
//! the decisions of the scanning loop.
pub mod cli;
pub mod codec;
pub mod generate;
pub mod history;
pub mod hotkey;
pub mod icon;
pub mod protocol;
pub mod qr_gen;
pub mod qr_read;
pub mod read;
pub mod screen;
