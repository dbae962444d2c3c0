# ClipGlimpse

Transfers text from one screen to another as a cycle of QR codes: the sender
compresses the text, cuts it into chunks with a 12-byte header (magic "CG",
version, flags, big-endian sequence number and total, CRC-32 of the text) and
shows one QR code per chunk; the reader captures a screen region, decodes the
codes in any order and reassembles the text.

Layout:

- `src/` — the verified library (Verus): the chunk protocol and its
  reassembler (`protocol`), the LZ4 and UTF-8 codecs it calls (`codec`), QR
  image layout (`qr_gen`), channel extraction, contrast stretching and QR
  decoding (`qr_read`), the message history, the hotkey setting (`hotkey`),
  the icon, the text that saving the settings writes to `config.toml`
  (`read::config`), and the decisions of
  the generate window and of the scanning loop (`generate`, `read`).
- `app/` — the Windows program around it: command line, windows (eframe),
  screen capture, clipboard, notifications, hotkey polling, logging and the
  configuration file.
- `tests/` — tests of the library.
