# tapir

Label engine and printer protocol for the Dymo LabelManager family, verified with Verus,
and the small web server around it.

- `src/` — the verified library:
  - `engine/bitmap.rs` — 1-bit bitmaps: pixels, rotation, scaling, cropping, print-line
    columns, PNG in and out (through the `image` crate).
  - `engine/qr.rs` — QR, Micro QR, rMQR and Data Matrix symbols (through `qrcode2` and
    `datamatrix`): version tables, capacities, validation, manual and automatic rendering.
  - `engine/text.rs` — font families, font and strike choice, and the layout of
    rasterized glyphs into a label.
  - `usb/protocol.rs` — the ESC/SYN print stream; `usb/device.rs` — recognising printers.
  - `config.rs`, `label.rs`, `order.rs` — settings, device and tape definitions, ordering
    by name.
  - `api.rs` — the decisions behind the HTTP endpoints: printer status, print and feed
    streams, request defaults, text scaling.
- `app/` — the server: HTTP routes (`axum`), TOML files, font files and glyph
  rasterization (`freetype`), USB transfers (`nusb`).
- `tests/` — tests of the library on concrete values.
