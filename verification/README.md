# XHFS

A file system that lives on anything that can be read and written at an address: files, stores of
keys and values, or several of them joined and replicated. Its contents may be encrypted
(ChaCha20, with a key from SHA-256 or Argon2).

What the library does is stated in contracts and proved with Verus. A volume is modelled by the
bytes of its disk; every operation is specified by a function from the disk before to the disk
after, and the laws (what is written is read back, other files keep their contents, a volume that
is opened again is the one that was left, a write that fails leaves every file alone) are proved of
those functions. They hold while the first copy of each device answers; where it does not, reads
are still right as long as the copies agree and one of them answers. Of devices without further
copies, a success that is reported is never invented, whatever else fails.

## Layout

- `src/codec.rs`, `addr.rs`, `text.rs`, `utils.rs`, `path_laws.rs`: numbers, addresses, text, paths.
- `src/error.rs`, `messages.rs`, `report.rs`: faults, and how they and the records read in words.
- `src/crypto.rs`: keys and the stream cipher.
- `src/device/`: devices, replication (`logical`), the disk made of them (`disk`).
- `src/xhfs/`: the file system. `image`, `tree`, `store` and `blocks` hold the model; `files`,
  `dirs`, `ops`, `stream`, `mount` the operations; the files that end in `laws` the laws.
- `src/bfs/`: a simpler file system that lists freed stretches in its header, laid out alike.
- `src/config.rs`, `plan.rs`: configurations and the volume that one describes.
- `src/interface/`, `src/servers/`: what the commands and the WebDAV server do, and (`explain`) what
  is said where a command or a configuration is refused.
- `app/`: the program around the library: arguments, files, the network.

## Trust

Calls into other crates stand behind small functions marked `external_body`; the comment above each
says what is believed of it. They are in `crypto.rs`, `text.rs`, `utils.rs`, `report.rs`,
`config.rs` and `xhfs/bitmap.rs`.
