# sax_wasm

The resumable part of a streaming XML parser for WebAssembly hosts. Between two chunks of a
document the parser can be saved to a checkpoint and restored from it later, in this process or
in another one.

- `src/sax/checkpoint.rs` saves a parser (`serialize`) and restores it (`deserialize`).
- `src/sax/format.rs` and `src/sax/record.rs` say what the bytes of a checkpoint are.
- `src/sax/laws.rs` states what holds of checkpoints: a parser comes back from its checkpoint,
  and what its tokens refer to in a chunk of the document never enters it. A checkpoint is refused
  that was cut off or has bytes behind it, that has another byte in its magic bytes or another
  version, or that was made for other events or another offset than those asked for. Other changes
  may go unnoticed: there is no checksum.
- `src/sax/parser.rs`, `src/sax/tag.rs` and `src/sax/events.rs` hold the state that is saved.
- `src/session.rs` is the parser that a host drives, with the replies that the host gets.
- `app/` is the interface of the module: pointers, memory and the host's event listener. The
  tokenizer is handed to it by `install`; it also copies a parser into the condition in which it
  can be saved.

Everything under `src/` is verified with Verus.
