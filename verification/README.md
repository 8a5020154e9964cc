# tauri-plugin-fs-stream

The verified core of a Tauri plugin that exposes files to JavaScript as web
streams (`openReadFileStream`, `openReadTextFileLinesStream`,
`openWriteFileStream`, `closeAllFileStreams`, `countAllFileStreams`).

- `src/` is the library, written in Verus:
  - `cmds/read_file_stream.rs`: chunked reads that stop at the size a file was
    frozen at;
  - `cmds/read_text_file_lines_stream.rs`: line reading, byte order marks, line
    breaks per encoding, and the framing of lines into records;
  - `cmds/line_records.rs`: the record format, its decoder, and the laws that
    framing never splits records;
  - `cmds/write_file_stream.rs`: decoding write-stream commands from request
    headers and bodies (percent-encoded arguments, Base64 and data URLs);
  - `cmds/utils.rs`: resource ids on the wire and the path access decision;
  - `state.rs`, `config.rs`, `error.rs`: configuration, the set of open
    resources, and errors;
  - `io.rs`, `codec.rs`: the calls into `std::io`, `percent_encoding`,
    `base64` and UTF-8 decoding, with the contracts taken on trust.
- `app/` is the Tauri plugin around it: commands, IPC types with their serde
  derives, file opening, scopes and the resource table.
- `tests/` runs the library on concrete inputs.
