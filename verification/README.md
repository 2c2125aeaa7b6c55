# on9log

Host-side decoder for binary log streams of ESP32 firmware, verified with Verus.

The firmware sends only addresses of format strings and raw arguments, in typed SLIP
frames with a CRC-16-CCITT checksum. The host finds the strings in the firmware image
and renders the messages.

- `src/` is the library. It performs no input or output, and every function of it is
  verified against its contract. What it takes on trust is marked
  `#[verifier::external_body]` or `assume_specification`, with a comment that says what
  is claimed of which outside function.
- `app/` is the program around it: the command lines of `on9log` and `on9log-capture`,
  serial ports, SQLite, the companion web server, and the texts of floating-point
  numbers.
- `tests/` run the library.

| Module | What it holds |
|--------|---------------|
| `wire`, `crc`, `framer` | the wire format, checksums, deframing |
| `decode` | packets and their arguments |
| `printf`, `cppfmt`, `float` | rendering format strings |
| `elf_resolv`, `load_commands`, `sorting` | addresses to strings and symbols |
| `render`, `term`, `plain`, `clock` | what is printed and saved |
| `session`, `preamble`, `keys`, `web`, `capture` | live and replayed streams, monitor keys, the web server's decisions, capture rows |
| `text`, `utf8` | digits, padding, bytes to text |

The library never computes with floating-point numbers. Where a message holds one, the
renderers list the texts they need (`float_fields`), and the caller hands them in.
