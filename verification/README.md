# mcp_toolkit

Shared machinery for a family of standalone MCP tool servers, verified with
Verus. A server is a thin crate: it describes its tools, runs them, and leaves
the rest to this kit.

- `src/` is the verified library. It decides and computes; it never touches the
  system. What the file system, the environment or a tool has to say comes in as
  a value.
- `app/` is ordinary Rust around it: the command line, the transports, the file
  system, and the trait that a group of tools implements.
- `tests/` runs the library.

## The library

| module | what it holds |
| --- | --- |
| `cli` | the options that every server shares, and what they allow |
| `startup` | what a started server does, and the listing of its tools |
| `server` | what is advertised, how a request becomes a call and a call a reply |
| `tool` | tool definitions, outputs, failures and timeouts |
| `single`, `single_laws` | all tools squashed into one dispatching tool |
| `composite` | several groups served as one |
| `auth` | bearer tokens |
| `sandbox` | confinement to permitted directories |
| `paths`, `components`, `path_laws`, `join_laws` | paths by the rules of Unix, macOS and Windows |
| `spill`, `spill_laws` | output too large to return inline |
| `content` | telling text from binary content |
| `json`, `text` | JSON values and text |

Functions whose names read as sentences are laws: what they `ensures` holds of
the functions around them for every input that meets their `requires`.

What is taken on trust is small and marked `external_body` or
`assume_specification`: a few functions of `std` on strings, `serde_json`'s
numbers and writer, and `memchr`.
