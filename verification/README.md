# snell

A verified implementation of the Snell proxy protocol, versions 5 and 6: key
schedule, encryption framing, traffic shaping, replay protection, and the rules
by which a server and a client treat connections.

- `src/` is the library. Verus verifies it, all but the wrappers round outside
  calls (see "What is trusted"). Its functions have contracts, with one exception:
  a random token, of which nothing can be promised. The laws of the protocol (a
  reader gives back what a writer wrote, the mix is its own inverse, a replayed
  salt is refused, no guarded address is ever dialed, ...) stand beside the
  functions as public proof functions.
- `app/` is the program around it: sockets, TLS, name lookup, logging.
- `tests/` runs the library.

## Layout of the library

| Module | What it holds |
|---|---|
| `crypto` | the outside ciphers and hashes, and what is trusted of them |
| `cipher` | session keys, nonces, sealed chunks |
| `stream` | reading and writing a row of frames, for any framing |
| `snell` | requests, replies, plain chunks |
| `v6` | profile, first frame, filler, mix, sizing, shaped records, raw frames, mode |
| `session` | one direction of a session in any mode |
| `salt_cache`, `cooldown` | replay protection and rate limit |
| `obfs` | disguises, handshake salts |
| `server`, `guard`, `resolver` | what is connected to, and how it is answered |
| `quic`, `uot` | datagrams, beside and inside a session |
| `socks` | the client's SOCKS5 side |
| `relay` | adaptive read sizes |
| `config`, `activation` | settings and handed over sockets |

## What is trusted

The wrappers in `crypto`, `salt_cache` and `text` call AES-GCM, Argon2, BLAKE2,
a random number generator, an LRU cache and the standard UTF-8 decoder. Each
says in its comment what is claimed of the call. Nothing else is taken on trust.
