# rust-cdp

A minimal Chrome DevTools Protocol client that speaks Chrome's CBOR dialect
("crdtp") over `--remote-debugging-pipe=cbor`.

`src/` is the library, verified with Verus. It works on plain values: bytes,
text, numbers and its own types.

| module         | what it holds                                                   |
|----------------|-----------------------------------------------------------------|
| `cbor::wire`   | what the encoding of a value is, byte for byte (ghost code)      |
| `cbor::ser`    | the encoder, proved to write exactly that                        |
| `cbor::read`   | what reading an input means, errors included (ghost code)        |
| `cbor::de`     | the decoder, proved to read exactly that                         |
| `cbor::laws`   | what encoder and decoder promise together                        |
| `cbor::value`  | the values that a message can carry                              |
| `client`       | requests, and what a reply means                                 |
| `json`         | reading a message as JSON                                        |
| `pipe`         | launching the browser, and cutting its output into frames        |
| `page`         | waiting for a page to load                                       |
| `text`         | UTF-8, and numbers in words                                      |

`app/` is the program around it: processes, pipes, serde and typed commands.
`tests/` runs the library on concrete values.

## What is taken on trust

  * `String::push` appends a character (`text`).
  * `std::str::from_utf8` accepts exactly valid UTF-8 (`text::checked_utf8`).
  * `std::io::Error` is an opaque type, and its text is anything (`client`).

## Limits

The length field of an envelope has four bytes. An array or object inside
another whose payload has 2 to the power 32 bytes or more is written with a
wrong length, so the round trip is stated for values that fit.
