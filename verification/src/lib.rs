//! A minimal client for the Chrome DevTools Protocol that speaks Chrome's
//! CBOR dialect ("crdtp") over `--remote-debugging-pipe=cbor`.
//!
//!   * [`cbor`]   the codec: encoder, decoder and the laws that tie them
//!   * [`client`] requests, and what a reply means
//!   * [`json`]   reading a message as JSON
//!   * [`pipe`]   launching the browser and cutting its output into frames
//!   * [`page`]   waiting for a page to load
//!
//! Everything here works on plain values. Processes, files and typed commands
//! belong to the program around it.

pub mod cbor;
pub mod client;
pub mod json;
pub mod page;
pub mod pipe;
pub mod text;
