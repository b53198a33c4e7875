//! An incremental, streaming parser for ICAP (RFC 3507) messages, with a few
//! companion services.
//!
//! The parser consumes opaque byte slices pushed in by the caller and yields
//! fully-formed, owned message values, including the encapsulated HTTP header
//! sections and chunk-transfer-decoded bodies. Its behaviour is specified
//! against a one-shot mathematical parse of the accumulated bytes
//! ([`model`]), so resuming after any read boundary provably changes
//! nothing; the crate-wide statements about streaming, chunk boundaries and
//! case-insensitive header lookup live in [`laws`].
//!
//! Beside the parser stand the configuration of a byte-forwarding service
//! ([`forward`]), a JSON response marker ([`json`]) and the JA4 TLS
//! client-hello fingerprint ([`ja4`]).

pub mod bytebuf;
pub mod text;
pub mod msg;
pub mod model;
pub mod parser;
pub mod laws;
pub mod forward;
pub mod json;
pub mod ja4;

pub use msg::{
    Encapsulated, Error, HeaderMap, IcapMessage, Method, SectionType, State, Version,
};
pub use parser::{ByteParser, MessageParser};
pub use forward::ForwardService;
pub use json::Json;
pub use ja4::{HelloSummary, Ja4, Ja4ComputeError, TlsVersion, TransportProtocol};
