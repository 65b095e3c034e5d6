//! Configuration parsing, MTU arithmetic and the DNS wire codec of a tunnel
//! that carries a byte stream inside DNS queries and responses.

pub mod config;
pub mod mtu;
pub mod base32;
pub mod name;
pub mod message;

pub use config::{
    normalize_domain, parse_host_port, parse_resolver_addresses, AddressFamily, AddressKind,
    ClientConfig, ConfigError, HostPort,
};
pub use message::{
    decode_query, decode_response, encode_query, encode_response, QueryParams, Question,
    ResponseParams, CLASS_IN, RR_TXT,
};
pub use mtu::compute_mtu;
pub use name::{build_qname, max_payload_len_for_domain, CodecError, CodecErrorKind};
pub mod adapter;
