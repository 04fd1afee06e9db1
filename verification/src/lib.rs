//! The `SignerInfo` record of the Cryptographic Message Syntax (RFC 5652, section 5.3):
//! its data types, their DER encoding and decoding, and the canonical ordering of
//! `SET OF` collections, with every function verified against a model of the byte format.
//!
//! Length octets are written and read by `der`; names, serial numbers, algorithm
//! identifiers and attributes are held as their encodings and judged by `x509-cert`
//! and `spki`. What those crates do is assumed, in the few functions marked
//! `external_body`; everything else is proved.

pub mod cms_version;
pub mod element;
pub mod error;
pub mod length;
pub mod order;
pub mod set_of;
pub mod signer_identifier;
pub mod signer_info;
pub mod signer_infos;
pub mod theorems;
pub mod tlv;
pub mod value_ord;
