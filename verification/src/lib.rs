//! Wire codec for encoding schemes: the metadata a mesh router advertises so
//! that peers can split a fixed-width routing label into its variable-width
//! route-hop segments.
//!
//! A scheme is an ordered list of [`EncodingSchemeForm`]s. The crate offers
//! the structural [`validate`] check, the bit-packing [`serialize_forms`] and
//! the matching [`deserialize_forms`], together with proofs (in
//! [`codec`]) that a validated scheme survives the wire round
//! trip unchanged. The [`keys`] module holds the textual form of node public
//! keys ([`CJDNSPublicKey`]).

pub mod bits;
pub mod codec;
pub mod keys;
pub mod scheme;

pub use bits::read_bits;
pub use codec::{deserialize_forms, serialize_forms};
pub use keys::{CJDNSPublicKey, KeyError};
pub use scheme::{EncodingSchemeError, EncodingSchemeForm, form_size, validate};
