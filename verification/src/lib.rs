//! IPLD values and links over CBOR.
//!
//! A data item, as a CBOR engine announces it, is a [`Raw`]; it is decoded into an [`Ipld`],
//! where a byte string under tag 42 is a link. Links on their own are [`Cid`], read and
//! written by `serde_cbor`; what is taken from that engine on trust is in [`cbor`], and
//! everything else is proved.

pub mod cbor;
pub mod cid;
pub mod error;
pub mod laws;
pub mod raw;
pub mod text;
pub mod value;
pub mod visitor;

pub use crate::cid::{Cid, CBOR_TAG_CID};
pub use crate::error::{DecodeError, EncodeError, LinkError};
pub use crate::raw::Raw;
pub use crate::value::{Ipld, IpldMap};
pub use crate::visitor::IpldVisitor;
