//! Links: content identifiers, carried as tagged byte strings.

use vstd::prelude::*;

use crate::cbor::{parse_tagged_bytes, tagged_bytes_parse, tagged_bytes_wire, write_tagged_bytes};
use crate::error::{EncodeError, LinkError};
use crate::value::same_bytes;

verus! {

/// The tag under which a byte string is a link.
pub const CBOR_TAG_CID: u64 = 42;

/// A link: the bytes of a content identifier, taken as they are.
#[derive(Debug)]
pub struct Cid(pub Vec<u8>);

impl View for Cid {
    type V = Seq<u8>;

    /// The bytes of the link.
    open spec fn view(&self) -> Seq<u8> {
        self.0@
    }
}

impl PartialEq for Cid {
    /// Links are equal when they hold the same bytes.
    fn eq(&self, other: &Cid) -> (r: bool) {
        same_bytes(&self.0, &other.0)
    }
}

impl vstd::std_specs::cmp::PartialEqSpecImpl for Cid {
    open spec fn obeys_eq_spec() -> bool {
        true
    }

    open spec fn eq_spec(&self, other: &Cid) -> bool {
        self@ == other@
    }
}

/// What a byte string under `tag` gives as a link: its bytes where the tag is the link tag or
/// there is none, a failure that names the tag otherwise.
pub open spec fn accept_link(tag: Option<u64>, payload: Seq<u8>) -> Result<Seq<u8>, LinkError> {
    match tag {
        None => Ok(payload),
        Some(found) => if found == CBOR_TAG_CID {
            Ok(payload)
        } else {
            Err(LinkError::UnexpectedTag(found))
        },
    }
}

/// A link result by the bytes it holds.
pub open spec fn link_outcome(r: Result<Cid, LinkError>) -> Result<Seq<u8>, LinkError> {
    match r {
        Ok(cid) => Ok(cid@),
        Err(e) => Err(e),
    }
}

impl Cid {
    /// The link's wire form: its bytes as one byte string under the link tag. It is always
    /// given.
    pub fn serialize(&self) -> (r: Result<Vec<u8>, EncodeError>)
        ensures
            r matches Ok(wire) && wire@ == tagged_bytes_wire(CBOR_TAG_CID, self@),
    {
        match write_tagged_bytes(CBOR_TAG_CID, self.0.as_slice()) {
            Ok(wire) => Ok(wire),
            Err(e) => Err(EncodeError::Engine(e)),
        }
    }

    /// The link of a byte string that was read with `tag`.
    pub fn deserialize(tag: Option<u64>, value: Vec<u8>) -> (r: Result<Cid, LinkError>)
        ensures
            link_outcome(r) == accept_link(tag, value@),
    {
        match tag {
            None => Ok(Cid(value)),
            Some(found) => if found == CBOR_TAG_CID {
                Ok(Cid(value))
            } else {
                Err(LinkError::UnexpectedTag(found))
            },
        }
    }

    /// Reads a link from its wire form. What passes for the byte string is the engine's to
    /// say: besides a byte string it takes a text string, by its bytes, and an array of
    /// integers that each fit a byte.
    pub fn from_slice(wire: &[u8]) -> (r: Result<Cid, LinkError>)
        ensures
            match tagged_bytes_parse(wire@) {
                Some((tag, payload)) => link_outcome(r) == accept_link(tag, payload),
                None => r matches Err(LinkError::Engine(_)),
            },
    {
        match parse_tagged_bytes(wire) {
            Ok((tag, value)) => Cid::deserialize(tag, value),
            Err(e) => Err(LinkError::Engine(e)),
        }
    }
}

} // verus!
