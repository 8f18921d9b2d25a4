//! The CBOR engine. What this file holds is taken from `serde_cbor` on trust: a type it hands
//! over, a name for what one call computes, and the calls themselves.

use vstd::prelude::*;

verus! {

/// `serde_cbor::Error`, carried through as the engine gave it.
#[verifier::external_type_specification]
#[verifier::external_body]
pub struct ExError(serde_cbor::Error);

/// What `serde_cbor::from_slice` reads from `wire` as a `Tagged<ByteBuf>`: the tag, if there
/// is one, and the bytes; or `None` where it rejects the input. The engine takes as the bytes
/// the content of a byte string, and also the bytes of a text string and an array of integers
/// that each fit a byte.
pub uninterp spec fn tagged_bytes_parse(wire: Seq<u8>) -> Option<(Option<u64>, Seq<u8>)>;

/// `n` in `width` bytes, the most significant first.
pub open spec fn big_endian(n: nat, width: nat) -> Seq<u8>
    decreases width,
{
    if width == 0 {
        Seq::empty()
    } else {
        big_endian(n / 256, (width - 1) as nat).push((n % 256) as u8)
    }
}

/// The head of a data item: its major type in the top three bits, and `n` in the rest of the
/// first byte where it is below 24, else in the fewest of 1, 2, 4 or 8 bytes that hold it.
pub open spec fn head(major: u8, n: u64) -> Seq<u8>
    recommends
        major < 8,
{
    let top = major * 32;
    if n < 24 {
        seq![(top + n) as u8]
    } else if n < 0x100 {
        seq![(top + 24) as u8] + big_endian(n as nat, 1)
    } else if n < 0x1_0000 {
        seq![(top + 25) as u8] + big_endian(n as nat, 2)
    } else if n < 0x1_0000_0000 {
        seq![(top + 26) as u8] + big_endian(n as nat, 4)
    } else {
        seq![(top + 27) as u8] + big_endian(n as nat, 8)
    }
}

/// The wire form of a byte string under a tag: the head of the tag, the head of the byte
/// string with its length, and the bytes.
pub open spec fn tagged_bytes_wire(tag: u64, payload: Seq<u8>) -> Seq<u8> {
    head(6, tag) + head(2, payload.len() as u64) + payload
}

/// Calls `serde_cbor::from_slice` for a `Tagged<ByteBuf>`. Claimed: it succeeds exactly on the
/// inputs for which `tagged_bytes_parse` names a result, and hands back that tag and those bytes.
#[verifier::external_body]
pub(crate) fn parse_tagged_bytes(wire: &[u8]) -> (r: Result<
    (Option<u64>, Vec<u8>),
    serde_cbor::Error,
>)
    ensures
        r is Ok <==> tagged_bytes_parse(wire@) is Some,
        r matches Ok(found) ==> tagged_bytes_parse(wire@) == Some((found.0, found.1@)),
{
    serde_cbor::from_slice::<serde_cbor::tags::Tagged<serde_bytes::ByteBuf>>(wire).map(
        |tagged| (tagged.tag, tagged.value.into_vec()),
    )
}

/// Calls `serde_cbor::to_vec` on `payload` as a `serde_bytes::Bytes` inside a `Tagged` with
/// `tag`. Claimed: it succeeds, since it writes into a vector, and what it writes is the head
/// of the tag, the head of a byte string of the payload's length, and the payload.
#[verifier::external_body]
pub(crate) fn write_tagged_bytes(tag: u64, payload: &[u8]) -> (r: Result<
    Vec<u8>,
    serde_cbor::Error,
>)
    ensures
        r is Ok,
        r matches Ok(wire) ==> wire@ == tagged_bytes_wire(tag, payload@),
{
    serde_cbor::to_vec(
        &serde_cbor::tags::Tagged::new(Some(tag), serde_bytes::Bytes::new(payload)),
    )
}

} // verus!
