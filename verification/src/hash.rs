//! The content checksum: a streaming XXH32 hasher and its byte encoding.
//!
//! The hasher itself comes from the `twox-hash` crate. The items in the first
//! half of this module describe it to the verifier and are believed, not
//! proved; everything after them is verified.
use twox_hash::XxHash32;
use vstd::prelude::*;

verus! {

/// `twox_hash::XxHash32`, the streaming 32-bit XXH hasher. Its fields are
/// private to its crate, so the verifier treats a value of it as opaque.
#[verifier::external_type_specification]
#[verifier::external_body]
pub struct ExXxHash32(XxHash32);

/// The XXH32 digest of `data` under `seed`.
pub uninterp spec fn xxh32(seed: u32, data: Seq<u8>) -> u32;

/// The seed a hasher was constructed with.
pub uninterp spec fn hasher_seed(h: XxHash32) -> u32;

/// Every byte written to a hasher since its construction, in order.
pub uninterp spec fn hasher_input(h: XxHash32) -> Seq<u8>;

/// Calls `XxHash32::with_seed`: a hasher that remembers `seed` and has
/// consumed nothing yet.
#[verifier::external_body]
pub(crate) fn hasher_with_seed(seed: u32) -> (h: XxHash32)
    ensures
        hasher_seed(h) == seed,
        hasher_input(h) == Seq::<u8>::empty(),
{
    XxHash32::with_seed(seed)
}

/// Calls `Hasher::write` on an `XxHash32`: the bytes are appended to what the
/// hasher has consumed and the seed stays. The hasher counts its input in a
/// `u64` and panics only if that count overflows, so the total must stay
/// within that range.
#[verifier::external_body]
pub(crate) fn hasher_write(h: &mut XxHash32, bytes: &[u8])
    requires
        hasher_input(*old(h)).len() + bytes@.len() <= u64::MAX,
    ensures
        hasher_seed(*final(h)) == hasher_seed(*old(h)),
        hasher_input(*final(h)) == hasher_input(*old(h)) + bytes@,
    no_unwind
{
    core::hash::Hasher::write(h, bytes)
}

/// Calls `Hasher::finish` on an `XxHash32`: the XXH32 digest of everything
/// consumed so far, widened to 64 bits. The hasher is left as it was.
#[verifier::external_body]
pub(crate) fn hasher_finish(h: &XxHash32) -> (digest: u64)
    ensures
        digest == xxh32(hasher_seed(*h), hasher_input(*h)),
{
    core::hash::Hasher::finish(h)
}

/// The four bytes of `x`, least significant first.
pub open spec fn le_bytes(x: u32) -> Seq<u8> {
    seq![
        (x % 0x100) as u8,
        (x / 0x100 % 0x100) as u8,
        (x / 0x1_0000 % 0x100) as u8,
        (x / 0x100_0000) as u8,
    ]
}

/// Encodes `x` as four little-endian bytes.
pub fn to_le_bytes(x: u32) -> (bytes: [u8; 4])
    ensures
        bytes@ == le_bytes(x),
{
    let bytes: [u8; 4] = [
        (x % 0x100) as u8,
        (x / 0x100 % 0x100) as u8,
        (x / 0x1_0000 % 0x100) as u8,
        (x / 0x100_0000) as u8,
    ];
    bytes
}

} // verus!
