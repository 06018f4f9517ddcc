//! The keys that heights are stored under.

use vstd::bytes::{
    lemma_auto_spec_u64_to_from_le_bytes, spec_u64_from_le_bytes, spec_u64_to_le_bytes,
    u64_from_le_bytes, u64_to_le_bytes,
};
use vstd::prelude::*;

verus! {

/// The key of a height: its eight bytes, the lowest first.
pub open spec fn key_of(height: u64) -> Seq<u8> {
    spec_u64_to_le_bytes(height)
}

/// The key of a height.
pub fn height_to_key(height: u64) -> (r: Vec<u8>)
    ensures
        r@ == key_of(height),
{
    u64_to_le_bytes(height)
}

/// The height that a key belongs to. A key that is not of eight bytes belongs to none.
pub fn key_to_height(key: &[u8]) -> (r: Option<u64>)
    ensures
        r == (if key@.len() == 8 {
            Some(spec_u64_from_le_bytes(key@))
        } else {
            None
        }),
        forall|h: u64| r == Some(h) <==> #[trigger] key_of(h) == key@,
{
    proof {
        lemma_auto_spec_u64_to_from_le_bytes();
        assert(key@.len() == 8 ==> spec_u64_to_le_bytes(spec_u64_from_le_bytes(key@)) == key@);
    }
    if key.len() == 8 {
        Some(u64_from_le_bytes(key))
    } else {
        None
    }
}

/// Two heights have different keys.
pub proof fn keys_are_distinct(a: u64, b: u64)
    requires
        key_of(a) == key_of(b),
    ensures
        a == b,
{
    lemma_auto_spec_u64_to_from_le_bytes();
}

} // verus!
