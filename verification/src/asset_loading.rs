//! Choosing one of the image variants in an asset directory.
use vstd::prelude::*;

verus! {

/// Which of `count` variants a tile gets from the hash of its coordinates:
/// the hash, taken as a `usize`, modulo the number of variants.
pub fn variant_index(hash: u64, count: usize) -> (index: usize)
    requires
        count > 0,
    ensures
        index == (hash as usize) % count,
        index < count,
{
    (hash as usize) % count
}

} // verus!
