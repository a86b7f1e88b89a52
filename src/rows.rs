use vstd::prelude::*;

verus! {

/// A name that an address holds, as the registry's index lists it.
pub struct NFT {
    pub name_hash: String,
    pub address: String,
    pub name: String,
}

/// A resolver record of a name, as the registry's index lists it.
pub struct Resolver {
    pub name_hash: String,
    pub category: String,
    pub name: String,
    pub version: i64,
}

} // verus!
