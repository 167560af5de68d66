use vstd::prelude::*;

verus! {

/// A digest of five field elements, each held as its canonical `u64` value.
///
/// Receiver preimages, lock-script hashes, addition records and block hashes
/// are all digests.
#[derive(Clone, Copy, Debug, PartialEq, Eq, Structural)]
pub struct Digest(pub u64, pub u64, pub u64, pub u64, pub u64);

/// The kinds of keys that a wallet derives from its seed.
#[derive(Clone, Copy, Debug, PartialEq, Eq, Structural)]
pub enum KeyType {
    Generation,
    Symmetric,
    EcHybrid,
    ViewingAddress,
}

/// All key types, in the order in which the wallet visits them.
pub open spec fn all_key_types() -> Seq<KeyType> {
    seq![KeyType::Generation, KeyType::Symmetric, KeyType::EcHybrid, KeyType::ViewingAddress]
}

/// Return all key types, in the order in which the wallet visits them.
pub fn key_types() -> (res: Vec<KeyType>)
    ensures
        res@ == all_key_types(),
{
    let mut v = Vec::new();
    v.push(KeyType::Generation);
    v.push(KeyType::Symmetric);
    v.push(KeyType::EcHybrid);
    v.push(KeyType::ViewingAddress);
    v
}

} // verus!
