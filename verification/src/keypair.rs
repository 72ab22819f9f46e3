//! Keypairs that transactions are signed with.

use vstd::prelude::*;

use crate::pubkey::{keypair_public, Pubkey};

verus! {

/// A keypair: 32 secret bytes, then the 32 bytes of the public key.
#[derive(Clone, Copy, PartialEq, Eq)]
pub struct Keypair {
    pub bytes: [u8; 64],
}

/// The public half of the bytes of a keypair.
pub open spec fn public_half(bytes: Seq<u8>) -> Seq<u8> {
    bytes.subrange(32, 64)
}

/// The bytes of keypairs.
pub open spec fn keypair_bytes(keypairs: Seq<Keypair>) -> Seq<Seq<u8>> {
    Seq::new(keypairs.len(), |i: int| keypairs[i].bytes@)
}

/// `solana_sdk::signature::Keypair::new`, and its bytes. The keypair is random;
/// claimed is that its bytes are those of a keypair, with the public key as their
/// second half.
#[verifier::external_body]
fn generate_keypair() -> (bytes: [u8; 64])
    ensures
        keypair_public(bytes@) == Ok::<Seq<u8>, Seq<char>>(public_half(bytes@)),
{
    solana_sdk::signature::Keypair::new().to_bytes()
}

impl Keypair {
    /// A random keypair.
    pub fn new() -> (keypair: Keypair)
        ensures
            keypair_public(keypair.bytes@) == Ok::<Seq<u8>, Seq<char>>(
                public_half(keypair.bytes@),
            ),
    {
        Keypair { bytes: generate_keypair() }
    }

    /// The public key.
    pub fn pubkey(&self) -> (pubkey: Pubkey)
        ensures
            pubkey.bytes@ == public_half(self.bytes@),
    {
        let mut bytes: [u8; 32] = [0u8; 32];
        let mut i: usize = 0;
        while i < 32
            invariant
                i <= 32,
                forall|k: int| 0 <= k < i ==> bytes@[k] == self.bytes@[32 + k],
            decreases 32 - i,
        {
            bytes[i] = self.bytes[32 + i];
            i = i + 1;
        }
        assert(bytes@ =~= public_half(self.bytes@));
        Pubkey { bytes }
    }
}

/// The public key is the 32 bytes behind the secret ones, and keypairs are listed with all
/// their bytes in their order.
pub proof fn public_key_comes_second(keypairs: Seq<Keypair>, i: int, k: int)
    requires
        0 <= i < keypairs.len(),
        0 <= k < 32,
    ensures
        public_half(keypairs[i].bytes@).len() == 32,
        public_half(keypairs[i].bytes@)[k] == keypairs[i].bytes@[32 + k],
        keypair_bytes(keypairs).len() == keypairs.len(),
        keypair_bytes(keypairs)[i] == keypairs[i].bytes@,
{
}

} // verus!
