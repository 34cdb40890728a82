//! Pushes of public keys.

use vstd::prelude::*;
use crate::builder::StructuredScript;
use crate::encoding::push_encoding;

verus! {

/// A public key of the `bitcoin` crate. The library carries it through and
/// never looks inside.
#[verifier::external_type_specification]
#[verifier::external_body]
pub struct ExPublicKey(bitcoin::PublicKey);

/// An x-only public key of the `bitcoin` crate. The library carries it
/// through and never looks inside.
#[verifier::external_type_specification]
#[verifier::external_body]
pub struct ExXOnlyPublicKey(bitcoin::XOnlyPublicKey);

/// Calls `bitcoin::PublicKey::to_bytes`. Trusted: that the serialisation
/// has 33 bytes, for a compressed key, or 65, for an uncompressed one.
#[verifier::external_body]
fn public_key_bytes(key: &bitcoin::PublicKey) -> (out: Vec<u8>)
    ensures
        out@.len() == 33 || out@.len() == 65,
{
    key.to_bytes()
}

/// Calls `bitcoin::XOnlyPublicKey::serialize`. Trusted: that the
/// serialisation has 32 bytes.
#[verifier::external_body]
fn x_only_key_bytes(key: &bitcoin::XOnlyPublicKey) -> (out: Vec<u8>)
    ensures
        out@.len() == 32,
{
    key.serialize().to_vec()
}

impl StructuredScript {
    /// Adds a data push of the serialisation of `key`: 33 bytes for a
    /// compressed key, 65 for an uncompressed one.
    pub fn push_key(self, key: &bitcoin::PublicKey) -> (out: StructuredScript)
        requires
            self.wf(),
            self@.body.size + 66 <= usize::MAX,
        ensures
            out.wf(),
            exists|bytes: Seq<u8>|
                (bytes.len() == 33 || bytes.len() == 65) && out@ == self@.with_body(
                    self@.body.push_literal(#[trigger] push_encoding(bytes)),
                ),
    {
        let bytes: Vec<u8> = public_key_bytes(key);
        self.push_slice(bytes.as_slice())
    }

    /// Adds a data push of the 32 bytes that `x_only_key` serialises to.
    pub fn push_x_only_key(self, x_only_key: &bitcoin::XOnlyPublicKey) -> (out: StructuredScript)
        requires
            self.wf(),
            self@.body.size + 33 <= usize::MAX,
        ensures
            out.wf(),
            exists|bytes: Seq<u8>|
                bytes.len() == 32 && out@ == self@.with_body(
                    self@.body.push_literal(#[trigger] push_encoding(bytes)),
                ),
    {
        let bytes: Vec<u8> = x_only_key_bytes(x_only_key);
        self.push_slice(bytes.as_slice())
    }
}

} // verus!
