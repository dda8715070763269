//! Announce records and their signature validation.
//!
//! An announce is a signed broadcast asserting that a destination identity
//! is reachable.  The record keeps the identity's keys and content hash as
//! plain bytes, exactly as they travel on the wire and rest in a snapshot;
//! only the signature check itself is handed to the signature crate.

use vstd::prelude::*;

verus! {

/// What an ed25519 signature check returns for a verifying key, a message
/// and a signature, each given as plain bytes.  The check is a deterministic
/// function of the three inputs alone; its mathematics is not restated here.
pub uninterp spec fn ed25519_verifies(vk: Seq<u8>, msg: Seq<u8>, sig: Seq<u8>) -> bool;

/// Relies on ed25519_dalek: `VerifyingKey::from_bytes`, `Signature::from_slice`
/// and `Verifier::verify` together decide, deterministically from the three
/// byte sequences alone, whether `sig` is a valid signature over `msg` under
/// `vk`; a key that does not decode or a signature that is not 64 bytes long
/// never verifies.
#[verifier::external_body]
fn ed25519_verify(vk: &[u8; 32], msg: &[u8], sig: &[u8]) -> (valid: bool)
    ensures
        valid == ed25519_verifies(vk@, msg@, sig@),
{
    match ed25519_dalek::VerifyingKey::from_bytes(vk) {
        Ok(key) => match ed25519_dalek::Signature::from_slice(sig) {
            Ok(parsed) => ed25519_dalek::Verifier::verify(&key, msg, &parsed).is_ok(),
            Err(_) => false,
        },
        Err(_) => false,
    }
}

/// Mathematical image of an identity: its keys and content hash as byte
/// sequences.
#[verifier::ext_equal]
pub struct IdentityView {
    pub public_key: Seq<u8>,
    pub verifying_key: Seq<u8>,
    pub hash: Seq<u8>,
}

/// An identity as the tool keeps it: the public encryption key, the public
/// verifying key and the stable 16-byte content hash, all as plain bytes so
/// that the record can rest in a snapshot unchanged.
#[derive(Clone, Copy, Debug)]
pub struct SerializableIdentity {
    /// Public encryption key of the identity.
    pub public_key: [u8; 32],
    /// Public key the identity signs under.
    pub verifying_key: [u8; 32],
    /// Stable content hash; the map key of every store.
    pub hash: [u8; 16],
}

impl View for SerializableIdentity {
    type V = IdentityView;

    open spec fn view(&self) -> IdentityView {
        IdentityView {
            public_key: self.public_key@,
            verifying_key: self.verifying_key@,
            hash: self.hash@,
        }
    }
}

/// Mathematical image of an announce.
#[verifier::ext_equal]
pub struct AnnounceView {
    pub identity: IdentityView,
    pub signature: Seq<u8>,
    pub name_hash: Seq<u8>,
    pub random_hash: Seq<u8>,
    pub app_data: Option<Seq<u8>>,
    pub destination: Seq<u8>,
}

/// A signed announce: the announcing identity, the detached signature, the
/// name and random hashes, optional application data and the destination
/// identifier.  Immutable once parsed or restored.
#[derive(Debug)]
pub struct Announce {
    /// The identity the announce speaks for.
    pub identity: SerializableIdentity,
    /// Detached signature over the canonical message.
    pub signature: Vec<u8>,
    /// 10-byte hash of the destination's name.
    pub name_hash: [u8; 10],
    /// 10-byte per-broadcast nonce; tells re-broadcasts apart.
    pub random_hash: [u8; 10],
    /// Optional opaque application data; part of the signed message when
    /// present.
    pub app_data: Option<Vec<u8>>,
    /// 16-byte destination identifier.
    pub destination: [u8; 16],
}

impl View for Announce {
    type V = AnnounceView;

    open spec fn view(&self) -> AnnounceView {
        AnnounceView {
            identity: self.identity@,
            signature: self.signature@,
            name_hash: self.name_hash@,
            random_hash: self.random_hash@,
            app_data: match self.app_data {
                Some(d) => Some(d@),
                None => None,
            },
            destination: self.destination@,
        }
    }
}

/// The exact byte concatenation an announce signs: destination, public key,
/// verifying key, name hash, random hash, and the application data when it
/// is present.  The order must match the protocol's signing order
/// bit for bit; any reordering invalidates every signature.
pub open spec fn signed_message(a: AnnounceView) -> Seq<u8> {
    a.destination + a.identity.public_key + a.identity.verifying_key + a.name_hash + a.random_hash
        + (match a.app_data {
        Some(d) => d,
        None => Seq::empty(),
    })
}

/// Whether an announce carries a valid signature of its own identity over
/// its canonical message.
pub open spec fn announce_valid(a: AnnounceView) -> bool {
    ed25519_verifies(a.identity.verifying_key, signed_message(a), a.signature)
}

/// View of an optional announce.
pub open spec fn opt_view(replay: Option<Announce>) -> Option<AnnounceView> {
    match replay {
        Some(a) => Some(a@),
        None => None,
    }
}

/// Appends a byte slice to a vector.
pub(crate) fn extend_bytes(dst: &mut Vec<u8>, src: &[u8])
    ensures
        final(dst)@ == old(dst)@ + src@,
{
    let ghost dst0 = dst@;
    let mut i: usize = 0;
    while i < src.len()
        invariant
            i <= src@.len(),
            dst@ == dst0 + src@.take(i as int),
        decreases src@.len() - i,
    {
        dst.push(src[i]);
        proof {
            assert(dst0 + src@.take((i + 1) as int) =~= (dst0 + src@.take(i as int)).push(
                src@[i as int],
            ));
        }
        i = i + 1;
    }
    proof {
        assert(src@.take(src@.len() as int) =~= src@);
    }
}

/// A fresh vector holding the same bytes.
pub(crate) fn clone_bytes(src: &Vec<u8>) -> (copy: Vec<u8>)
    ensures
        copy@ == src@,
{
    let mut copy: Vec<u8> = Vec::new();
    extend_bytes(&mut copy, src.as_slice());
    proof {
        assert(copy@ =~= src@);
    }
    copy
}

impl Clone for Announce {
    /// A clone carries the same view as the original.
    fn clone(&self) -> (copy: Self)
        ensures
            copy@ == self@,
    {
        let app_data = match &self.app_data {
            Some(d) => Some(clone_bytes(d)),
            None => None,
        };
        let copy = Announce {
            identity: self.identity,
            signature: clone_bytes(&self.signature),
            name_hash: self.name_hash,
            random_hash: self.random_hash,
            app_data,
            destination: self.destination,
        };
        proof {
            assert(copy@ =~= self@);
        }
        copy
    }
}

impl Announce {
    /// Rebuilds the canonical signed message and asks the identity's
    /// verifying key whether the signature matches.  Pure and total: a
    /// malformed announce only reports `false`, never an error.  Note that
    /// absent application data and present-but-empty application data sign
    /// the same message bytes.
    pub fn validate(&self) -> (valid: bool)
        ensures
            valid == announce_valid(self@),
    {
        let mut message: Vec<u8> = Vec::new();
        extend_bytes(&mut message, self.destination.as_slice());
        extend_bytes(&mut message, self.identity.public_key.as_slice());
        extend_bytes(&mut message, self.identity.verifying_key.as_slice());
        extend_bytes(&mut message, self.name_hash.as_slice());
        extend_bytes(&mut message, self.random_hash.as_slice());
        match &self.app_data {
            Some(data) => extend_bytes(&mut message, data.as_slice()),
            None => (),
        }
        proof {
            assert(message@ =~= signed_message(self@));
        }
        ed25519_verify(&self.identity.verifying_key, message.as_slice(), self.signature.as_slice())
    }
}

} // verus!
