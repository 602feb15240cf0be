//! The node's durable identity: read back from what was stored, or made anew.
use vstd::prelude::*;

verus! {

/// libp2p's `identity::Keypair`, carried through as it is.
#[verifier::external_type_specification]
#[verifier::external_body]
pub struct ExKeypair(libp2p::identity::Keypair);

/// libp2p's `identity::DecodingError`, carried through as it is.
#[verifier::external_type_specification]
#[verifier::external_body]
pub struct ExDecodingError(libp2p::identity::DecodingError);

/// The peer identifier of the keypair that `data` holds as an encoded keypair
/// structure; `None` where `data` is no such structure.
pub uninterp spec fn encoded_keypair_peer(data: Seq<u8>) -> Option<Seq<char>>;

/// The peer identifier of the Ed25519 keypair whose secret key is `data`.
pub uninterp spec fn raw_secret_peer(data: Seq<u8>) -> Seq<char>;

/// Length of a raw Ed25519 secret key.
pub const RAW_SECRET_LEN: usize = 32;

/// Where an identity came from.
#[derive(Clone, Copy, Debug, PartialEq, Eq, Structural)]
pub enum KeySource {
    /// Read from an encoded keypair structure.
    Encoded,
    /// Read from a raw secret key.
    RawSecret,
    /// Newly generated.
    Generated,
}

/// Why no identity could be provided.
#[derive(Clone, Copy, Debug, PartialEq, Eq, Structural)]
pub enum IdentityError {
    /// The new keypair has no encoded form, so it cannot be stored.
    EncodingFailed,
}

/// A keypair together with the peer identifier derived from it.
pub struct Identity {
    keypair: libp2p::identity::Keypair,
    peer_id: String,
}

impl View for Identity {
    type V = Seq<char>;

    /// The peer identifier.
    closed spec fn view(&self) -> Seq<char> {
        self.peer_id@
    }
}

impl Identity {
    /// The peer identifier, as text.
    pub fn peer_id(&self) -> (r: &String)
        ensures
            r@ == self@,
    {
        &self.peer_id
    }

    /// The keypair.
    pub fn keypair(&self) -> (r: &libp2p::identity::Keypair)
        ensures
            *r == self.key(),
    {
        &self.keypair
    }

    /// The keypair that the identity holds.
    pub closed spec fn key(self) -> libp2p::identity::Keypair {
        self.keypair
    }
}

/// What to start the node with.
pub struct IdentityPlan {
    /// The identity to run under.
    pub identity: Identity,
    /// Where it came from.
    pub source: KeySource,
    /// The bytes to store before the node starts, where the identity is new.
    pub persist: Option<Vec<u8>>,
    /// Stored bytes were there, but held no keypair.
    pub replaces_undecodable: bool,
}

/// Calls `Keypair::from_protobuf_encoding` of libp2p's identity module, and
/// derives the peer identifier of the keypair it returns with `public`,
/// `to_peer_id` and `to_string`. Claimed: whether a keypair comes back, and
/// which peer identifier it has, depends on the bytes alone.
#[verifier::external_body]
fn keypair_from_encoding(data: &[u8]) -> (r: Option<Identity>)
    ensures
        r.is_some() == encoded_keypair_peer(data@).is_some(),
        r matches Some(id) ==> encoded_keypair_peer(data@) == Some(id@),
{
    match libp2p::identity::Keypair::from_protobuf_encoding(data) {
        Ok(keypair) => Some(Identity { peer_id: keypair.public().to_peer_id().to_string(), keypair }),
        Err(_) => None,
    }
}

/// Calls `Keypair::ed25519_from_bytes` of libp2p's identity module on a copy
/// of the bytes, and derives the peer identifier as above. Claimed: a keypair
/// comes back exactly for 32 bytes, and its peer identifier depends on the
/// bytes alone.
#[verifier::external_body]
fn keypair_from_raw_secret(data: &[u8]) -> (r: Option<Identity>)
    ensures
        r.is_some() == (data@.len() == 32),
        r matches Some(id) ==> id@ == raw_secret_peer(data@),
{
    match libp2p::identity::Keypair::ed25519_from_bytes(data.to_vec()) {
        Ok(keypair) => Some(Identity { peer_id: keypair.public().to_peer_id().to_string(), keypair }),
        Err(_) => None,
    }
}

/// Calls `Keypair::generate_ed25519` of libp2p's identity module, which draws
/// the key at random: nothing is claimed of the result.
#[verifier::external_body]
fn generate_keypair() -> Identity {
    let keypair = libp2p::identity::Keypair::generate_ed25519();
    Identity { peer_id: keypair.public().to_peer_id().to_string(), keypair }
}

/// Calls `Keypair::to_protobuf_encoding` of libp2p's identity module. Nothing
/// is claimed of the result.
#[verifier::external_body]
fn encode_keypair(identity: &Identity) -> Result<Vec<u8>, libp2p::identity::DecodingError> {
    identity.keypair.to_protobuf_encoding()
}

/// Which of two readings of stored bytes counts: the encoded keypair
/// structure where there is one, else the raw secret key where the length is
/// that of one.
pub open spec fn picked(len: nat, encoded: Option<Seq<char>>, raw: Option<Seq<char>>) -> Option<(Seq<char>, KeySource)> {
    match encoded {
        Some(p) => Some((p, KeySource::Encoded)),
        None => match raw {
            Some(p) if len == 32 => Some((p, KeySource::RawSecret)),
            _ => None,
        },
    }
}

/// The peer identifier that stored bytes give, and from which reading.
pub open spec fn decoded_peer(data: Seq<u8>) -> Option<(Seq<char>, KeySource)> {
    picked(
        data.len(),
        encoded_keypair_peer(data),
        if data.len() == 32 {
            Some(raw_secret_peer(data))
        } else {
            None
        },
    )
}

/// The peer identifier of an identity, where there is one.
pub open spec fn peer_of(identity: Option<Identity>) -> Option<Seq<char>> {
    match identity {
        Some(id) => Some(id@),
        None => None,
    }
}

/// The peer identifier and source of a reading, where there is one.
pub open spec fn reading_of(reading: Option<(Identity, KeySource)>) -> Option<(Seq<char>, KeySource)> {
    match reading {
        Some((id, source)) => Some((id@, source)),
        None => None,
    }
}

/// Chooses between the two readings of stored bytes of length `len`.
pub fn pick_identity(len: usize, encoded: Option<Identity>, raw: Option<Identity>) -> (r: Option<(Identity, KeySource)>)
    ensures
        reading_of(r) == picked(len as nat, peer_of(encoded), peer_of(raw)),
{
    match encoded {
        Some(id) => Some((id, KeySource::Encoded)),
        None => match raw {
            Some(id) => {
                if len == RAW_SECRET_LEN {
                    Some((id, KeySource::RawSecret))
                } else {
                    None
                }
            },
            None => None,
        },
    }
}

/// Reads an identity from stored bytes: as an encoded keypair structure
/// first, then as a raw secret key of 32 bytes.
pub fn decode_identity(data: &[u8]) -> (r: Option<(Identity, KeySource)>)
    ensures
        reading_of(r) == decoded_peer(data@),
{
    let encoded = keypair_from_encoding(data);
    let raw = if encoded.is_none() && data.len() == RAW_SECRET_LEN {
        keypair_from_raw_secret(data)
    } else {
        None
    };
    pick_identity(data.len(), encoded, raw)
}

/// Makes the plan for a newly generated identity from the outcome of
/// encoding it: the encoded form is to be stored; without one there is no
/// plan.
pub fn plan_generated(
    identity: Identity,
    encoded: Result<Vec<u8>, libp2p::identity::DecodingError>,
    replaces_undecodable: bool,
) -> (r: Result<IdentityPlan, IdentityError>)
    ensures
        match encoded {
            Ok(bytes) => r matches Ok(plan) && plan.identity == identity && plan.source == KeySource::Generated
                && plan.persist == Some(bytes) && plan.replaces_undecodable == replaces_undecodable,
            Err(_) => r == Err::<IdentityPlan, IdentityError>(IdentityError::EncodingFailed),
        },
{
    match encoded {
        Ok(bytes) => Ok(IdentityPlan { identity, source: KeySource::Generated, persist: Some(bytes), replaces_undecodable }),
        Err(_) => Err(IdentityError::EncodingFailed),
    }
}

/// The identity to start with, given the stored bytes (`None` where there
/// are none, or they cannot be read).
///
/// Stored bytes that hold a keypair give that keypair, and nothing is to be
/// stored. Otherwise a new keypair is generated, and its encoded form is to
/// be stored in place of whatever was there.
pub fn load_or_create_identity(stored: Option<Vec<u8>>) -> (r: Result<IdentityPlan, IdentityError>)
    ensures
        match stored {
            Some(data) if decoded_peer(data@).is_some() => r matches Ok(plan) && decoded_peer(data@) == Some((plan.identity@, plan.source))
                && plan.persist.is_none() && !plan.replaces_undecodable,
            _ => match r {
                Ok(plan) => plan.source == KeySource::Generated && plan.persist.is_some() && plan.replaces_undecodable
                    == stored.is_some(),
                Err(e) => e == IdentityError::EncodingFailed,
            },
        },
{
    let present = stored.is_some();
    if let Some(data) = stored {
        if let Some((identity, source)) = decode_identity(data.as_slice()) {
            return Ok(IdentityPlan { identity, source, persist: None, replaces_undecodable: false });
        }
    }
    let identity = generate_keypair();
    let encoded = encode_keypair(&identity);
    plan_generated(identity, encoded, present)
}

} // verus!
