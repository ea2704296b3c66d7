//! Shared-secret challenge/response authentication: an HMAC-SHA256 tag over
//! the 16 bytes of a challenge identifier, keyed by the SHA-256 hash of the
//! secret, carried as lowercase hex text.

use vstd::prelude::*;

use vstd::string::StringExecFns;

use hmac::Mac;
use sha2::Digest;

use crate::hexstr::{hex_decode, hex_encode, hex_of};
use crate::id::ConnectionId;
use crate::msg::{ClientMessage, ClientMessageV, ServerMessage, ServerMessageV};

verus! {

/// The SHA-256 digest of a byte string, as the `sha2` crate computes it.
pub uninterp spec fn sha256_of(data: Seq<u8>) -> Seq<u8>;

/// The HMAC-SHA256 tag of a message under a key, as the `hmac` crate
/// computes it.
pub uninterp spec fn hmac_sha256_of(key: Seq<u8>, msg: Seq<u8>) -> Seq<u8>;

/// Relies on `sha2::Sha256::digest`: the 32-byte SHA-256 digest of the
/// input, a function of the input alone.
#[verifier::external_body]
fn sha256_digest(data: &[u8]) -> (r: Vec<u8>)
    ensures
        r@ == sha256_of(data@),
        r@.len() == 32,
{
    sha2::Sha256::digest(data).to_vec()
}

/// Relies on `hmac::Hmac::<Sha256>` via `Mac::new_from_slice` (which
/// accepts keys of any length), `update` and `finalize`: the 32-byte
/// HMAC-SHA256 tag, a function of key and message alone.
#[verifier::external_body]
fn hmac_tag(key: &[u8], msg: &[u8]) -> (r: Vec<u8>)
    ensures
        r@ == hmac_sha256_of(key@, msg@),
        r@.len() == 32,
{
    let mut mac = hmac::Hmac::<sha2::Sha256>::new_from_slice(key)
        .expect("HMAC accepts keys of any length");
    mac.update(msg);
    mac.finalize().into_bytes().to_vec()
}

/// Relies on `Mac::verify_slice`: accepts exactly the correct tag, after a
/// length check, comparing in constant time.
#[verifier::external_body]
fn hmac_verify(key: &[u8], msg: &[u8], tag: &[u8]) -> (r: bool)
    ensures
        r == (tag@ == hmac_sha256_of(key@, msg@)),
{
    let mut mac = hmac::Hmac::<sha2::Sha256>::new_from_slice(key)
        .expect("HMAC accepts keys of any length");
    mac.update(msg);
    mac.verify_slice(tag).is_ok()
}

/// The hex tag that answers a challenge under a given HMAC key.
pub open spec fn spec_answer(key: Seq<u8>, nonce: Seq<u8>) -> Seq<char> {
    hex_of(hmac_sha256_of(key, nonce))
}

/// Authenticates peers that share a secret. Its view is the HMAC key, the
/// SHA-256 hash of the secret.
pub struct Authenticator {
    key: Vec<u8>,
}

impl View for Authenticator {
    type V = Seq<u8>;

    closed spec fn view(&self) -> Seq<u8> {
        self.key@
    }
}

/// Why a handshake was refused.
#[derive(Debug)]
pub enum AuthError {
    /// The peer answered the challenge with a wrong tag.
    InvalidSecret,
    /// The peer sent something other than an `Authenticate` reply.
    MissingSecret,
    /// The peer sent something other than a `Challenge`.
    MissingChallenge,
}

impl AuthError {
    pub open spec fn spec_message(&self) -> Seq<char> {
        match self {
            AuthError::InvalidSecret => "invalid secret"@,
            AuthError::MissingSecret => "server requires secret, but no secret was provided"@,
            AuthError::MissingChallenge => "expected authentication challenge, but no secret was required"@,
        }
    }

    /// The text reported to the peer or the caller.
    pub fn message(&self) -> (r: String)
        ensures
            r@ == self.spec_message(),
    {
        match self {
            AuthError::InvalidSecret => String::from_str("invalid secret"),
            AuthError::MissingSecret => String::from_str(
                "server requires secret, but no secret was provided",
            ),
            AuthError::MissingChallenge => String::from_str(
                "expected authentication challenge, but no secret was required",
            ),
        }
    }
}

impl Authenticator {
    /// An authenticator keyed by the SHA-256 hash of the secret, so secrets
    /// of any length give a fixed-size key.
    pub fn new(secret: &str) -> (r: Authenticator)
        ensures
            r@ == sha256_of(vstd::utf8::encode_utf8(secret@)),
    {
        Authenticator { key: sha256_digest(secret.as_bytes()) }
    }

    /// The reply tag for a challenge: the hex form of the HMAC-SHA256 of
    /// the challenge bytes.
    pub fn answer(&self, challenge: &ConnectionId) -> (r: String)
        ensures
            r@ == spec_answer(self@, challenge@),
    {
        let nonce = challenge.to_bytes();
        let mac = hmac_tag(self.key.as_slice(), nonce.as_slice());
        hex_encode(&mac)
    }

    /// Accepts exactly the tag that `answer` produces for this challenge;
    /// any other text — wrong tag, uppercase hex, or no hex at all — is
    /// refused.
    pub fn validate(&self, challenge: &ConnectionId, tag: &str) -> (r: bool)
        ensures
            r == (tag@ == spec_answer(self@, challenge@)),
    {
        let nonce = challenge.to_bytes();
        match hex_decode(tag) {
            Some(bytes) => {
                let ok = hmac_verify(self.key.as_slice(), nonce.as_slice(), bytes.as_slice());
                proof {
                    if ok {
                        assert(tag@ == hex_of(hmac_sha256_of(self@, challenge@)));
                    } else {
                        if tag@ == spec_answer(self@, challenge@) {
                            crate::hexstr::lemma_hex_of_injective(
                                bytes@,
                                hmac_sha256_of(self@, challenge@),
                            );
                        }
                    }
                }
                ok
            },
            None => {
                proof {
                    assert(tag@ != hex_of(hmac_sha256_of(self@, challenge@)));
                }
                false
            },
        }
    }

    /// Opens the server side of the handshake: a fresh random nonce and
    /// the `Challenge` frame that carries it.
    pub fn challenge(&self) -> (r: (ConnectionId, ServerMessage))
        ensures
            r.0.wf(),
            r.1@ == ServerMessageV::Challenge(r.0@),
    {
        let nonce = ConnectionId::fresh();
        let msg = ServerMessage::Challenge(nonce.duplicate());
        (nonce, msg)
    }

    /// The server side of the handshake, after it has sent
    /// `Challenge(nonce)`: accept exactly a correct `Authenticate` reply,
    /// and name the failure otherwise.
    pub fn check_reply(&self, nonce: &ConnectionId, reply: &Option<ClientMessage>) -> (r: Result<
        (),
        AuthError,
    >)
        ensures
            ({
                let answered = match *reply {
                    Option::Some(m) => m@ matches ClientMessageV::Authenticate(t),
                    Option::None => false,
                };
                let correct = match *reply {
                    Option::Some(m) => m@ matches ClientMessageV::Authenticate(t) && t
                        == spec_answer(self@, nonce@),
                    Option::None => false,
                };
                match r {
                    Ok(_) => correct,
                    Err(e) => match e {
                        AuthError::InvalidSecret => answered && !correct,
                        AuthError::MissingSecret => !answered,
                        AuthError::MissingChallenge => false,
                    },
                }
            }),
    {
        match reply {
            Some(ClientMessage::Authenticate(tag)) => {
                if self.validate(nonce, tag.as_str()) {
                    Ok(())
                } else {
                    Err(AuthError::InvalidSecret)
                }
            },
            _ => Err(AuthError::MissingSecret),
        }
    }

    /// The client side of the handshake: answer a `Challenge`, and refuse
    /// anything else as the sign that the server expected no secret.
    pub fn client_reply(&self, first: &Option<ServerMessage>) -> (r: Result<
        ClientMessage,
        AuthError,
    >)
        ensures
            ({
                let challenged = match *first {
                    Option::Some(m) => m@ matches ServerMessageV::Challenge(nv),
                    Option::None => false,
                };
                match r {
                    Ok(m) => match *first {
                        Option::Some(sm) => sm@ matches ServerMessageV::Challenge(nv) && m@
                            == ClientMessageV::Authenticate(spec_answer(self@, nv)),
                        Option::None => false,
                    },
                    Err(e) => e is MissingChallenge && !challenged,
                }
            }),
    {
        match first {
            Some(ServerMessage::Challenge(nonce)) => {
                Ok(ClientMessage::Authenticate(self.answer(nonce)))
            },
            _ => Err(AuthError::MissingChallenge),
        }
    }
}

} // verus!
