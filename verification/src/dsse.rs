//! DSSE (Dead Simple Signing Envelope) for attestation authenticity.
//!
//! Wraps attestations in signed envelopes so a third party can verify
//! who produced an attestation without re-executing the build.

use crate::text;
use crate::text::{concat, format_decimal, trim};
use base64::Engine;
use ed25519_dalek::Signer;
use ed25519_dalek::Verifier;
use rand::Rng;
use vstd::prelude::*;
use vstd::string::*;
use vstd::utf8::*;

verus! {

// ---------------------------------------------------------------------------
// DSSE types
// ---------------------------------------------------------------------------

/// A DSSE envelope carrying a signed payload.
#[derive(Debug, Clone)]
pub struct Envelope {
    pub payload_type: String,
    /// Base64-encoded payload (the attestation JSON).
    pub payload: String,
    pub signatures: Vec<DsseSignature>,
}

/// A signature of an envelope.
#[derive(Debug, Clone)]
pub struct DsseSignature {
    /// Empty string or base64-encoded public key fingerprint.
    pub keyid: String,
    /// Base64-encoded Ed25519 signature over PAE(payloadType, payload).
    pub sig: String,
}

/// A signature as mathematical data.
pub struct Signed {
    pub keyid: Seq<char>,
    pub sig: Seq<char>,
}

/// An envelope as mathematical data.
pub struct Sealed {
    pub payload_type: Seq<char>,
    pub payload: Seq<char>,
    pub signatures: Seq<Signed>,
}

impl View for DsseSignature {
    type V = Signed;

    open spec fn view(&self) -> Signed {
        Signed { keyid: self.keyid@, sig: self.sig@ }
    }
}

impl View for Envelope {
    type V = Sealed;

    open spec fn view(&self) -> Sealed {
        Sealed {
            payload_type: self.payload_type@,
            payload: self.payload@,
            signatures: Seq::new(self.signatures@.len(), |i: int| self.signatures@[i]@),
        }
    }
}

/// An Ed25519 signing key: its 32-byte seed.
#[derive(Debug, Clone, Copy)]
pub struct SigningKey {
    pub seed: [u8; 32],
}

/// An Ed25519 verifying key: the 32 bytes of a compressed curve point.
#[derive(Debug, Clone, Copy)]
pub struct VerifyingKey {
    pub bytes: [u8; 32],
}

// ---------------------------------------------------------------------------
// Pre-Authenticated Encoding (PAE)
// ---------------------------------------------------------------------------
//
// PAE prevents cross-protocol signature confusion by binding the signature to
// both the payload type and the payload bytes:
//
//   DSSEv1 <len(payloadType)> <payloadType> <len(payload)> <payload>

/// The pre-authenticated encoding of a payload type and a payload.
pub open spec fn pae_bytes(payload_type: Seq<char>, payload: Seq<u8>) -> Seq<u8> {
    let t = encode_utf8(payload_type);
    encode_utf8("DSSEv1"@) + (seq![32u8] + (encode_utf8(text::decimal(t.len())) + (seq![32u8] + (t + (
    seq![32u8] + (encode_utf8(text::decimal(payload.len())) + (seq![32u8] + payload)))))))
}

/// Computes the DSSE pre-authenticated encoding.
pub fn pae(payload_type: &str, payload: &[u8]) -> (bytes: Vec<u8>)
    ensures
        bytes@ == pae_bytes(payload_type@, payload@),
{
    let mut buf: Vec<u8> = Vec::new();
    let type_bytes = payload_type.as_bytes();
    let type_len = format_decimal(type_bytes.len() as u64);
    let payload_len = format_decimal(payload.len() as u64);
    buf.extend_from_slice("DSSEv1".as_bytes());
    buf.push(32u8);
    buf.extend_from_slice(type_len.as_str().as_bytes());
    buf.push(32u8);
    buf.extend_from_slice(type_bytes);
    buf.push(32u8);
    buf.extend_from_slice(payload_len.as_str().as_bytes());
    buf.push(32u8);
    buf.extend_from_slice(payload);
    assert(buf@ =~= pae_bytes(payload_type@, payload@));
    buf
}

// ---------------------------------------------------------------------------
// Base64
// ---------------------------------------------------------------------------

/// The symbol of six bits in the standard Base64 alphabet.
pub open spec fn base64_symbol(v: int) -> char {
    if v < 26 {
        (65 + v) as u8 as char
    } else if v < 52 {
        (97 + v - 26) as u8 as char
    } else if v < 62 {
        (48 + v - 52) as u8 as char
    } else if v == 62 {
        '+'
    } else {
        '/'
    }
}

/// The four symbols of the first three bytes, or of the one or two there are,
/// padded.
pub open spec fn base64_quad(data: Seq<u8>) -> Seq<char> {
    let a = data[0] as int;
    let b = if data.len() > 1 {
        data[1] as int
    } else {
        0
    };
    let c = if data.len() > 2 {
        data[2] as int
    } else {
        0
    };
    seq![
        base64_symbol(a / 4),
        base64_symbol(a % 4 * 16 + b / 16),
        if data.len() > 1 {
            base64_symbol(b % 16 * 4 + c / 64)
        } else {
            '='
        },
        if data.len() > 2 {
            base64_symbol(c % 64)
        } else {
            '='
        },
    ]
}

/// The standard padded Base64 text of some bytes.
pub open spec fn base64_text(data: Seq<u8>) -> Seq<char>
    decreases data.len(),
{
    if data.len() == 0 {
        Seq::empty()
    } else if data.len() <= 3 {
        base64_quad(data)
    } else {
        base64_quad(data) + base64_text(data.skip(3))
    }
}

/// The bytes that a standard padded Base64 text stands for, if it is one.
pub open spec fn base64_bytes(text: Seq<char>) -> Option<Seq<u8>> {
    if exists|data: Seq<u8>| #[trigger] base64_text(data) == text {
        Some(choose|data: Seq<u8>| #[trigger] base64_text(data) == text)
    } else {
        None
    }
}

/// How many characters the padded Base64 text of `n` bytes has.
pub open spec fn base64_len(n: nat) -> nat {
    ((n + 2) / 3) * 4
}

/// Calls `encode` of `base64`'s `STANDARD` engine, which gives the padded text
/// in the standard alphabet. The call panics where the text would not fit in
/// memory.
#[verifier::external_body]
fn base64_encode(data: &[u8]) -> (encoded: String)
    requires
        base64_len(data@.len()) <= isize::MAX,
    ensures
        encoded@ == base64_text(data@),
{
    base64::engine::general_purpose::STANDARD.encode(data)
}

/// What decoding complains of in a text that is no Base64.
pub uninterp spec fn base64_error(text: Seq<char>) -> Seq<char>;

/// Calls `decode` of `base64`'s `STANDARD` engine. It accepts exactly the texts
/// that encoding gives, with all their padding and no stray bits, and gives the
/// bytes that they stand for. Of any other text it complains in words that are a
/// function of the text alone, named `base64_error`.
#[verifier::external_body]
fn base64_decode(text: &str) -> (data: Result<Vec<u8>, String>)
    ensures
        match data {
            Ok(bytes) => base64_text(bytes@) == text@,
            Err(error) => error@ == base64_error(text@) && forall|bytes: Seq<u8>| #[trigger]
                base64_text(bytes) != text@,
        },
{
    base64::engine::general_purpose::STANDARD.decode(text).map_err(|error| error.to_string())
}

// ---------------------------------------------------------------------------
// Ed25519
// ---------------------------------------------------------------------------

/// The public key of a seed.
pub uninterp spec fn ed25519_public_key(seed: Seq<u8>) -> [u8; 32];

/// Whether 32 bytes are a compressed curve point.
pub uninterp spec fn ed25519_is_public_key(bytes: Seq<u8>) -> bool;

/// The signature of a message under a seed.
pub uninterp spec fn ed25519_signature(seed: Seq<u8>, message: Seq<u8>) -> [u8; 64];

/// What a public key complains of in a signature of a message, if it does not
/// accept it.
pub uninterp spec fn ed25519_refusal(
    public_key: Seq<u8>,
    message: Seq<u8>,
    signature: Seq<u8>,
) -> Option<Seq<char>>;

/// Whether a public key accepts a signature of a message.
pub open spec fn ed25519_accepts(
    public_key: Seq<u8>,
    message: Seq<u8>,
    signature: Seq<u8>,
) -> bool {
    ed25519_refusal(public_key, message, signature) is None
}

/// Calls `ed25519_dalek::SigningKey::from_bytes` and `verifying_key`: every
/// 32-byte seed has one public key, named `ed25519_public_key`, and that key is
/// a valid one.
#[verifier::external_body]
fn derive_public_key(seed: &[u8; 32]) -> (public_key: [u8; 32])
    ensures
        public_key@ == ed25519_public_key(seed@)@,
        ed25519_is_public_key(public_key@),
{
    ed25519_dalek::SigningKey::from_bytes(seed).verifying_key().to_bytes()
}

/// Calls `ed25519_dalek::VerifyingKey::from_bytes`, which succeeds where the
/// bytes are a compressed curve point. That depends on the bytes alone and is
/// named `ed25519_is_public_key`. Otherwise its error, always in the same words,
/// is given.
#[verifier::external_body]
fn public_key_error(bytes: &[u8; 32]) -> (error: Option<String>)
    ensures
        text::opt_text(error) == point_error(bytes@),
{
    ed25519_dalek::VerifyingKey::from_bytes(bytes).err().map(|error| error.to_string())
}

/// Calls `sign` of `ed25519_dalek::SigningKey`. Ed25519 signatures are
/// deterministic: this one is a function of seed and message, named
/// `ed25519_signature`, and the seed's public key accepts it.
#[verifier::external_body]
fn sign_message(seed: &[u8; 32], message: &[u8]) -> (signature: [u8; 64])
    ensures
        signature@ == ed25519_signature(seed@, message@)@,
        ed25519_accepts(ed25519_public_key(seed@)@, message@, signature@),
{
    ed25519_dalek::SigningKey::from_bytes(seed).sign(message).to_bytes()
}

/// Calls `ed25519_dalek::Signature::from_slice`, which takes exactly 64 bytes
/// and keeps them as they are. Its error is always in the same words.
#[verifier::external_body]
fn signature_from(bytes: &[u8]) -> (signature: Result<[u8; 64], String>)
    ensures
        match signature {
            Ok(s) => bytes@.len() == 64 && s@ == bytes@,
            Err(error) => bytes@.len() != 64 && error@ == "signature error"@,
        },
{
    ed25519_dalek::Signature::from_slice(bytes)
        .map(|signature| signature.to_bytes())
        .map_err(|error| error.to_string())
}

/// Calls `verify` of `ed25519_dalek::VerifyingKey`. Whether a key accepts a
/// signature of a message, and what it complains of otherwise, depends on the
/// three alone and is named `ed25519_refusal`; bytes that are no public key
/// accept nothing.
#[verifier::external_body]
fn refusal(public_key: &[u8; 32], message: &[u8], signature: &[u8; 64]) -> (error: Option<String>)
    ensures
        text::opt_text(error) == ed25519_refusal(public_key@, message@, signature@),
{
    let signature = ed25519_dalek::Signature::from_bytes(signature);
    match ed25519_dalek::VerifyingKey::from_bytes(public_key) {
        Ok(key) => key.verify(message, &signature).err().map(|error| error.to_string()),
        Err(error) => Some(error.to_string()),
    }
}

impl SigningKey {
    /// The key that verifies what this key signs.
    pub fn verifying_key(&self) -> (key: VerifyingKey)
        ensures
            key.bytes@ == ed25519_public_key(self.seed@)@,
            ed25519_is_public_key(key.bytes@),
    {
        VerifyingKey { bytes: derive_public_key(&self.seed) }
    }

    /// The seed.
    pub fn to_bytes(&self) -> (bytes: [u8; 32])
        ensures
            bytes == self.seed,
    {
        self.seed
    }
}

impl VerifyingKey {
    /// The compressed curve point.
    pub fn to_bytes(&self) -> (bytes: [u8; 32])
        ensures
            bytes == self.bytes,
    {
        self.bytes
    }
}

// ---------------------------------------------------------------------------
// Sign
// ---------------------------------------------------------------------------

/// The envelope of an encoded payload and one encoded signature.
pub open spec fn sealed(
    payload_type: Seq<char>,
    encoded_payload: Seq<char>,
    encoded_signature: Seq<char>,
) -> Sealed {
    Sealed {
        payload_type,
        payload: encoded_payload,
        signatures: seq![Signed { keyid: Seq::empty(), sig: encoded_signature }],
    }
}

/// Puts an encoded payload and its encoded signature in an envelope.
pub fn seal(payload_type: &str, encoded_payload: String, encoded_signature: String) -> (envelope:
    Envelope)
    ensures
        envelope@ == sealed(payload_type@, encoded_payload@, encoded_signature@),
{
    let mut signatures: Vec<DsseSignature> = Vec::new();
    signatures.push(DsseSignature { keyid: String::new(), sig: encoded_signature });
    let envelope = Envelope {
        payload_type: payload_type.to_string(),
        payload: encoded_payload,
        signatures,
    };
    proof {
        assert(signatures@[0]@ == (Signed { keyid: Seq::empty(), sig: encoded_signature@ }));
        assert(envelope@.signatures =~= sealed(
            payload_type@,
            encoded_payload@,
            encoded_signature@,
        ).signatures);
    }
    envelope
}

/// Signs a payload and returns a DSSE envelope.
pub fn sign(payload: &[u8], payload_type: &str, signing_key: &SigningKey) -> (envelope: Envelope)
    requires
        base64_len(payload@.len()) <= isize::MAX,
    ensures
        envelope@ == sealed(
            payload_type@,
            base64_text(payload@),
            base64_text(
                ed25519_signature(signing_key.seed@, pae_bytes(payload_type@, payload@))@,
            ),
        ),
        opened(envelope@, ed25519_public_key(signing_key.seed@)@) == Opened::Payload(payload@),
{
    let encoded = pae(payload_type, payload);
    let signature = sign_message(&signing_key.seed, encoded.as_slice());
    let payload_text = base64_encode(payload);
    let signature_text = base64_encode(signature.as_slice());
    let envelope = seal(payload_type, payload_text, signature_text);
    proof {
        let key = ed25519_public_key(signing_key.seed@)@;
        assert(envelope@.signatures[0].sig == signature_text@);
        law_base64_round_trips(payload@);
        law_base64_round_trips(signature@);
        assert(outcome(envelope@.signatures[0].sig, key, encoded@) is None);
        assert(outcomes(envelope@, key, payload@)[0] is None);
    }
    envelope
}

// ---------------------------------------------------------------------------
// Verify
// ---------------------------------------------------------------------------

/// Why a signature was not accepted, with what was complained of.
#[derive(Debug, Clone, PartialEq, Eq)]
pub enum SignatureFault {
    /// It is not Base64.
    InvalidBase64(String),
    /// It has not the form of an Ed25519 signature.
    InvalidSignature(String),
    /// The key rejects it.
    Rejected(String),
}

/// Why a signature was not accepted, as mathematical data.
pub enum Fault {
    InvalidBase64(Seq<char>),
    InvalidSignature(Seq<char>),
    Rejected(Seq<char>),
}

impl View for SignatureFault {
    type V = Fault;

    open spec fn view(&self) -> Fault {
        match *self {
            SignatureFault::InvalidBase64(error) => Fault::InvalidBase64(error@),
            SignatureFault::InvalidSignature(error) => Fault::InvalidSignature(error@),
            SignatureFault::Rejected(error) => Fault::Rejected(error@),
        }
    }
}

/// The fault of a signature, where there is one.
pub open spec fn opt_fault(fault: Option<SignatureFault>) -> Option<Fault> {
    match fault {
        Some(f) => Some(f@),
        None => None,
    }
}

/// Why an envelope could not be verified.
#[derive(Debug, Clone, PartialEq, Eq)]
pub enum VerifyError {
    /// The payload is not Base64; what decoding it complained of.
    InvalidPayload(String),
    /// There is no signature.
    NoSignatures,
    /// No signature was accepted; why the last one was not.
    NotAccepted { index: usize, fault: SignatureFault },
}

/// What verifying an envelope comes to.
pub enum Opened {
    Payload(Seq<u8>),
    InvalidPayload(Seq<char>),
    NoSignatures,
    NotAccepted { index: int, fault: Fault },
}

/// What a result of verification says.
pub open spec fn opened_by(result: Result<Vec<u8>, VerifyError>) -> Opened {
    match result {
        Ok(payload) => Opened::Payload(payload@),
        Err(VerifyError::InvalidPayload(error)) => Opened::InvalidPayload(error@),
        Err(VerifyError::NoSignatures) => Opened::NoSignatures,
        Err(VerifyError::NotAccepted { index, fault }) => Opened::NotAccepted {
            index: index as int,
            fault: fault@,
        },
    }
}

/// The fault of one signature of a message; none where the key accepts it.
pub open spec fn outcome(sig: Seq<char>, public_key: Seq<u8>, message: Seq<u8>) -> Option<Fault> {
    match base64_bytes(sig) {
        None => Some(Fault::InvalidBase64(base64_error(sig))),
        Some(bytes) => if bytes.len() != 64 {
            Some(Fault::InvalidSignature("signature error"@))
        } else {
            match ed25519_refusal(public_key, message, bytes) {
                Some(error) => Some(Fault::Rejected(error)),
                None => None,
            }
        },
    }
}

/// What a payload, decoded or complained of, and the outcomes of its signatures
/// come to: one accepted signature is enough.
pub open spec fn conclusion(
    payload: Result<Seq<u8>, Seq<char>>,
    outcomes: Seq<Option<Fault>>,
) -> Opened {
    match payload {
        Err(error) => Opened::InvalidPayload(error),
        Ok(bytes) => if outcomes.len() == 0 {
            Opened::NoSignatures
        } else if outcomes.contains(None) {
            Opened::Payload(bytes)
        } else {
            Opened::NotAccepted { index: outcomes.len() - 1, fault: outcomes.last()->0 }
        },
    }
}

/// The outcomes of the signatures of an envelope with a given payload.
pub open spec fn outcomes(
    envelope: Sealed,
    public_key: Seq<u8>,
    payload: Seq<u8>,
) -> Seq<Option<Fault>> {
    envelope.signatures.map_values(
        |s: Signed| outcome(s.sig, public_key, pae_bytes(envelope.payload_type, payload)),
    )
}

/// What verifying an envelope against a public key comes to.
pub open spec fn opened(envelope: Sealed, public_key: Seq<u8>) -> Opened {
    match base64_bytes(envelope.payload) {
        None => Opened::InvalidPayload(base64_error(envelope.payload)),
        Some(payload) => conclusion(Ok(payload), outcomes(envelope, public_key, payload)),
    }
}

/// A payload, decoded or complained of, as mathematical data.
pub open spec fn decoded(payload: Result<Vec<u8>, String>) -> Result<Seq<u8>, Seq<char>> {
    match payload {
        Ok(bytes) => Ok(bytes@),
        Err(error) => Err(error@),
    }
}

/// The outcomes of signatures as mathematical data.
pub open spec fn faults(outcomes: Seq<Option<SignatureFault>>) -> Seq<Option<Fault>> {
    Seq::new(outcomes.len(), |i: int| opt_fault(outcomes[i]))
}

/// Concludes from a payload, decoded or complained of, and the outcomes of its
/// signatures.
pub fn conclude(payload: Result<Vec<u8>, String>, outcomes: Vec<Option<SignatureFault>>) -> (result:
    Result<Vec<u8>, VerifyError>)
    ensures
        opened_by(result) == conclusion(decoded(payload), faults(outcomes@)),
{
    let payload = match payload {
        Ok(payload) => payload,
        Err(error) => {
            return Err(VerifyError::InvalidPayload(error));
        },
    };
    let ghost all = faults(outcomes@);
    let n = outcomes.len();
    if n == 0 {
        return Err(VerifyError::NoSignatures);
    }
    let mut accepted = false;
    for i in 0..n
        invariant
            n == outcomes.len(),
            all == faults(outcomes@),
            accepted == exists|k: int| 0 <= k < i && #[trigger] all[k] is None,
    {
        if outcomes[i].is_none() {
            accepted = true;
        }
        assert(all[i as int] is None == outcomes[i as int] is None);
    }
    if accepted {
        return Ok(payload);
    }
    let mut outcomes = outcomes;
    match outcomes.pop() {
        Some(Some(fault)) => {
            assert(all.last() == Some(fault@));
            Err(VerifyError::NotAccepted { index: n - 1, fault })
        },
        _ => {
            assert(all[n - 1] is Some);
            Err(VerifyError::NoSignatures)
        },
    }
}

fn check_signature(sig: &str, public_key: &[u8; 32], message: &[u8]) -> (fault: Option<
    SignatureFault,
>)
    ensures
        opt_fault(fault) == outcome(sig@, public_key@, message@),
{
    match base64_decode(sig) {
        Err(error) => Some(SignatureFault::InvalidBase64(error)),
        Ok(bytes) => {
            proof {
                law_base64_round_trips(bytes@);
            }
            match signature_from(bytes.as_slice()) {
                Err(error) => Some(SignatureFault::InvalidSignature(error)),
                Ok(signature) => match refusal(public_key, message, &signature) {
                    Some(error) => Some(SignatureFault::Rejected(error)),
                    None => None,
                },
            }
        },
    }
}

/// Verifies a DSSE envelope against a known verifying key.
///
/// Returns the decoded payload bytes on success so callers can
/// deserialize and validate the attestation without re-decoding.
pub fn verify(envelope: &Envelope, verifying_key: &VerifyingKey) -> (result: Result<
    Vec<u8>,
    VerifyError,
>)
    ensures
        opened_by(result) == opened(envelope@, verifying_key.bytes@),
{
    let payload = match base64_decode(envelope.payload.as_str()) {
        Ok(payload) => payload,
        Err(error) => {
            return Err(VerifyError::InvalidPayload(error));
        },
    };
    proof {
        law_base64_round_trips(payload@);
    }
    let message = pae(envelope.payload_type.as_str(), payload.as_slice());
    let mut checked: Vec<Option<SignatureFault>> = Vec::new();
    for i in 0..envelope.signatures.len()
        invariant
            message@ == pae_bytes(envelope.payload_type@, payload@),
            checked@.len() == i,
            forall|k: int|
                0 <= k < i ==> opt_fault(#[trigger] checked@[k]) == outcome(
                    envelope.signatures@[k].sig@,
                    verifying_key.bytes@,
                    message@,
                ),
    {
        checked.push(
            check_signature(
                envelope.signatures[i].sig.as_str(),
                &verifying_key.bytes,
                message.as_slice(),
            ),
        );
    }
    assert(faults(checked@) =~= outcomes(envelope@, verifying_key.bytes@, payload@));
    conclude(Ok(payload), checked)
}

impl VerifyError {
    /// The error in words.
    pub fn message(&self) -> (text: String)
        ensures
            text@ == (match *self {
                VerifyError::InvalidPayload(_) => "invalid base64 in DSSE payload"@,
                VerifyError::NoSignatures => "DSSE envelope has no signatures"@,
                VerifyError::NotAccepted { index, fault } => "signature "@ + text::decimal(
                    index as nat,
                ) + (match fault@ {
                    Fault::InvalidBase64(error) => ": invalid base64: "@ + error,
                    Fault::InvalidSignature(error) => ": invalid ed25519: "@ + error,
                    Fault::Rejected(error) => ": verification failed: "@ + error,
                }),
            }),
    {
        match self {
            VerifyError::InvalidPayload(_) => "invalid base64 in DSSE payload".to_string(),
            VerifyError::NoSignatures => "DSSE envelope has no signatures".to_string(),
            VerifyError::NotAccepted { index, fault } => {
                let head = concat("signature ", format_decimal(*index as u64).as_str());
                let rest = match fault {
                    SignatureFault::InvalidBase64(error) => {
                        concat(": invalid base64: ", error.as_str())
                    },
                    SignatureFault::InvalidSignature(error) => {
                        concat(": invalid ed25519: ", error.as_str())
                    },
                    SignatureFault::Rejected(error) => {
                        concat(": verification failed: ", error.as_str())
                    },
                };
                concat(head.as_str(), rest.as_str())
            },
        }
    }

    /// What led to the error, where the message does not say it.
    pub fn cause(&self) -> (text: Option<String>)
        ensures
            text::opt_text(text) == (match *self {
                VerifyError::InvalidPayload(error) => Some(error@),
                _ => None::<Seq<char>>,
            }),
    {
        match self {
            VerifyError::InvalidPayload(error) => Some(error.clone()),
            _ => None,
        }
    }
}

// ---------------------------------------------------------------------------
// Keys as text: 32 bytes, hex-encoded
// ---------------------------------------------------------------------------

/// The value of a hexadecimal digit of either case, or -1.
pub open spec fn hex_value(c: char) -> int {
    if '0' <= c && c <= '9' {
        c as int - '0' as int
    } else if 'a' <= c && c <= 'f' {
        c as int - 'a' as int + 10
    } else if 'A' <= c && c <= 'F' {
        c as int - 'A' as int + 10
    } else {
        -1
    }
}

/// Whether a text is made of pairs of hexadecimal digits.
pub open spec fn is_hex(s: Seq<char>) -> bool {
    s.len() % 2 == 0 && forall|i: int| 0 <= i < s.len() ==> hex_value(#[trigger] s[i]) >= 0
}

/// The bytes that a text of hexadecimal digits stands for.
pub open spec fn hex_bytes(s: Seq<char>) -> Seq<u8> {
    Seq::new(
        s.len() / 2,
        |i: int| (hex_value(s[2 * i]) * 16 + hex_value(s[2 * i + 1])) as u8,
    )
}

/// What decoding complains of in a text that is not hexadecimal.
pub uninterp spec fn hex_error(s: Seq<char>) -> Seq<char>;

/// Calls `hex::decode`, which takes an even number of hexadecimal digits of
/// either case, each pair giving a byte, and nothing else. Of any other text it
/// complains in words that are a function of the text alone, named `hex_error`.
#[verifier::external_body]
fn hex_decode(s: &str) -> (data: Result<Vec<u8>, String>)
    ensures
        match data {
            Ok(bytes) => is_hex(s@) && bytes@ == hex_bytes(s@),
            Err(error) => !is_hex(s@) && error@ == hex_error(s@),
        },
{
    hex::decode(s).map_err(|error| error.to_string())
}

/// Calls `hex::encode`, which writes each byte as two lowercase hexadecimal
/// digits.
#[verifier::external_body]
fn hex_encode(data: &[u8; 32]) -> (s: String)
    ensures
        s@ == text::hex_text(data@),
{
    hex::encode(data)
}

/// Why a text is no key.
#[derive(Debug, Clone, PartialEq, Eq)]
pub enum KeyError {
    /// It is not hexadecimal; what decoding it complained of.
    InvalidHex(String),
    /// It does not stand for 32 bytes but for so many.
    WrongLength(usize),
    /// The bytes are no Ed25519 verifying key; what was complained of.
    InvalidKey(String),
}

/// What a text is read as.
pub enum KeyText {
    Key(Seq<u8>),
    InvalidHex(Seq<char>),
    WrongLength(int),
    InvalidKey(Seq<char>),
}

/// What a text is read as, before it is asked whether it is a point. Whitespace
/// around the digits is ignored.
pub open spec fn key_text(s: Seq<char>) -> KeyText {
    let digits = text::trimmed(s);
    if !is_hex(digits) {
        KeyText::InvalidHex(hex_error(digits))
    } else if digits.len() != 64 {
        KeyText::WrongLength((digits.len() / 2) as int)
    } else {
        KeyText::Key(hex_bytes(digits))
    }
}

/// What is read as a key has to be a point to be a verifying key; `error` is what
/// is complained of otherwise.
pub open spec fn as_verifying_key(key: KeyText, error: Option<Seq<char>>) -> KeyText {
    match (key, error) {
        (KeyText::Key(_), Some(e)) => KeyText::InvalidKey(e),
        _ => key,
    }
}

/// What is complained of in bytes that are no verifying key.
pub open spec fn point_error(bytes: Seq<u8>) -> Option<Seq<char>> {
    if ed25519_is_public_key(bytes) {
        None
    } else {
        Some("signature error: Cannot decompress Edwards point"@)
    }
}

/// What a result of parsing says.
pub open spec fn key_bytes_of(result: Result<[u8; 32], KeyError>) -> KeyText {
    match result {
        Ok(bytes) => KeyText::Key(bytes@),
        Err(KeyError::InvalidHex(error)) => KeyText::InvalidHex(error@),
        Err(KeyError::WrongLength(n)) => KeyText::WrongLength(n as int),
        Err(KeyError::InvalidKey(error)) => KeyText::InvalidKey(error@),
    }
}

/// What a result of parsing a signing key says.
pub open spec fn signing_key_of(result: Result<SigningKey, KeyError>) -> KeyText {
    match result {
        Ok(key) => key_bytes_of(Ok(key.seed)),
        Err(e) => key_bytes_of(Err(e)),
    }
}

/// What a result of parsing a verifying key says.
pub open spec fn verifying_key_of(result: Result<VerifyingKey, KeyError>) -> KeyText {
    match result {
        Ok(key) => key_bytes_of(Ok(key.bytes)),
        Err(e) => key_bytes_of(Err(e)),
    }
}

fn thirty_two(bytes: &Vec<u8>) -> (array: [u8; 32])
    requires
        bytes@.len() == 32,
    ensures
        array@ == bytes@,
{
    let mut array: [u8; 32] = [0u8; 32];
    for i in 0..32usize
        invariant
            bytes@.len() == 32,
            forall|k: int| 0 <= k < i ==> #[trigger] array@[k] == bytes@[k],
    {
        array[i] = bytes[i];
    }
    assert(array@ =~= bytes@);
    array
}

/// Reads 32 bytes from hexadecimal digits.
pub fn parse_key_bytes(hex: &str) -> (result: Result<[u8; 32], KeyError>)
    ensures
        key_bytes_of(result) == key_text(hex@),
{
    let digits = trim(hex);
    match hex_decode(digits.as_str()) {
        Err(error) => Err(KeyError::InvalidHex(error)),
        Ok(bytes) => {
            if bytes.len() != 32 {
                Err(KeyError::WrongLength(bytes.len()))
            } else {
                Ok(thirty_two(&bytes))
            }
        },
    }
}

/// Parses a hex-encoded Ed25519 signing key (32-byte seed).
pub fn parse_signing_key(hex: &str) -> (result: Result<SigningKey, KeyError>)
    ensures
        signing_key_of(result) == key_text(hex@),
{
    match parse_key_bytes(hex) {
        Ok(seed) => Ok(SigningKey { seed }),
        Err(error) => Err(error),
    }
}

/// Takes bytes for a verifying key, unless something is complained of.
pub fn verifying_key_from(bytes: [u8; 32], error: Option<String>) -> (result: Result<
    VerifyingKey,
    KeyError,
>)
    ensures
        verifying_key_of(result) == as_verifying_key(KeyText::Key(bytes@), text::opt_text(error)),
{
    match error {
        None => Ok(VerifyingKey { bytes }),
        Some(error) => Err(KeyError::InvalidKey(error)),
    }
}

/// Parses a hex-encoded Ed25519 verifying key (32-byte public key).
pub fn parse_verifying_key(hex: &str) -> (result: Result<VerifyingKey, KeyError>)
    ensures
        verifying_key_of(result) == as_verifying_key(
            key_text(hex@),
            point_error(hex_bytes(text::trimmed(hex@))),
        ),
{
    match parse_key_bytes(hex) {
        Ok(bytes) => {
            let error = public_key_error(&bytes);
            verifying_key_from(bytes, error)
        },
        Err(error) => Err(error),
    }
}

impl KeyError {
    /// The error in words, for a key of a kind such as `signing key`.
    pub fn message(&self, kind: &str) -> (text: String)
        ensures
            text@ == (match *self {
                KeyError::InvalidHex(_) => kind@ + " is not valid hex"@,
                KeyError::WrongLength(n) => kind@ + " must be 32 bytes (64 hex chars), got "@
                    + text::decimal(n as nat) + " bytes"@,
                KeyError::InvalidKey(_) => "invalid ed25519 "@ + kind@,
            }),
    {
        match self {
            KeyError::InvalidHex(_) => concat(kind, " is not valid hex"),
            KeyError::WrongLength(n) => {
                let mut text = concat(kind, " must be 32 bytes (64 hex chars), got ");
                text.append(format_decimal(*n as u64).as_str());
                text.append(" bytes");
                text
            },
            KeyError::InvalidKey(_) => concat("invalid ed25519 ", kind),
        }
    }

    /// What led to the error, where the message does not say it.
    pub fn cause(&self) -> (text: Option<String>)
        ensures
            text::opt_text(text) == (match *self {
                KeyError::InvalidHex(error) => Some(error@),
                KeyError::InvalidKey(error) => Some(error@),
                KeyError::WrongLength(_) => None,
            }),
    {
        match self {
            KeyError::InvalidHex(error) => Some(error.clone()),
            KeyError::InvalidKey(error) => Some(error.clone()),
            KeyError::WrongLength(_) => None,
        }
    }
}

/// The text that a key is kept as: its digits and a line end.
pub open spec fn key_file_text(key: Seq<u8>) -> Seq<char> {
    text::hex_text(key).push('\n')
}

fn key_line(key: &[u8; 32]) -> (line: String)
    ensures
        line@ == key_file_text(key@),
{
    let mut line = hex_encode(key);
    line.push('\n');
    line
}

/// The text that a signing key is kept as.
pub fn signing_key_text(key: &SigningKey) -> (line: String)
    ensures
        line@ == key_file_text(key.seed@),
{
    key_line(&key.seed)
}

/// The text that a verifying key is kept as.
pub fn verifying_key_text(key: &VerifyingKey) -> (line: String)
    ensures
        line@ == key_file_text(key.bytes@),
{
    key_line(&key.bytes)
}

// ---------------------------------------------------------------------------
// Key generation
// ---------------------------------------------------------------------------

/// Calls `fill` of `rand`'s `thread_rng`, which fills an array with random
/// bytes. Nothing is claimed of them.
#[verifier::external_body]
fn random_seed() -> (seed: [u8; 32]) {
    let mut seed = [0u8; 32];
    rand::thread_rng().fill(&mut seed);
    seed
}

/// The key pair of a seed.
pub fn key_pair_from(seed: [u8; 32]) -> (pair: (SigningKey, VerifyingKey))
    ensures
        pair.0.seed == seed,
        pair.1.bytes@ == ed25519_public_key(seed@)@,
        ed25519_is_public_key(pair.1.bytes@),
{
    let signing_key = SigningKey { seed };
    let verifying_key = signing_key.verifying_key();
    (signing_key, verifying_key)
}

/// Generates a fresh Ed25519 key pair. The seed is random; the verifying key is
/// the one that belongs to it.
pub fn generate_key_pair() -> (pair: (SigningKey, VerifyingKey))
    ensures
        pair.1.bytes@ == ed25519_public_key(pair.0.seed@)@,
        ed25519_is_public_key(pair.1.bytes@),
{
    key_pair_from(random_seed())
}

// ---------------------------------------------------------------------------
// Laws
// ---------------------------------------------------------------------------

proof fn lemma_base64_symbol(v: int, w: int)
    requires
        0 <= v < 64,
        0 <= w < 64,
    ensures
        base64_symbol(v) != '=',
        base64_symbol(v) == base64_symbol(w) ==> v == w,
{
}

proof fn lemma_base64_quad(a: Seq<u8>, b: Seq<u8>)
    requires
        a.len() > 0,
        b.len() > 0,
        base64_quad(a) == base64_quad(b),
    ensures
        a.len() <= 2 || b.len() <= 2 ==> a.len() == b.len(),
        forall|i: int| 0 <= i < 3 && i < a.len() && i < b.len() ==> #[trigger] a[i] == b[i],
{
    let p = base64_quad(a);
    let q = base64_quad(b);
    let x1 = if a.len() > 1 {
        a[1] as int
    } else {
        0
    };
    let x2 = if a.len() > 2 {
        a[2] as int
    } else {
        0
    };
    let y1 = if b.len() > 1 {
        b[1] as int
    } else {
        0
    };
    let y2 = if b.len() > 2 {
        b[2] as int
    } else {
        0
    };
    let x0 = a[0] as int;
    let y0 = b[0] as int;
    assert(p[0] == q[0] && p[1] == q[1] && p[2] == q[2] && p[3] == q[3]);
    lemma_base64_symbol(x0 / 4, y0 / 4);
    lemma_base64_symbol(x0 % 4 * 16 + x1 / 16, y0 % 4 * 16 + y1 / 16);
    lemma_base64_symbol(x1 % 16 * 4 + x2 / 64, y1 % 16 * 4 + y2 / 64);
    lemma_base64_symbol(y1 % 16 * 4 + y2 / 64, x1 % 16 * 4 + x2 / 64);
    lemma_base64_symbol(x2 % 64, y2 % 64);
    lemma_base64_symbol(y2 % 64, x2 % 64);
    assert(x0 == y0);
    if a.len() > 1 && b.len() > 1 {
        assert(x1 == y1);
    }
    if a.len() > 2 && b.len() > 2 {
        assert(x2 == y2);
    }
}

/// Base64 loses nothing: different bytes have different texts, of the length
/// that padding gives.
pub proof fn law_base64_is_injective(a: Seq<u8>, b: Seq<u8>)
    ensures
        base64_text(a).len() == base64_len(a.len()),
        base64_text(a) == base64_text(b) ==> a == b,
    decreases a.len(),
{
    lemma_base64_len(a);
    lemma_base64_len(b);
    if base64_text(a) == base64_text(b) {
        if a.len() == 0 {
            assert(a =~= b);
        } else {
            let x = base64_text(a);
            let y = base64_text(b);
            assert(b.len() > 0);
            assert(x.take(4) =~= base64_quad(a));
            assert(y.take(4) =~= base64_quad(b));
            lemma_base64_quad(a, b);
            if a.len() > 3 && b.len() > 3 {
                assert(x.skip(4) =~= base64_text(a.skip(3)));
                assert(y.skip(4) =~= base64_text(b.skip(3)));
                law_base64_is_injective(a.skip(3), b.skip(3));
                assert forall|i: int| 0 <= i < a.len() implies a[i] == b[i] by {
                    if i >= 3 {
                        assert(a.skip(3)[i - 3] == b.skip(3)[i - 3]);
                    }
                }
                assert(a.len() == a.skip(3).len() + 3);
                assert(b.len() == b.skip(3).len() + 3);
            }
            assert(a =~= b);
        }
    }
}

proof fn lemma_base64_len(a: Seq<u8>)
    ensures
        base64_text(a).len() == base64_len(a.len()),
    decreases a.len(),
{
    if a.len() > 3 {
        lemma_base64_len(a.skip(3));
    }
}

/// Decoding gives back what was encoded.
pub proof fn law_base64_round_trips(data: Seq<u8>)
    ensures
        base64_bytes(base64_text(data)) == Some(data),
{
    let found = choose|other: Seq<u8>| #[trigger] base64_text(other) == base64_text(data);
    law_base64_is_injective(found, data);
}

proof fn lemma_strip(p: Seq<u8>, x: Seq<u8>, y: Seq<u8>)
    requires
        p + x == p + y,
    ensures
        x == y,
{
    assert(x =~= (p + x).skip(p.len() as int));
    assert(y =~= (p + y).skip(p.len() as int));
}

/// The pre-authenticated encoding tells payload types and payloads apart: no
/// signature can be carried over from one pair to another.
pub proof fn law_pae_is_injective(
    type_a: Seq<char>,
    payload_a: Seq<u8>,
    type_b: Seq<char>,
    payload_b: Seq<u8>,
)
    requires
        pae_bytes(type_a, payload_a) == pae_bytes(type_b, payload_b),
    ensures
        type_a == type_b,
        payload_a == payload_b,
{
    let head = encode_utf8("DSSEv1"@);
    let sp = seq![32u8];
    let ta = encode_utf8(type_a);
    let tb = encode_utf8(type_b);
    let na = encode_utf8(text::decimal(ta.len()));
    let nb = encode_utf8(text::decimal(tb.len()));
    let ma = encode_utf8(text::decimal(payload_a.len()));
    let mb = encode_utf8(text::decimal(payload_b.len()));
    let ra = sp + (ma + (sp + payload_a));
    let rb = sp + (mb + (sp + payload_b));
    lemma_strip(head, sp + (na + (sp + (ta + ra))), sp + (nb + (sp + (tb + rb))));
    lemma_strip(sp, na + (sp + (ta + ra)), nb + (sp + (tb + rb)));
    text::lemma_decimal_prefix_unique(ta.len(), tb.len(), ta + ra, tb + rb);
    assert(ta =~= (ta + ra).take(ta.len() as int));
    assert(tb =~= (tb + rb).take(tb.len() as int));
    text::lemma_utf8_injective(type_a, type_b);
    lemma_strip(ta, ra, rb);
    lemma_strip(sp, ma + (sp + payload_a), mb + (sp + payload_b));
    text::lemma_decimal_prefix_unique(payload_a.len(), payload_b.len(), payload_a, payload_b);
}

proof fn lemma_hex_values(bytes: Seq<u8>)
    ensures
        text::hex_text(bytes).len() == 2 * bytes.len(),
        is_hex(text::hex_text(bytes)),
        hex_bytes(text::hex_text(bytes)) == bytes,
    decreases bytes.len(),
{
    if bytes.len() > 0 {
        let d = bytes.drop_last();
        let b = bytes.last();
        lemma_hex_values(d);
        let h = text::hex_text(d);
        let t = text::hex_text(bytes);
        let hi = text::hex_digit(b as int / 16);
        let lo = text::hex_digit(b as int % 16);
        assert(t =~= h.push(hi).push(lo));
        assert(hex_value(hi) == b as int / 16);
        assert(hex_value(lo) == b as int % 16);
        assert forall|i: int| 0 <= i < t.len() implies hex_value(#[trigger] t[i]) >= 0 by {
            if i < h.len() {
                assert(t[i] == h[i]);
            }
        }
        assert forall|i: int| 0 <= i < bytes.len() implies #[trigger] hex_bytes(t)[i] == bytes[i] by {
            if i < d.len() {
                assert(t[2 * i] == h[2 * i]);
                assert(t[2 * i + 1] == h[2 * i + 1]);
                assert(hex_bytes(h)[i] == d[i]);
            } else {
                assert(t[2 * i] == hi);
                assert(t[2 * i + 1] == lo);
            }
        }
        assert(hex_bytes(t) =~= bytes);
    } else {
        assert(hex_bytes(text::hex_text(bytes)) =~= bytes);
    }
}

/// Reading a key file gives back the key that was written.
pub proof fn law_key_text_round_trips(key: [u8; 32])
    ensures
        key_text(key_file_text(key@)) == KeyText::Key(key@),
{
    let h = text::hex_text(key@);
    let s = h.push('\n');
    lemma_hex_values(key@);
    assert(hex_value(h[0]) >= 0);
    assert(hex_value(h[63]) >= 0);
    assert(s[0] == h[0]);
    assert(text::trim_start(s) == s);
    assert(s.drop_last() =~= h);
    assert(h.last() == h[63]);
    assert(text::trim_end(h) == h);
    assert(text::trimmed(s) == h);
}

/// An envelope is opened only where its key accepts a signature over exactly
/// this payload under exactly this payload type.
pub proof fn law_opened_payloads_were_signed(envelope: Sealed, public_key: Seq<u8>, payload: Seq<u8>)
    requires
        opened(envelope, public_key) == Opened::Payload(payload),
    ensures
        base64_bytes(envelope.payload) == Some(payload),
        exists|i: int|
            0 <= i < envelope.signatures.len() && outcome(
                (#[trigger] envelope.signatures[i]).sig,
                public_key,
                pae_bytes(envelope.payload_type, payload),
            ) is None,
{
    let all = outcomes(envelope, public_key, payload);
    let i = choose|i: int| 0 <= i < all.len() && all[i] is None;
    assert(outcome(
        envelope.signatures[i].sig,
        public_key,
        pae_bytes(envelope.payload_type, payload),
    ) is None);
}

/// An envelope without signatures is opened by no key.
pub proof fn law_unsigned_envelopes_are_refused(envelope: Sealed, public_key: Seq<u8>)
    requires
        envelope.signatures.len() == 0,
    ensures
        opened(envelope, public_key) == if base64_bytes(envelope.payload) is Some {
            Opened::NoSignatures
        } else {
            Opened::InvalidPayload(base64_error(envelope.payload))
        },
{
}

/// A key opens no envelope of whose signatures it accepts none over its payload
/// and payload type, whoever else accepts them.
pub proof fn law_keys_open_only_what_they_accept(
    envelope: Sealed,
    public_key: Seq<u8>,
    payload: Seq<u8>,
)
    requires
        base64_bytes(envelope.payload) == Some(payload),
        envelope.signatures.len() > 0,
        forall|i: int|
            0 <= i < envelope.signatures.len() ==> outcome(
                (#[trigger] envelope.signatures[i]).sig,
                public_key,
                pae_bytes(envelope.payload_type, payload),
            ) is Some,
    ensures
        opened(envelope, public_key) == (Opened::NotAccepted {
            index: envelope.signatures.len() - 1,
            fault: outcome(
                envelope.signatures.last().sig,
                public_key,
                pae_bytes(envelope.payload_type, payload),
            )->0,
        }),
{
    let all = outcomes(envelope, public_key, payload);
    assert forall|i: int| 0 <= i < all.len() implies #[trigger] all[i] is Some by {
        assert(all[i] == outcome(
            envelope.signatures[i].sig,
            public_key,
            pae_bytes(envelope.payload_type, payload),
        ));
    }
}

/// Whether a key accepts for one message a signature that was made for another.
pub open spec fn forged(
    public_key: Seq<u8>,
    signed: Seq<u8>,
    other: Seq<u8>,
    sig: Seq<char>,
) -> bool {
    signed != other && outcome(sig, public_key, other) is None
}

/// Neither the payload nor the payload type of an envelope can be replaced: with
/// the signatures kept, the key opens what results only to the payload and under
/// the payload type that were there before, unless one of the signatures is a
/// forgery, accepted for a message it was not made for.
pub proof fn law_altered_envelopes_are_refused(
    envelope: Sealed,
    public_key: Seq<u8>,
    payload: Seq<u8>,
    payload_type: Seq<char>,
    encoded_payload: Seq<char>,
)
    requires
        opened(envelope, public_key) == Opened::Payload(payload),
    ensures
        ({
            let altered = Sealed { payload_type, payload: encoded_payload, ..envelope };
            match opened(altered, public_key) {
                Opened::Payload(other) => {
                    ||| payload_type == envelope.payload_type && other == payload
                    ||| exists|i: int|
                        0 <= i < envelope.signatures.len() && forged(
                            public_key,
                            pae_bytes(envelope.payload_type, payload),
                            pae_bytes(payload_type, other),
                            (#[trigger] envelope.signatures[i]).sig,
                        )
                },
                _ => true,
            }
        }),
{
    let altered = Sealed { payload_type, payload: encoded_payload, ..envelope };
    if let Opened::Payload(other) = opened(altered, public_key) {
        law_opened_payloads_were_signed(altered, public_key, other);
        let message = pae_bytes(envelope.payload_type, payload);
        if message == pae_bytes(payload_type, other) {
            law_pae_is_injective(envelope.payload_type, payload, payload_type, other);
        } else {
            let i = choose|i: int|
                0 <= i < altered.signatures.len() && outcome(
                    (#[trigger] altered.signatures[i]).sig,
                    public_key,
                    pae_bytes(payload_type, other),
                ) is None;
            assert(forged(
                public_key,
                message,
                pae_bytes(payload_type, other),
                envelope.signatures[i].sig,
            ));
        }
    }
}

/// One accepted signature is enough, wherever it stands: the envelope is opened to
/// its payload.
pub proof fn law_one_accepted_signature_is_enough(
    envelope: Sealed,
    public_key: Seq<u8>,
    payload: Seq<u8>,
    i: int,
    signature: Seq<u8>,
)
    requires
        base64_text(payload) == envelope.payload,
        0 <= i < envelope.signatures.len(),
        base64_text(signature) == envelope.signatures[i].sig,
        signature.len() == 64,
        ed25519_accepts(public_key, pae_bytes(envelope.payload_type, payload), signature),
    ensures
        opened(envelope, public_key) == Opened::Payload(payload),
{
    law_base64_round_trips(payload);
    law_base64_round_trips(signature);
    let all = outcomes(envelope, public_key, payload);
    assert(all[i] is None);
}

/// What is said of the last signature where none is accepted: that it is not
/// Base64, that it has not 64 bytes, or what the key complains of.
pub proof fn law_the_last_fault_is_told(envelope: Sealed, public_key: Seq<u8>, payload: Seq<u8>)
    requires
        base64_text(payload) == envelope.payload,
        envelope.signatures.len() > 0,
        forall|i: int|
            0 <= i < envelope.signatures.len() ==> outcome(
                (#[trigger] envelope.signatures[i]).sig,
                public_key,
                pae_bytes(envelope.payload_type, payload),
            ) is Some,
    ensures
        ({
            let n = envelope.signatures.len() - 1;
            let sig = envelope.signatures[n].sig;
            let message = pae_bytes(envelope.payload_type, payload);
            match opened(envelope, public_key) {
                Opened::NotAccepted { index, fault } => index == n && match fault {
                    Fault::InvalidBase64(error) => error == base64_error(sig) && forall|
                        bytes: Seq<u8>,
                    | #[trigger] base64_text(bytes) != sig,
                    Fault::InvalidSignature(error) => error == "signature error"@ && exists|
                        bytes: Seq<u8>,
                    | #[trigger] base64_text(bytes) == sig && bytes.len() != 64,
                    Fault::Rejected(error) => exists|bytes: Seq<u8>| #[trigger]
                        base64_text(bytes) == sig && bytes.len() == 64 && ed25519_refusal(
                            public_key,
                            message,
                            bytes,
                        ) == Some(error),
                },
                _ => false,
            }
        }),
{
    law_base64_round_trips(payload);
    law_keys_open_only_what_they_accept(envelope, public_key, payload);
}

/// What a text is read as: 64 hexadecimal digits of either case, with whitespace
/// around them, are a key; other numbers of pairs of digits have another length,
/// and anything else is no hexadecimal.
pub proof fn law_what_is_read_as_a_key(before: Seq<char>, digits: Seq<char>, after: Seq<char>)
    requires
        forall|i: int| 0 <= i < before.len() ==> text::is_whitespace(#[trigger] before[i]),
        forall|i: int| 0 <= i < after.len() ==> text::is_whitespace(#[trigger] after[i]),
        digits.len() > 0,
        !text::is_whitespace(digits[0]),
        !text::is_whitespace(digits.last()),
    ensures
        ({
            let is_digits = forall|i: int|
                0 <= i < digits.len() ==> ('0' <= #[trigger] digits[i] && digits[i] <= '9') || (
                'a' <= digits[i] && digits[i] <= 'f') || ('A' <= digits[i] && digits[i] <= 'F');
            match key_text(before + digits + after) {
                KeyText::Key(bytes) => is_digits && digits.len() == 64 && bytes.len() == 32,
                KeyText::WrongLength(n) => is_digits && digits.len() == 2 * n && n != 32,
                KeyText::InvalidHex(error) => error == hex_error(digits) && (!is_digits
                    || digits.len() % 2 == 1),
                KeyText::InvalidKey(_) => false,
            }
        }),
{
    text::law_trimming(before, digits, after);
    if is_hex(digits) {
        assert forall|i: int| 0 <= i < digits.len() implies ('0' <= #[trigger] digits[i]
            && digits[i] <= '9') || ('a' <= digits[i] && digits[i] <= 'f') || ('A' <= digits[i]
            && digits[i] <= 'F') by {
            assert(hex_value(digits[i]) >= 0);
        }
    }
}

} // verus!
