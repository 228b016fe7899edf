use base64::engine::general_purpose::STANDARD;
use base64::Engine;
use repx::attestation::{Attestation, OutputSelection};
use repx::dsse::{
    conclude, generate_key_pair, key_pair_from, pae, parse_key_bytes, parse_signing_key,
    parse_verifying_key, seal, sign, signing_key_text, verify, verifying_key_from,
    verifying_key_text, DsseSignature, Envelope, KeyError, SignatureFault, VerifyError,
};
use repx::merkle::MerkleTree;
use serde_json::Value;

fn rejected() -> SignatureFault {
    SignatureFault::Rejected(
        "signature error: Verification equation was not satisfied".to_string(),
    )
}

fn object(fields: Vec<(&str, Value)>) -> Value {
    let mut map = serde_json::Map::new();
    for (name, value) in fields {
        map.insert(name.to_string(), value);
    }
    Value::Object(map)
}

fn list(texts: &[String]) -> Value {
    Value::Array(texts.iter().map(|text| Value::from(text.as_str())).collect())
}

fn text_at(value: &Value, name: &str) -> String {
    value[name].as_str().unwrap().to_string()
}

fn list_at(value: &Value, name: &str) -> Vec<String> {
    let items = value[name].as_array().unwrap();
    items.iter().map(|item| item.as_str().unwrap().to_string()).collect()
}

fn attestation_json(attestation: &Attestation) -> Vec<u8> {
    let selection = &attestation.output_selection;
    let tree = &attestation.tree;
    assert!(attestation.outputs.is_empty());
    let value = object(vec![
        ("version", Value::from(attestation.version.as_str())),
        ("predicate_type", Value::from(attestation.predicate_type.as_str())),
        ("root_hash", Value::from(attestation.root_hash.as_str())),
        ("process_root", Value::from(attestation.process_root.as_str())),
        ("command", list(&attestation.command)),
        (
            "output_selection",
            object(vec![
                ("mode", Value::from(selection.mode.as_str())),
                ("artifacts", list(&selection.artifacts)),
                ("output_roots", list(&selection.output_roots)),
            ]),
        ),
        ("outputs", Value::Array(vec![])),
        (
            "tree",
            object(vec![
                ("leaves", list(&tree.leaves)),
                ("leaf_count", Value::from(tree.leaf_count)),
            ]),
        ),
    ]);
    serde_json::to_vec(&value).unwrap()
}

fn attestation_from(bytes: &[u8]) -> Attestation {
    let value: Value = serde_json::from_slice(bytes).unwrap();
    let selection = &value["output_selection"];
    Attestation {
        version: text_at(&value, "version"),
        predicate_type: text_at(&value, "predicate_type"),
        root_hash: text_at(&value, "root_hash"),
        process_root: text_at(&value, "process_root"),
        command: list_at(&value, "command"),
        output_selection: OutputSelection {
            mode: text_at(selection, "mode"),
            artifacts: list_at(selection, "artifacts"),
            output_roots: list_at(selection, "output_roots"),
        },
        outputs: Vec::new(),
        tree: MerkleTree {
            leaves: list_at(&value["tree"], "leaves"),
            nodes: Vec::new(),
            leaf_count: value["tree"]["leaf_count"].as_u64().unwrap() as usize,
        },
    }
}

fn envelope_json(envelope: &Envelope) -> Vec<u8> {
    let signatures = envelope
        .signatures
        .iter()
        .map(|signature| {
            object(vec![
                ("keyid", Value::from(signature.keyid.as_str())),
                ("sig", Value::from(signature.sig.as_str())),
            ])
        })
        .collect();
    let value = object(vec![
        ("payloadType", Value::from(envelope.payload_type.as_str())),
        ("payload", Value::from(envelope.payload.as_str())),
        ("signatures", Value::Array(signatures)),
    ]);
    serde_json::to_vec(&value).unwrap()
}

fn envelope_from(bytes: &[u8]) -> Envelope {
    let value: Value = serde_json::from_slice(bytes).unwrap();
    let signatures = value["signatures"].as_array().unwrap();
    Envelope {
        payload_type: text_at(&value, "payloadType"),
        payload: text_at(&value, "payload"),
        signatures: signatures
            .iter()
            .map(|item| DsseSignature { keyid: text_at(item, "keyid"), sig: text_at(item, "sig") })
            .collect(),
    }
}

#[test]
fn full_attestation_sign_and_verify() {
    let tree = MerkleTree {
        leaves: vec!["sha256:operation".to_string()],
        nodes: Vec::new(),
        leaf_count: 1,
    };
    let att = Attestation::new_with_outputs(
        tree,
        &["true".to_string()],
        OutputSelection::default(),
        Vec::new(),
    );
    let payload = attestation_json(&att);

    let (signing_key, verifying_key) = generate_key_pair();
    let envelope = sign(&payload, &att.predicate_type, &signing_key);

    let parsed_envelope = envelope_from(&envelope_json(&envelope));

    let verified_payload = verify(&parsed_envelope, &verifying_key).unwrap();
    assert_eq!(verified_payload, payload);

    let mut verified_att = attestation_from(&verified_payload);
    verified_att.validate().unwrap();
    assert_eq!(verified_att.root_hash, att.root_hash);
}

#[test]
fn altered_envelopes_are_refused() {
    let (signing_key, verifying_key) = key_pair_from([4u8; 32]);
    let (_, other_key) = key_pair_from([5u8; 32]);
    let good = sign(b"data", "type", &signing_key);
    let rejected = Err(VerifyError::NotAccepted { index: 0, fault: rejected() });
    assert_eq!(verify(&good, &verifying_key), Ok(b"data".to_vec()));
    assert_eq!(verify(&good, &other_key), rejected);
    let mut other_payload = good.clone();
    other_payload.payload = STANDARD.encode(b"date");
    assert_eq!(verify(&other_payload, &verifying_key), rejected);
    let mut regrouped = good.clone();
    regrouped.payload_type = "typ".to_string();
    regrouped.payload = STANDARD.encode(b"edata");
    assert_eq!(verify(&regrouped, &verifying_key), rejected);
    let mut unsigned = good.clone();
    unsigned.signatures.clear();
    assert_eq!(verify(&unsigned, &verifying_key), Err(VerifyError::NoSignatures));
}

#[test]
fn pae_round_trips() {
    let payload_type = "https://repx.dev/process-provenance/v0.3.0";
    let payload = br#"{"version":"0.3.0"}"#;

    let encoded = pae(payload_type, payload);
    let encoded2 = pae(payload_type, payload);
    assert_eq!(encoded, encoded2);

    let encoded_other_type = pae("other", payload);
    assert_ne!(encoded, encoded_other_type);

    let encoded_other_payload = pae(payload_type, b"other");
    assert_ne!(encoded, encoded_other_payload);
}

#[test]
fn sign_and_verify_round_trip() {
    let (signing_key, verifying_key) = generate_key_pair();
    let payload_type = "https://repx.dev/process-provenance/v0.3.0";
    let payload = br#"{"version":"0.3.0","root_hash":"sha256:test"}"#;

    let envelope = sign(payload, payload_type, &signing_key);
    let decoded = verify(&envelope, &verifying_key).unwrap();
    assert_eq!(decoded, payload);
}

#[test]
fn wrong_key_fails_verification() {
    let (signing_key, _) = generate_key_pair();
    let (_, wrong_verifying_key) = generate_key_pair();

    let envelope = sign(b"data", "type", &signing_key);
    assert!(verify(&envelope, &wrong_verifying_key).is_err());
}

#[test]
fn tampered_payload_is_rejected_by_verify() {
    let (signing_key, verifying_key) = generate_key_pair();
    let mut envelope = sign(b"original", "type", &signing_key);
    envelope.payload = STANDARD.encode(b"tampered");
    assert!(verify(&envelope, &verifying_key).is_err());
}

#[test]
fn empty_signatures_is_rejected() {
    let (_, verifying_key) = generate_key_pair();
    let envelope = Envelope {
        payload_type: "type".into(),
        payload: STANDARD.encode(b"data"),
        signatures: vec![],
    };
    assert!(verify(&envelope, &verifying_key).is_err());
}

#[test]
fn key_hex_round_trip() {
    let (signing_key, verifying_key) = generate_key_pair();

    let signing_hex = hex::encode(signing_key.to_bytes());
    let parsed_signing = parse_signing_key(&signing_hex).unwrap();
    assert_eq!(signing_key.to_bytes(), parsed_signing.to_bytes());

    let verifying_hex = hex::encode(verifying_key.to_bytes());
    let parsed_verifying = parse_verifying_key(&verifying_hex).unwrap();
    assert_eq!(verifying_key.to_bytes(), parsed_verifying.to_bytes());
}

#[test]
fn signing_key_rejects_wrong_length() {
    assert!(parse_signing_key("deadbeef").is_err());
    assert!(parse_signing_key("").is_err());
}

#[test]
fn the_encoding_is_that_of_the_standard() {
    assert_eq!(
        pae("http://example.com/HelloWorld", b"hello world"),
        b"DSSEv1 29 http://example.com/HelloWorld 11 hello world".to_vec()
    );
    assert_eq!(pae("", b""), b"DSSEv1 0  0 ".to_vec());
}

#[test]
fn keys_are_those_of_ed25519() {
    let seed = parse_key_bytes("9d61b19deffd5a60ba844af492ec2cc44449c5697b326919703bac031cae7f60")
        .unwrap();
    let (signing_key, verifying_key) = key_pair_from(seed);
    assert_eq!(
        hex::encode(verifying_key.to_bytes()),
        "d75a980182b10ab7d54bfed3c964073a0ee172f3daa62325af021a68f707511a"
    );
    assert_eq!(signing_key.to_bytes(), seed);
    assert_eq!(signing_key.verifying_key().to_bytes(), verifying_key.to_bytes());
}

#[test]
fn envelopes_hold_the_encoded_payload_and_signature() {
    let (signing_key, _) = key_pair_from([7u8; 32]);
    let envelope = sign(b"hello", "text", &signing_key);
    assert_eq!(envelope.payload_type, "text");
    assert_eq!(envelope.payload, "aGVsbG8=");
    assert_eq!(envelope.signatures.len(), 1);
    assert_eq!(envelope.signatures[0].keyid, "");
    let signature = STANDARD.decode(&envelope.signatures[0].sig).unwrap();
    assert_eq!(signature.len(), 64);
    let sealed = seal("text", "aGVsbG8=".to_string(), "c2ln".to_string());
    assert_eq!(sealed.signatures[0].sig, "c2ln");
    assert_eq!(sealed.payload, "aGVsbG8=");
}

#[test]
fn signatures_do_not_carry_over_to_another_type() {
    let (signing_key, verifying_key) = key_pair_from([9u8; 32]);
    let mut envelope = sign(b"data", "type", &signing_key);
    assert_eq!(verify(&envelope, &verifying_key), Ok(b"data".to_vec()));
    envelope.payload_type = "other".to_string();
    assert_eq!(
        verify(&envelope, &verifying_key),
        Err(VerifyError::NotAccepted { index: 0, fault: rejected() })
    );
}

#[test]
fn every_way_to_fail_is_told_apart() {
    let (signing_key, verifying_key) = key_pair_from([1u8; 32]);
    let good = sign(b"data", "type", &signing_key);

    let mut bad_payload = good.clone();
    bad_payload.payload = "!".to_string();
    assert_eq!(
        verify(&bad_payload, &verifying_key),
        Err(VerifyError::InvalidPayload("Invalid symbol 33, offset 0.".to_string()))
    );

    let mut bad_base64 = good.clone();
    bad_base64.signatures[0].sig = "!".to_string();
    assert_eq!(
        verify(&bad_base64, &verifying_key),
        Err(VerifyError::NotAccepted {
            index: 0,
            fault: SignatureFault::InvalidBase64("Invalid symbol 33, offset 0.".to_string()),
        })
    );

    let mut short = good.clone();
    short.signatures[0].sig = STANDARD.encode([0u8; 63]);
    assert_eq!(
        verify(&short, &verifying_key),
        Err(VerifyError::NotAccepted {
            index: 0,
            fault: SignatureFault::InvalidSignature("signature error".to_string()),
        })
    );

    let mut none = good.clone();
    none.signatures.clear();
    assert_eq!(verify(&none, &verifying_key), Err(VerifyError::NoSignatures));

    let mut second = good.clone();
    second.signatures.insert(
        0,
        DsseSignature { keyid: String::new(), sig: STANDARD.encode([0u8; 64]) },
    );
    assert_eq!(verify(&second, &verifying_key), Ok(b"data".to_vec()));
}

#[test]
fn outcomes_are_weighed_in_order() {
    let payload = || Ok(b"data".to_vec());
    assert_eq!(
        conclude(Err("bad".to_string()), vec![None]),
        Err(VerifyError::InvalidPayload("bad".to_string()))
    );
    assert_eq!(conclude(payload(), vec![]), Err(VerifyError::NoSignatures));
    assert_eq!(conclude(payload(), vec![Some(rejected()), None]), Ok(b"data".to_vec()));
    assert_eq!(conclude(payload(), vec![None, Some(rejected())]), Ok(b"data".to_vec()));
    assert_eq!(
        conclude(
            payload(),
            vec![Some(SignatureFault::InvalidBase64("bad".to_string())), Some(rejected())],
        ),
        Err(VerifyError::NotAccepted { index: 1, fault: rejected() })
    );
}

#[test]
fn verification_errors_say_what_is_wrong() {
    let payload = VerifyError::InvalidPayload("Invalid padding".to_string());
    assert_eq!(payload.message(), "invalid base64 in DSSE payload");
    assert_eq!(payload.cause(), Some("Invalid padding".to_string()));
    assert_eq!(VerifyError::NoSignatures.message(), "DSSE envelope has no signatures");
    assert_eq!(VerifyError::NoSignatures.cause(), None);
    let failed = |index, fault| VerifyError::NotAccepted { index, fault }.message();
    assert_eq!(
        failed(0, SignatureFault::InvalidBase64("Invalid padding".to_string())),
        "signature 0: invalid base64: Invalid padding"
    );
    assert_eq!(
        failed(1, SignatureFault::InvalidSignature("signature error".to_string())),
        "signature 1: invalid ed25519: signature error"
    );
    assert_eq!(
        failed(12, rejected()),
        "signature 12: verification failed: \
         signature error: Verification equation was not satisfied"
    );
}

#[test]
fn key_texts_round_trip() {
    let (signing_key, verifying_key) = key_pair_from([3u8; 32]);
    let text = signing_key_text(&signing_key);
    assert_eq!(text, format!("{}\n", "03".repeat(32)));
    assert_eq!(parse_signing_key(&text).unwrap().to_bytes(), [3u8; 32]);
    let text = verifying_key_text(&verifying_key);
    assert!(text.ends_with('\n'));
    assert_eq!(parse_verifying_key(&text).unwrap().to_bytes(), verifying_key.to_bytes());
}

#[test]
fn bad_keys_are_told_apart() {
    let point = || "signature error: Cannot decompress Edwards point".to_string();
    assert_eq!(
        parse_key_bytes("xy"),
        Err(KeyError::InvalidHex("Invalid character 'x' at position 0".to_string()))
    );
    assert_eq!(
        parse_key_bytes("abc"),
        Err(KeyError::InvalidHex("Odd number of digits".to_string()))
    );
    assert_eq!(parse_key_bytes(" deadbeef\n"), Err(KeyError::WrongLength(4)));
    assert_eq!(parse_key_bytes(""), Err(KeyError::WrongLength(0)));
    assert_eq!(
        parse_verifying_key("0200000000000000000000000000000000000000000000000000000000000000")
            .err(),
        Some(KeyError::InvalidKey(point()))
    );
    assert_eq!(
        verifying_key_from([0u8; 32], Some(point())).err(),
        Some(KeyError::InvalidKey(point()))
    );
    assert_eq!(verifying_key_from([5u8; 32], None).unwrap().to_bytes(), [5u8; 32]);
    let bad_hex = KeyError::InvalidHex("Odd number of digits".to_string());
    assert_eq!(bad_hex.message("signing key"), "signing key is not valid hex");
    assert_eq!(bad_hex.cause(), Some("Odd number of digits".to_string()));
    assert_eq!(KeyError::WrongLength(4).cause(), None);
    assert_eq!(KeyError::InvalidKey(point()).cause(), Some(point()));
    assert_eq!(
        KeyError::WrongLength(4).message("signing key"),
        "signing key must be 32 bytes (64 hex chars), got 4 bytes"
    );
    assert_eq!(
        KeyError::InvalidKey(point()).message("verifying key"),
        "invalid ed25519 verifying key"
    );
}

#[test]
fn payloads_are_standard_base64() {
    let (signing_key, verifying_key) = key_pair_from([2u8; 32]);
    let encoded = |payload: &[u8]| sign(payload, "type", &signing_key).payload;
    assert_eq!(encoded(b""), "");
    assert_eq!(encoded(b"f"), "Zg==");
    assert_eq!(encoded(b"fo"), "Zm8=");
    assert_eq!(encoded(b"foo"), "Zm9v");
    assert_eq!(encoded(b"foobar"), "Zm9vYmFy");
    assert_eq!(encoded(&[0xfb, 0xff, 0xbf]), "+/+/");
    let complaint = |payload: &str| {
        let mut envelope = sign(b"f", "type", &signing_key);
        envelope.payload = payload.to_string();
        verify(&envelope, &verifying_key).unwrap_err().cause()
    };
    assert_eq!(complaint("Zg="), Some("Invalid padding".to_string()));
    assert_eq!(complaint("Zh=="), Some("Invalid last symbol 104, offset 1.".to_string()));
    assert_eq!(complaint("Z"), Some("Invalid input length: 1".to_string()));
    assert_eq!(complaint("Zg==Zg=="), Some("Invalid symbol 61, offset 2.".to_string()));
}
