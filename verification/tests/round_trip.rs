use pkcs7::cms_version::CmsVersion;
use pkcs7::element::{AlgorithmIdentifier, Attribute, Name, SerialNumber};
use pkcs7::set_of::SetOfVec;
use pkcs7::signer_identifier::{IssuerAndSerialNumber, SignerIdentifier, SubjectKeyIdentifier};
use pkcs7::signer_info::SignerInfo;

// CN=Test
const NAME: [u8; 17] = [
    0x30, 0x0f, 0x31, 0x0d, 0x30, 0x0b, 0x06, 0x03, 0x55, 0x04, 0x03, 0x0c, 0x04, 0x54, 0x65, 0x73,
    0x74,
];
// INTEGER 4660
const SERIAL: [u8; 4] = [0x02, 0x02, 0x12, 0x34];
// id-sha256, NULL parameters
const SHA256: [u8; 15] = [
    0x30, 0x0d, 0x06, 0x09, 0x60, 0x86, 0x48, 0x01, 0x65, 0x03, 0x04, 0x02, 0x01, 0x05, 0x00,
];
// rsaEncryption, NULL parameters
const RSA: [u8; 15] = [
    0x30, 0x0d, 0x06, 0x09, 0x2a, 0x86, 0x48, 0x86, 0xf7, 0x0d, 0x01, 0x01, 0x01, 0x05, 0x00,
];
// contentType = id-data
const CONTENT_TYPE: [u8; 26] = [
    0x30, 0x18, 0x06, 0x09, 0x2a, 0x86, 0x48, 0x86, 0xf7, 0x0d, 0x01, 0x09, 0x03, 0x31, 0x0b, 0x06,
    0x09, 0x2a, 0x86, 0x48, 0x86, 0xf7, 0x0d, 0x01, 0x07, 0x01,
];
// signingTime = UTCTime 250101000000Z
const SIGNING_TIME: [u8; 30] = [
    0x30, 0x1c, 0x06, 0x09, 0x2a, 0x86, 0x48, 0x86, 0xf7, 0x0d, 0x01, 0x09, 0x05, 0x31, 0x0f, 0x17,
    0x0d, 0x32, 0x35, 0x30, 0x31, 0x30, 0x31, 0x30, 0x30, 0x30, 0x30, 0x30, 0x30, 0x5a,
];

fn issuer() -> SignerIdentifier {
    SignerIdentifier::IssuerAndSerialNumber(IssuerAndSerialNumber {
        name: Name::from_der(&NAME).unwrap(),
        serial_number: SerialNumber::from_der(&SERIAL).unwrap(),
    })
}

fn key_id() -> SignerIdentifier {
    SignerIdentifier::SubjectKeyIdentifier(SubjectKeyIdentifier(vec![0xde, 0xad, 0xbe, 0xef]))
}

fn attributes(items: &[&[u8]]) -> SetOfVec<Attribute> {
    let mut set = SetOfVec::new();
    for item in items {
        set.insert(Attribute::from_der(item).unwrap());
    }
    set
}

fn record(
    sid: SignerIdentifier,
    signed: Option<SetOfVec<Attribute>>,
    unsigned: Option<SetOfVec<Attribute>>,
) -> SignerInfo {
    SignerInfo::new(
        CmsVersion::V1,
        sid,
        AlgorithmIdentifier::from_der(&SHA256).unwrap(),
        signed,
        AlgorithmIdentifier::from_der(&RSA).unwrap(),
        vec![0x5a; 256],
        unsigned,
    )
    .unwrap()
}

fn check_round_trip(info: &SignerInfo) {
    let der = info.to_der().unwrap();
    let back = SignerInfo::from_der(&der).unwrap();
    assert_eq!(&back, info);
    assert_eq!(back.to_der().unwrap(), der);
}

#[test]
fn round_trip_issuer_without_attributes() {
    check_round_trip(&record(issuer(), None, None));
}

#[test]
fn round_trip_issuer_with_unsigned_attributes() {
    check_round_trip(&record(issuer(), None, Some(attributes(&[&CONTENT_TYPE]))));
}

#[test]
fn round_trip_issuer_with_signed_attributes() {
    check_round_trip(&record(issuer(), Some(attributes(&[&CONTENT_TYPE, &SIGNING_TIME])), None));
}

#[test]
fn round_trip_issuer_with_both_attribute_sets() {
    check_round_trip(&record(
        issuer(),
        Some(attributes(&[&CONTENT_TYPE, &SIGNING_TIME])),
        Some(attributes(&[&SIGNING_TIME])),
    ));
}

#[test]
fn round_trip_key_identifier_without_attributes() {
    check_round_trip(&record(key_id(), None, None));
}

#[test]
fn round_trip_key_identifier_with_unsigned_attributes() {
    check_round_trip(&record(key_id(), None, Some(attributes(&[&CONTENT_TYPE]))));
}

#[test]
fn round_trip_key_identifier_with_signed_attributes() {
    check_round_trip(&record(key_id(), Some(attributes(&[&CONTENT_TYPE, &SIGNING_TIME])), None));
}

#[test]
fn round_trip_key_identifier_with_both_attribute_sets() {
    check_round_trip(&record(
        key_id(),
        Some(attributes(&[&CONTENT_TYPE, &SIGNING_TIME])),
        Some(attributes(&[&SIGNING_TIME])),
    ));
}

#[test]
fn round_trip_of_every_version() {
    for value in 0u8..=5 {
        let mut info = record(issuer(), None, None);
        info.version = CmsVersion::from_value(value).unwrap();
        let der = info.to_der().unwrap();
        assert_eq!(der[4..7], [0x02, 0x01, value]);
        assert_eq!(SignerInfo::from_der(&der).unwrap(), info);
    }
}

#[test]
fn rsa_sha256_record_has_the_expected_bytes() {
    let info = record(issuer(), None, None);
    assert!(info.signed_attributes.is_none());
    assert!(info.unsigned_attributes.is_none());
    let der = info.to_der().unwrap();

    let mut expected = vec![0x30, 0x82, 0x01, 0x3c];
    expected.extend_from_slice(&[0x02, 0x01, 0x01]);
    expected.extend_from_slice(&[0x30, 0x15]);
    expected.extend_from_slice(&NAME);
    expected.extend_from_slice(&SERIAL);
    expected.extend_from_slice(&SHA256);
    expected.extend_from_slice(&RSA);
    expected.extend_from_slice(&[0x04, 0x82, 0x01, 0x00]);
    expected.extend_from_slice(&[0x5a; 256]);
    assert_eq!(der, expected);

    let back = SignerInfo::from_der(&der).unwrap();
    assert_eq!(back, info);
    assert_eq!(back.version, CmsVersion::V1);
    assert_eq!(back.sid, issuer());
    assert_eq!(back.digest_algorithm.as_bytes(), &SHA256[..]);
    assert_eq!(back.signature_algorithm.as_bytes(), &RSA[..]);
    assert_eq!(back.signature, vec![0x5a; 256]);
    assert_eq!(back.signed_attributes, None);
    assert_eq!(back.unsigned_attributes, None);
}

#[test]
fn record_with_every_field_has_the_expected_bytes() {
    let info = record(
        key_id(),
        Some(attributes(&[&CONTENT_TYPE, &SIGNING_TIME])),
        Some(attributes(&[&SIGNING_TIME])),
    );
    let der = info.to_der().unwrap();

    // 3 + 8 + 15 + (2 + 56) + 15 + 260 + (2 + 30) = 391
    let mut expected = vec![0x30, 0x82, 0x01, 0x87];
    expected.extend_from_slice(&[0x02, 0x01, 0x01]);
    expected.extend_from_slice(&[0xa0, 0x06, 0x04, 0x04, 0xde, 0xad, 0xbe, 0xef]);
    expected.extend_from_slice(&SHA256);
    expected.extend_from_slice(&[0xa0, 0x38]);
    expected.extend_from_slice(&CONTENT_TYPE);
    expected.extend_from_slice(&SIGNING_TIME);
    expected.extend_from_slice(&RSA);
    expected.extend_from_slice(&[0x04, 0x82, 0x01, 0x00]);
    expected.extend_from_slice(&[0x5a; 256]);
    expected.extend_from_slice(&[0xa1, 0x1e]);
    expected.extend_from_slice(&SIGNING_TIME);
    assert_eq!(der, expected);
    assert_eq!(SignerInfo::from_der(&expected).unwrap(), info);
}

#[test]
fn attributes_stored_out_of_order_come_back_in_canonical_order() {
    let stored = record(issuer(), Some(attributes(&[&SIGNING_TIME, &CONTENT_TYPE])), None);
    let sorted = record(issuer(), Some(attributes(&[&CONTENT_TYPE, &SIGNING_TIME])), None);
    let der = stored.to_der().unwrap();
    let back = SignerInfo::from_der(&der).unwrap();
    assert_ne!(back, stored);
    assert_eq!(back, sorted);
    // encoding does not reorder what is stored
    assert_eq!(
        stored.signed_attributes.as_ref().unwrap().get(0).unwrap().as_bytes(),
        &SIGNING_TIME[..]
    );
}

#[test]
fn decoding_keeps_the_order_of_the_input() {
    let mut content = vec![0x02, 0x01, 0x03];
    content.extend_from_slice(&[0xa0, 0x06, 0x04, 0x04, 0xde, 0xad, 0xbe, 0xef]);
    content.extend_from_slice(&SHA256);
    content.extend_from_slice(&[0xa0, 0x38]);
    content.extend_from_slice(&SIGNING_TIME);
    content.extend_from_slice(&CONTENT_TYPE);
    content.extend_from_slice(&RSA);
    content.extend_from_slice(&[0x04, 0x02, 0x01, 0x02]);
    let mut der = vec![0x30, content.len() as u8];
    der.extend_from_slice(&content);

    let info = SignerInfo::from_der(&der).unwrap();
    assert_eq!(info.version, CmsVersion::V3);
    assert_eq!(info.sid, key_id());
    assert_eq!(info.signature, vec![0x01, 0x02]);
    let signed = info.signed_attributes.as_ref().unwrap();
    assert_eq!(signed.len(), 2);
    assert_eq!(signed.get(0).unwrap().as_bytes(), &SIGNING_TIME[..]);
    assert_eq!(signed.get(1).unwrap().as_bytes(), &CONTENT_TYPE[..]);
    assert_eq!(info.unsigned_attributes, None);

    // encoding again puts the set in canonical order
    let again = info.to_der().unwrap();
    assert_ne!(again, der);
    assert_eq!(again.len(), der.len());
    assert_eq!(again[30..56], CONTENT_TYPE);
    assert_eq!(again[56..86], SIGNING_TIME);
}

#[test]
fn empty_signature_round_trips() {
    let mut info = record(key_id(), None, None);
    info.signature = Vec::new();
    let der = info.to_der().unwrap();
    assert_eq!(der[der.len() - 2..], [0x04, 0x00]);
    assert_eq!(SignerInfo::from_der(&der).unwrap(), info);
}

#[test]
fn parse_reports_the_bytes_taken() {
    let info = record(issuer(), None, None);
    let mut der = info.to_der().unwrap();
    let len = der.len();
    der.extend_from_slice(&[0x30, 0x00, 0xff]);
    let (back, used) = SignerInfo::parse(&der).unwrap();
    assert_eq!(back, info);
    assert_eq!(used, len);
    assert_eq!(used, 320);
}
