use pkcs7::cms_version::CmsVersion;
use pkcs7::element::{AlgorithmIdentifier, Attribute};
use pkcs7::error::{DecodeError, EncodeError};
use pkcs7::set_of::SetOfVec;
use pkcs7::signer_identifier::{SignerIdentifier, SubjectKeyIdentifier};
use pkcs7::signer_info::SignerInfo;

const NAME: [u8; 17] = [
    0x30, 0x0f, 0x31, 0x0d, 0x30, 0x0b, 0x06, 0x03, 0x55, 0x04, 0x03, 0x0c, 0x04, 0x54, 0x65, 0x73,
    0x74,
];
const SERIAL: [u8; 4] = [0x02, 0x02, 0x12, 0x34];
const SHA256: [u8; 15] = [
    0x30, 0x0d, 0x06, 0x09, 0x60, 0x86, 0x48, 0x01, 0x65, 0x03, 0x04, 0x02, 0x01, 0x05, 0x00,
];
const RSA: [u8; 15] = [
    0x30, 0x0d, 0x06, 0x09, 0x2a, 0x86, 0x48, 0x86, 0xf7, 0x0d, 0x01, 0x01, 0x01, 0x05, 0x00,
];
const CONTENT_TYPE: [u8; 26] = [
    0x30, 0x18, 0x06, 0x09, 0x2a, 0x86, 0x48, 0x86, 0xf7, 0x0d, 0x01, 0x09, 0x03, 0x31, 0x0b, 0x06,
    0x09, 0x2a, 0x86, 0x48, 0x86, 0xf7, 0x0d, 0x01, 0x07, 0x01,
];
const SIGNATURE: [u8; 5] = [0x04, 0x03, 0x01, 0x02, 0x03];

fn sid() -> Vec<u8> {
    let mut v = vec![0x30, 0x15];
    v.extend_from_slice(&NAME);
    v.extend_from_slice(&SERIAL);
    v
}

fn framed(parts: &[&[u8]]) -> Vec<u8> {
    let content: Vec<u8> = parts.concat();
    assert!(content.len() < 0x80);
    let mut der = vec![0x30, content.len() as u8];
    der.extend_from_slice(&content);
    der
}

fn decode(parts: &[&[u8]]) -> Result<SignerInfo, DecodeError> {
    SignerInfo::from_der(&framed(parts))
}

const V1: [u8; 3] = [0x02, 0x01, 0x01];

#[test]
fn well_formed_fields_are_accepted() {
    let info = decode(&[&V1, &sid(), &SHA256, &RSA, &SIGNATURE]).unwrap();
    assert_eq!(info.version, CmsVersion::V1);
    assert_eq!(info.signature, vec![1, 2, 3]);
}

#[test]
fn empty_signed_attributes_are_refused() {
    assert_eq!(
        decode(&[&V1, &sid(), &SHA256, &[0xa0, 0x00], &RSA, &SIGNATURE]),
        Err(DecodeError::EmptyOptionalCollection)
    );
}

#[test]
fn empty_signed_attributes_are_refused_whatever_follows() {
    assert_eq!(
        decode(&[&V1, &sid(), &SHA256, &[0xa0, 0x00], &[0xff, 0xff]]),
        Err(DecodeError::EmptyOptionalCollection)
    );
    assert_eq!(
        decode(&[&V1, &sid(), &SHA256, &[0xa0, 0x00]]),
        Err(DecodeError::EmptyOptionalCollection)
    );
}

#[test]
fn empty_unsigned_attributes_are_refused() {
    assert_eq!(
        decode(&[&V1, &sid(), &SHA256, &RSA, &SIGNATURE, &[0xa1, 0x00]]),
        Err(DecodeError::EmptyOptionalCollection)
    );
}

#[test]
fn missing_signature_is_refused() {
    assert_eq!(decode(&[&V1, &sid(), &SHA256, &RSA]), Err(DecodeError::MissingField));
    assert_eq!(
        decode(&[&V1, &sid(), &SHA256, &[0xa0, 0x1a], &CONTENT_TYPE, &RSA]),
        Err(DecodeError::MissingField)
    );
}

#[test]
fn missing_signature_algorithm_is_refused() {
    assert_eq!(decode(&[&V1, &sid(), &SHA256]), Err(DecodeError::MissingField));
    assert_eq!(
        decode(&[&V1, &sid(), &SHA256, &[0xa0, 0x1a], &CONTENT_TYPE]),
        Err(DecodeError::MissingField)
    );
}

#[test]
fn missing_leading_fields_are_refused() {
    assert_eq!(decode(&[]), Err(DecodeError::MissingField));
    assert_eq!(decode(&[&V1]), Err(DecodeError::MissingField));
    assert_eq!(decode(&[&V1, &sid()]), Err(DecodeError::MissingField));
}

#[test]
fn empty_input_is_a_missing_field() {
    assert_eq!(SignerInfo::from_der(&[]), Err(DecodeError::MissingField));
}

#[test]
fn wrong_outer_tag_is_a_tag_mismatch() {
    let mut der = framed(&[&V1, &sid(), &SHA256, &RSA, &SIGNATURE]);
    der[0] = 0x31;
    assert_eq!(SignerInfo::from_der(&der), Err(DecodeError::TagMismatch));
}

#[test]
fn wrong_field_tag_is_a_tag_mismatch() {
    // the signature is an INTEGER
    assert_eq!(
        decode(&[&V1, &sid(), &SHA256, &RSA, &[0x02, 0x01, 0x00]]),
        Err(DecodeError::TagMismatch)
    );
    // the version is missing, so the signer identifier stands where it should be
    assert_eq!(decode(&[&sid(), &SHA256, &RSA, &SIGNATURE]), Err(DecodeError::TagMismatch));
    // unsigned attributes where the signature must stand
    assert_eq!(
        decode(&[&V1, &sid(), &SHA256, &RSA, &[0xa1, 0x1a], &CONTENT_TYPE]),
        Err(DecodeError::TagMismatch)
    );
    // signed attributes behind the signature algorithm
    assert_eq!(
        decode(&[&V1, &sid(), &SHA256, &RSA, &[0xa0, 0x1a], &CONTENT_TYPE, &SIGNATURE]),
        Err(DecodeError::TagMismatch)
    );
}

#[test]
fn unknown_choice_tag_is_a_tag_mismatch() {
    assert_eq!(
        decode(&[&V1, &[0x04, 0x02, 0x01, 0x02], &SHA256, &RSA, &SIGNATURE]),
        Err(DecodeError::TagMismatch)
    );
}

#[test]
fn element_in_a_set_with_the_wrong_tag_is_a_tag_mismatch() {
    assert_eq!(
        decode(&[&V1, &sid(), &SHA256, &[0xa0, 0x03, 0x02, 0x01, 0x01], &RSA, &SIGNATURE]),
        Err(DecodeError::TagMismatch)
    );
}

#[test]
fn declared_length_past_the_input_is_a_length_mismatch() {
    let mut der = framed(&[&V1, &sid(), &SHA256, &RSA, &SIGNATURE]);
    der.pop();
    assert_eq!(SignerInfo::from_der(&der), Err(DecodeError::LengthMismatch));
    assert_eq!(SignerInfo::from_der(&[0x30]), Err(DecodeError::LengthMismatch));
    assert_eq!(SignerInfo::from_der(&[0x30, 0x82, 0x01]), Err(DecodeError::LengthMismatch));
}

#[test]
fn field_running_past_the_record_is_a_length_mismatch() {
    // the signature declares four bytes, three are there
    assert_eq!(
        decode(&[&V1, &sid(), &SHA256, &RSA, &[0x04, 0x04, 0x01, 0x02, 0x03]]),
        Err(DecodeError::LengthMismatch)
    );
}

#[test]
fn length_octets_that_are_not_der_are_a_length_mismatch() {
    // indefinite length
    assert_eq!(SignerInfo::from_der(&[0x30, 0x80, 0x00, 0x00]), Err(DecodeError::LengthMismatch));
    // long form where the short form would do
    let inner = framed(&[&V1, &sid(), &SHA256, &RSA, &SIGNATURE]);
    let mut der = vec![0x30, 0x81, inner[1]];
    der.extend_from_slice(&inner[2..]);
    assert_eq!(SignerInfo::from_der(&der), Err(DecodeError::LengthMismatch));
    // five length octets
    assert_eq!(
        SignerInfo::from_der(&[0x30, 0x85, 0x00, 0x00, 0x00, 0x00, 0x01, 0x00]),
        Err(DecodeError::LengthMismatch)
    );
}

#[test]
fn bytes_left_inside_the_record_are_a_length_mismatch() {
    assert_eq!(
        decode(&[&V1, &sid(), &SHA256, &RSA, &SIGNATURE, &[0x05, 0x00]]),
        Err(DecodeError::LengthMismatch)
    );
    // a second set of unsigned attributes
    assert_eq!(
        decode(&[
            &V1,
            &[0xa0, 0x03, 0x04, 0x01, 0x07],
            &SHA256,
            &RSA,
            &SIGNATURE,
            &[0xa1, 0x1a],
            &CONTENT_TYPE,
            &[0xa1, 0x00]
        ]),
        Err(DecodeError::LengthMismatch)
    );
}

#[test]
fn bytes_behind_the_record_are_trailing_data() {
    let mut der = framed(&[&V1, &sid(), &SHA256, &RSA, &SIGNATURE]);
    der.push(0x00);
    assert_eq!(SignerInfo::from_der(&der), Err(DecodeError::TrailingData));
}

#[test]
fn version_out_of_range_is_a_malformed_element() {
    assert_eq!(
        decode(&[&[0x02, 0x01, 0x06], &sid(), &SHA256, &RSA, &SIGNATURE]),
        Err(DecodeError::MalformedElement)
    );
    assert_eq!(
        decode(&[&[0x02, 0x01, 0xff], &sid(), &SHA256, &RSA, &SIGNATURE]),
        Err(DecodeError::MalformedElement)
    );
    assert_eq!(
        decode(&[&[0x02, 0x02, 0x00, 0x80], &sid(), &SHA256, &RSA, &SIGNATURE]),
        Err(DecodeError::MalformedElement)
    );
    assert_eq!(
        decode(&[&[0x02, 0x00], &sid(), &SHA256, &RSA, &SIGNATURE]),
        Err(DecodeError::MalformedElement)
    );
}

#[test]
fn algorithm_without_identifier_is_a_malformed_element() {
    assert_eq!(
        decode(&[&V1, &sid(), &[0x30, 0x00], &RSA, &SIGNATURE]),
        Err(DecodeError::MalformedElement)
    );
    assert_eq!(
        decode(&[&V1, &sid(), &SHA256, &[0x30, 0x02, 0x05, 0x00], &SIGNATURE]),
        Err(DecodeError::MalformedElement)
    );
}

#[test]
fn attribute_without_values_set_is_a_malformed_element() {
    // an attribute that holds only its type
    let bad: [u8; 13] =
        [0x30, 0x0b, 0x06, 0x09, 0x2a, 0x86, 0x48, 0x86, 0xf7, 0x0d, 0x01, 0x09, 0x03];
    assert_eq!(
        decode(&[&V1, &sid(), &SHA256, &[0xa0, 0x0d], &bad, &RSA, &SIGNATURE]),
        Err(DecodeError::MalformedElement)
    );
}

#[test]
fn first_error_in_field_order_is_reported() {
    // a bad version and a missing signature: the version comes first
    assert_eq!(
        decode(&[&[0x02, 0x01, 0x09], &sid(), &SHA256, &RSA]),
        Err(DecodeError::MalformedElement)
    );
}

#[test]
fn constructing_with_an_empty_set_is_refused() {
    let make = |signed: Option<SetOfVec<Attribute>>, unsigned: Option<SetOfVec<Attribute>>| {
        SignerInfo::new(
            CmsVersion::V3,
            SignerIdentifier::SubjectKeyIdentifier(SubjectKeyIdentifier(vec![1])),
            AlgorithmIdentifier::from_der(&SHA256).unwrap(),
            signed,
            AlgorithmIdentifier::from_der(&RSA).unwrap(),
            vec![1, 2, 3],
            unsigned,
        )
    };
    assert_eq!(make(Some(SetOfVec::new()), None), Err(DecodeError::EmptyOptionalCollection));
    assert_eq!(make(None, Some(SetOfVec::new())), Err(DecodeError::EmptyOptionalCollection));
    assert!(make(None, None).is_ok());
    let mut one = SetOfVec::new();
    one.insert(Attribute::from_der(&CONTENT_TYPE).unwrap());
    let info = make(Some(one.clone()), Some(one.clone())).unwrap();
    assert_eq!(info.signed_attributes, Some(one));
}

#[test]
fn encoding_with_an_empty_set_is_refused() {
    let der = framed(&[&V1, &sid(), &SHA256, &RSA, &SIGNATURE]);
    let mut info = SignerInfo::from_der(&der).unwrap();
    info.unsigned_attributes = Some(SetOfVec::new());
    assert_eq!(info.to_der(), Err(EncodeError::EmptyOptionalCollection));
    info.unsigned_attributes = None;
    info.signed_attributes = Some(SetOfVec::new());
    assert_eq!(info.to_der(), Err(EncodeError::EmptyOptionalCollection));
    info.signed_attributes = None;
    assert_eq!(info.to_der().unwrap(), framed(&[&V1, &sid(), &SHA256, &RSA, &SIGNATURE]));
}
