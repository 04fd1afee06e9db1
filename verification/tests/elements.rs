use core::str::FromStr;

use der::{Decode, Encode};
use pkcs7::element::{judged, AlgorithmIdentifier, Attribute, ElementKind, Name, SerialNumber};
use pkcs7::error::DecodeError;

const NAME: [u8; 17] = [
    0x30, 0x0f, 0x31, 0x0d, 0x30, 0x0b, 0x06, 0x03, 0x55, 0x04, 0x03, 0x0c, 0x04, 0x54, 0x65, 0x73,
    0x74,
];
const SERIAL: [u8; 4] = [0x02, 0x02, 0x12, 0x34];
const SHA256: [u8; 15] = [
    0x30, 0x0d, 0x06, 0x09, 0x60, 0x86, 0x48, 0x01, 0x65, 0x03, 0x04, 0x02, 0x01, 0x05, 0x00,
];
const RSA: [u8; 15] = [
    0x30, 0x0d, 0x06, 0x09, 0x2a, 0x86, 0x48, 0x86, 0xf7, 0x0d, 0x01, 0x01, 0x01, 0x05, 0x00,
];
const CONTENT_TYPE: [u8; 26] = [
    0x30, 0x18, 0x06, 0x09, 0x2a, 0x86, 0x48, 0x86, 0xf7, 0x0d, 0x01, 0x09, 0x03, 0x31, 0x0b, 0x06,
    0x09, 0x2a, 0x86, 0x48, 0x86, 0xf7, 0x0d, 0x01, 0x07, 0x01,
];
const SIGNING_TIME: [u8; 30] = [
    0x30, 0x1c, 0x06, 0x09, 0x2a, 0x86, 0x48, 0x86, 0xf7, 0x0d, 0x01, 0x09, 0x05, 0x31, 0x0f, 0x17,
    0x0d, 0x32, 0x35, 0x30, 0x31, 0x30, 0x31, 0x30, 0x30, 0x30, 0x30, 0x30, 0x30, 0x5a,
];

#[test]
fn sample_elements_are_accepted() {
    assert_eq!(Name::from_der(&NAME).unwrap().as_bytes(), &NAME[..]);
    assert_eq!(SerialNumber::from_der(&SERIAL).unwrap().as_bytes(), &SERIAL[..]);
    assert_eq!(AlgorithmIdentifier::from_der(&SHA256).unwrap().as_bytes(), &SHA256[..]);
    assert_eq!(AlgorithmIdentifier::from_der(&RSA).unwrap().as_bytes(), &RSA[..]);
    assert_eq!(Attribute::from_der(&CONTENT_TYPE).unwrap().as_bytes(), &CONTENT_TYPE[..]);
    assert_eq!(Attribute::from_der(&SIGNING_TIME).unwrap().as_bytes(), &SIGNING_TIME[..]);
}

#[test]
fn samples_are_what_the_owning_crates_write() {
    let name = x509_cert::name::Name::from_str("CN=Test").unwrap();
    assert_eq!(name.to_der().unwrap(), NAME.to_vec());
    let serial: x509_cert::serial_number::SerialNumber =
        x509_cert::serial_number::SerialNumber::new(&[0x12, 0x34]).unwrap();
    assert_eq!(serial.to_der().unwrap(), SERIAL.to_vec());
    let sha256 = spki::AlgorithmIdentifierRef::from_der(&SHA256).unwrap();
    assert_eq!(sha256.oid.to_string(), "2.16.840.1.101.3.4.2.1");
    let rsa = spki::AlgorithmIdentifierRef::from_der(&RSA).unwrap();
    assert_eq!(rsa.oid.to_string(), "1.2.840.113549.1.1.1");
    let attribute = x509_cert::attr::Attribute::from_der(&CONTENT_TYPE).unwrap();
    assert_eq!(attribute.oid.to_string(), "1.2.840.113549.1.9.3");
    assert_eq!(attribute.values.len(), 1);
    assert_eq!(attribute.to_der().unwrap(), CONTENT_TYPE.to_vec());
}

#[test]
fn names_of_the_owning_crate_are_accepted() {
    for text in ["CN=a", "CN=Example CA,O=Example,C=US"] {
        let der = x509_cert::name::Name::from_str(text).unwrap().to_der().unwrap();
        let name = Name::from_der(&der).unwrap();
        assert_eq!(name.as_bytes(), &der[..]);
    }
}

#[test]
fn element_frames_are_checked() {
    assert_eq!(Name::from_der(&[]), Err(DecodeError::MissingField));
    assert_eq!(Name::from_der(&[0x31, 0x00]), Err(DecodeError::TagMismatch));
    assert_eq!(Name::from_der(&[0x30, 0x05]), Err(DecodeError::LengthMismatch));
    let mut long = NAME.to_vec();
    long.push(0x00);
    assert_eq!(Name::from_der(&long), Err(DecodeError::TrailingData));

    assert_eq!(SerialNumber::from_der(&[0x30, 0x00]), Err(DecodeError::TagMismatch));
    assert_eq!(SerialNumber::from_der(&[0x02, 0x02, 0x01]), Err(DecodeError::LengthMismatch));
    assert_eq!(SerialNumber::from_der(&[0x02, 0x01, 0x01, 0x01]), Err(DecodeError::TrailingData));

    assert_eq!(AlgorithmIdentifier::from_der(&[0x04, 0x00]), Err(DecodeError::TagMismatch));
    assert_eq!(Attribute::from_der(&[0x31, 0x00]), Err(DecodeError::TagMismatch));
}

#[test]
fn contents_are_left_to_the_owning_crate() {
    // a name whose first member is an INTEGER
    assert_eq!(Name::from_der(&[0x30, 0x03, 0x02, 0x01, 0x01]), Err(DecodeError::MalformedElement));
    // an empty name is a name
    assert!(Name::from_der(&[0x30, 0x00]).is_ok());
    // an INTEGER without contents
    assert_eq!(SerialNumber::from_der(&[0x02, 0x00]), Err(DecodeError::MalformedElement));
    // an INTEGER with a needless leading zero
    assert_eq!(
        SerialNumber::from_der(&[0x02, 0x02, 0x00, 0x01]),
        Err(DecodeError::MalformedElement)
    );
    // a serial number of 22 octets
    let mut serial = vec![0x02, 0x16];
    serial.extend_from_slice(&[0x01; 22]);
    assert_eq!(SerialNumber::from_der(&serial), Err(DecodeError::MalformedElement));
    // twenty octets are fine
    let mut serial = vec![0x02, 0x14];
    serial.extend_from_slice(&[0x01; 20]);
    assert!(SerialNumber::from_der(&serial).is_ok());
    // an algorithm identifier without an object identifier
    assert_eq!(AlgorithmIdentifier::from_der(&[0x30, 0x00]), Err(DecodeError::MalformedElement));
    // parameters are optional
    assert!(AlgorithmIdentifier::from_der(&SHA256[..13]
        .iter()
        .enumerate()
        .map(|(i, b)| if i == 1 { 0x0b } else { *b })
        .collect::<Vec<u8>>())
    .is_ok());
    // an attribute without its set of values
    assert_eq!(
        Attribute::from_der(&[0x30, 0x05, 0x06, 0x03, 0x55, 0x04, 0x03]),
        Err(DecodeError::MalformedElement)
    );
}

#[test]
fn library_and_owning_crate_agree_on_samples() {
    let cases: [(&[u8], bool); 6] = [
        (&NAME, true),
        (&[0x30, 0x00], true),
        (&[0x30, 0x03, 0x02, 0x01, 0x01], false),
        (&[0x30, 0x02, 0x31, 0x00], true),
        (&[0x30, 0x04, 0x31, 0x02, 0x30, 0x00], false),
        (&[0x30, 0x02, 0x05, 0x00], false),
    ];
    for (der, expected) in cases {
        assert_eq!(x509_cert::name::Name::from_der(der).is_ok(), expected);
        assert_eq!(Name::from_der(der).is_ok(), expected);
    }
}

#[test]
fn parse_leaves_what_follows() {
    let mut bytes = SERIAL.to_vec();
    bytes.extend_from_slice(&NAME);
    let (serial, used) = SerialNumber::parse(&bytes).unwrap();
    assert_eq!(serial.as_bytes(), &SERIAL[..]);
    assert_eq!(used, 4);
    let (name, used) = Name::parse(&bytes[4..]).unwrap();
    assert_eq!(name.as_bytes(), &NAME[..]);
    assert_eq!(used, 17);
    let followed = [&SHA256[..], &[0xff][..]].concat();
    let (algorithm, used) = AlgorithmIdentifier::parse(&followed).unwrap();
    assert_eq!(algorithm.as_bytes(), &SHA256[..]);
    assert_eq!(used, 15);
    let two = [&SIGNING_TIME[..], &CONTENT_TYPE[..]].concat();
    let (attribute, used) = Attribute::parse(&two).unwrap();
    assert_eq!(attribute.as_bytes(), &SIGNING_TIME[..]);
    assert_eq!(used, 30);
    assert_eq!(Name::parse(&bytes), Err(DecodeError::TagMismatch));
    // an attribute is framed like a name, but the owner of names does not take it
    assert_eq!(Name::parse(&two), Err(DecodeError::MalformedElement));
}

#[test]
fn kinds_have_their_tags() {
    assert_eq!(ElementKind::Name.tag(), 0x30);
    assert_eq!(ElementKind::SerialNumber.tag(), 0x02);
    assert_eq!(ElementKind::AlgorithmIdentifier.tag(), 0x30);
    assert_eq!(ElementKind::Attribute.tag(), 0x30);
}

#[test]
fn judged_elements() {
    assert_eq!(judged(&[0x30, 0x00], true), Ok((vec![0x30, 0x00], 2)));
    assert_eq!(judged(&[0x30, 0x00], false), Err(DecodeError::MalformedElement));
    assert_eq!(judged(&[], true), Ok((vec![], 0)));
}
