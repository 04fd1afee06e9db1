use pkcs7::cms_version::CmsVersion;
use pkcs7::element::Attribute;
use pkcs7::error::DecodeError;
use pkcs7::set_of::SetOfVec;

const CONTENT_TYPE: [u8; 26] = [
    0x30, 0x18, 0x06, 0x09, 0x2a, 0x86, 0x48, 0x86, 0xf7, 0x0d, 0x01, 0x09, 0x03, 0x31, 0x0b, 0x06,
    0x09, 0x2a, 0x86, 0x48, 0x86, 0xf7, 0x0d, 0x01, 0x07, 0x01,
];
const SIGNING_TIME: [u8; 30] = [
    0x30, 0x1c, 0x06, 0x09, 0x2a, 0x86, 0x48, 0x86, 0xf7, 0x0d, 0x01, 0x09, 0x05, 0x31, 0x0f, 0x17,
    0x0d, 0x32, 0x35, 0x30, 0x31, 0x30, 0x31, 0x30, 0x30, 0x30, 0x30, 0x30, 0x30, 0x5a,
];

#[test]
fn collection_keeps_insertion_order() {
    let later = Attribute::from_der(&SIGNING_TIME).unwrap();
    let earlier = Attribute::from_der(&CONTENT_TYPE).unwrap();
    let mut set = SetOfVec::new();
    assert!(set.is_empty());
    assert_eq!(set.len(), 0);
    assert_eq!(set.get(0), None);
    set.insert(later.clone());
    set.insert(earlier.clone());
    set.insert(later.clone());
    assert!(!set.is_empty());
    assert_eq!(set.len(), 3);
    assert_eq!(set.get(0), Some(&later));
    assert_eq!(set.get(1), Some(&earlier));
    assert_eq!(set.get(2), Some(&later));
    assert_eq!(set.get(3), None);
    assert_eq!(set.as_slice(), &[later.clone(), earlier.clone(), later.clone()][..]);
    assert_eq!(
        set.encodings(),
        vec![SIGNING_TIME.to_vec(), CONTENT_TYPE.to_vec(), SIGNING_TIME.to_vec()]
    );
    assert_eq!(set.into_vec(), vec![later.clone(), earlier, later]);
}

#[test]
fn collection_from_a_vector() {
    let set = SetOfVec::from_vec(vec![CmsVersion::V2, CmsVersion::V0]);
    assert_eq!(set.len(), 2);
    assert_eq!(set.as_slice(), &[CmsVersion::V2, CmsVersion::V0][..]);
    assert_eq!(SetOfVec::<CmsVersion>::from_vec(Vec::new()).len(), 0);
}

#[test]
fn sized_collection_refuses_nothing_but_the_empty_vector() {
    assert_eq!(
        SetOfVec::<CmsVersion>::non_empty(Vec::new()),
        Err(DecodeError::EmptyOptionalCollection)
    );
    let set = SetOfVec::non_empty(vec![CmsVersion::V1]).unwrap();
    assert_eq!(set.as_slice(), &[CmsVersion::V1][..]);
    let set = SetOfVec::non_empty(vec![CmsVersion::V1, CmsVersion::V1]).unwrap();
    assert_eq!(set.len(), 2);
}
