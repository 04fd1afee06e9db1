use pkcs7::error::{DecodeError, EncodeError};
use pkcs7::length::MAX_LENGTH;
use pkcs7::tlv::{append_slice, read_frame, read_octet_string, write_tlv};

fn header(len: usize) -> Vec<u8> {
    let content = vec![0x11u8; len];
    let der = write_tlv(0x04, &content).unwrap();
    assert_eq!(der.len() >= len, true);
    assert_eq!(der[der.len() - len..], content[..]);
    der[..der.len() - len].to_vec()
}

#[test]
fn short_form_lengths() {
    assert_eq!(write_tlv(0x04, &[]).unwrap(), vec![0x04, 0x00]);
    assert_eq!(write_tlv(0x30, &[0xab]).unwrap(), vec![0x30, 0x01, 0xab]);
    assert_eq!(header(0x7f), vec![0x04, 0x7f]);
}

#[test]
fn long_form_lengths_are_minimal() {
    assert_eq!(header(0x80), vec![0x04, 0x81, 0x80]);
    assert_eq!(header(0xff), vec![0x04, 0x81, 0xff]);
    assert_eq!(header(0x100), vec![0x04, 0x82, 0x01, 0x00]);
    assert_eq!(header(0x1234), vec![0x04, 0x82, 0x12, 0x34]);
    assert_eq!(header(0xffff), vec![0x04, 0x82, 0xff, 0xff]);
    assert_eq!(header(0x1_0000), vec![0x04, 0x83, 0x01, 0x00, 0x00]);
    assert_eq!(header(0x01_e2_40), vec![0x04, 0x83, 0x01, 0xe2, 0x40]);
    assert_eq!(header(0xff_ffff), vec![0x04, 0x83, 0xff, 0xff, 0xff]);
    assert_eq!(header(0x100_0000), vec![0x04, 0x84, 0x01, 0x00, 0x00, 0x00]);
}

#[test]
fn contents_longer_than_the_limit_are_refused() {
    assert_eq!(MAX_LENGTH, 0x0fff_ffff);
    let content = vec![0u8; MAX_LENGTH as usize + 1];
    assert_eq!(write_tlv(0x04, &content), Err(EncodeError::Overflow));
}

#[test]
fn frames_are_read_back() {
    for len in [0usize, 1, 0x7f, 0x80, 0xff, 0x100, 0xffff, 0x1_0000] {
        let mut der = write_tlv(0x30, &vec![0x22u8; len]).unwrap();
        let total = der.len();
        der.extend_from_slice(&[0xde, 0xad]);
        let (start, end) = read_frame(&der, 0x30).unwrap();
        assert_eq!(end, total);
        assert_eq!(end - start, len);
        assert_eq!(der[start..end], vec![0x22u8; len][..]);
    }
    assert_eq!(read_frame(&[0x04, 0x82, 0x01, 0x00], 0x04), Err(DecodeError::LengthMismatch));
    let mut der = vec![0x04, 0x82, 0x01, 0x00];
    der.extend_from_slice(&[0u8; 256]);
    assert_eq!(read_frame(&der, 0x04), Ok((4, 260)));
}

#[test]
fn frame_errors() {
    assert_eq!(read_frame(&[], 0x30), Err(DecodeError::MissingField));
    assert_eq!(read_frame(&[0x31, 0x00], 0x30), Err(DecodeError::TagMismatch));
    assert_eq!(read_frame(&[0x30], 0x30), Err(DecodeError::LengthMismatch));
    assert_eq!(read_frame(&[0x30, 0x01], 0x30), Err(DecodeError::LengthMismatch));
    assert_eq!(read_frame(&[0x30, 0x00], 0x30), Ok((2, 2)));
}

#[test]
fn length_octets_must_be_der() {
    // indefinite form
    assert_eq!(read_frame(&[0x30, 0x80, 0x00, 0x00], 0x30), Err(DecodeError::LengthMismatch));
    // long form for a length below 0x80
    assert_eq!(read_frame(&[0x30, 0x81, 0x7f], 0x30), Err(DecodeError::LengthMismatch));
    assert_eq!(read_frame(&[0x30, 0x81, 0x00], 0x30), Err(DecodeError::LengthMismatch));
    // leading zero octets
    let mut der = vec![0x30, 0x82, 0x00, 0x80];
    der.extend_from_slice(&[0u8; 0x80]);
    assert_eq!(read_frame(&der, 0x30), Err(DecodeError::LengthMismatch));
    let mut der = vec![0x30, 0x83, 0x00, 0x01, 0x00];
    der.extend_from_slice(&[0u8; 0x100]);
    assert_eq!(read_frame(&der, 0x30), Err(DecodeError::LengthMismatch));
    let mut der = vec![0x30, 0x84, 0x00, 0x01, 0x00, 0x00];
    der.extend_from_slice(&[0u8; 0x1_0000]);
    assert_eq!(read_frame(&der, 0x30), Err(DecodeError::LengthMismatch));
    // the same lengths in minimal form are fine
    let mut der = vec![0x30, 0x81, 0x80];
    der.extend_from_slice(&[0u8; 0x80]);
    assert_eq!(read_frame(&der, 0x30), Ok((3, 0x83)));
    // more than four length octets, and the reserved octet
    assert_eq!(
        read_frame(&[0x30, 0x85, 0x00, 0x00, 0x00, 0x00, 0x00], 0x30),
        Err(DecodeError::LengthMismatch)
    );
    assert_eq!(read_frame(&[0x30, 0xff, 0x00], 0x30), Err(DecodeError::LengthMismatch));
    // cut off inside the length octets
    assert_eq!(read_frame(&[0x30, 0x82, 0x01], 0x30), Err(DecodeError::LengthMismatch));
    assert_eq!(read_frame(&[0x30, 0x84, 0x01, 0x00, 0x00], 0x30), Err(DecodeError::LengthMismatch));
}

#[test]
fn lengths_above_the_limit_are_refused() {
    assert_eq!(
        read_frame(&[0x30, 0x84, 0x10, 0x00, 0x00, 0x00], 0x30),
        Err(DecodeError::LengthMismatch)
    );
    assert_eq!(
        read_frame(&[0x30, 0x84, 0xff, 0xff, 0xff, 0xff], 0x30),
        Err(DecodeError::LengthMismatch)
    );
    // the largest length is well formed, but the contents are not there
    assert_eq!(
        read_frame(&[0x30, 0x84, 0x0f, 0xff, 0xff, 0xff], 0x30),
        Err(DecodeError::LengthMismatch)
    );
}

#[test]
fn octet_strings_are_read_with_their_length() {
    assert_eq!(read_octet_string(&[0x04, 0x02, 0xca, 0xfe, 0x99]), Ok((vec![0xca, 0xfe], 4)));
    assert_eq!(read_octet_string(&[0x04, 0x00]), Ok((vec![], 2)));
    assert_eq!(read_octet_string(&[0x24, 0x00]), Err(DecodeError::TagMismatch));
    assert_eq!(read_octet_string(&[]), Err(DecodeError::MissingField));
}

#[test]
fn append_slice_appends() {
    let mut out = vec![1u8, 2];
    append_slice(&mut out, &[3, 4, 5]);
    append_slice(&mut out, &[]);
    assert_eq!(out, vec![1, 2, 3, 4, 5]);
}

// The length octets of `n` as X.690 prescribes them for DER.
fn model_octets(n: usize) -> Vec<u8> {
    if n < 0x80 {
        vec![n as u8]
    } else if n < 0x100 {
        vec![0x81, n as u8]
    } else if n < 0x1_0000 {
        vec![0x82, (n >> 8) as u8, n as u8]
    } else if n < 0x100_0000 {
        vec![0x83, (n >> 16) as u8, (n >> 8) as u8, n as u8]
    } else {
        vec![0x84, (n >> 24) as u8, (n >> 16) as u8, (n >> 8) as u8, n as u8]
    }
}

// What DER length octets at the front of `b` mean, if they are well formed.
fn model_length(b: &[u8]) -> Option<(usize, usize)> {
    let first = *b.first()?;
    if first < 0x80 {
        return Some((first as usize, 1));
    }
    if !(0x81..=0x84).contains(&first) {
        return None;
    }
    let width = (first - 0x80) as usize;
    let body = b.get(1..1 + width)?;
    let n = body.iter().fold(0usize, |n, byte| n * 256 + *byte as usize);
    if n > 0x0fff_ffff || model_octets(n) != b[..1 + width] {
        return None;
    }
    Some((n, 1 + width))
}

#[test]
fn written_lengths_agree_with_the_model() {
    let mut lengths: Vec<usize> = (0..0x400).collect();
    lengths.extend((0x400..0x1_0200).step_by(0x1f3));
    lengths.extend([0xfffe, 0xffff, 0x1_0000, 0x1_0001, 0x12_3456]);
    for n in lengths {
        let der = write_tlv(0x31, &vec![0u8; n]).unwrap();
        let octets = model_octets(n);
        assert_eq!(der.len(), 1 + octets.len() + n);
        assert_eq!(der[0], 0x31);
        assert_eq!(der[1..1 + octets.len()], octets[..]);
        assert_eq!(read_frame(&der, 0x31), Ok((1 + octets.len(), der.len())));
    }
}

#[test]
fn read_lengths_agree_with_the_model() {
    let samples = [0x00u8, 0x01, 0x0f, 0x10, 0x7f, 0x80, 0xff];
    let mut cases: Vec<Vec<u8>> = vec![vec![]];
    for first in 0..=255u8 {
        cases.push(vec![first]);
        for a in samples {
            cases.push(vec![first, a]);
            for b in samples {
                cases.push(vec![first, a, b]);
                for c in [0x00u8, 0x01, 0xff] {
                    cases.push(vec![first, a, b, c]);
                    cases.push(vec![first, a, b, c, 0x00]);
                    cases.push(vec![first, a, b, c, 0xff, 0x00]);
                }
            }
        }
    }
    for octets in cases {
        // with nothing behind the length octets
        let mut der = vec![0x04];
        der.extend_from_slice(&octets);
        let expected = match model_length(&octets) {
            Some((n, used)) if 1 + used + n <= der.len() => Ok((1 + used, 1 + used + n)),
            _ => Err(DecodeError::LengthMismatch),
        };
        assert_eq!(read_frame(&der, 0x04), expected, "{octets:02x?}");

        // with the contents that the length octets announce, where that is not much
        if let Some((n, used)) = model_length(&octets) {
            if n <= 0x1_0000 {
                let mut der = vec![0x04];
                der.extend_from_slice(&octets[..used]);
                der.extend_from_slice(&vec![0xaa; n]);
                der.extend_from_slice(&[0x01, 0x02, 0x03]);
                assert_eq!(read_frame(&der, 0x04), Ok((1 + used, 1 + used + n)), "{octets:02x?}");
            }
        }
    }
}
