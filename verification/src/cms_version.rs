//! The syntax version number carried by CMS structures (RFC 5652, section 10.2.5).

use crate::error::{parsed_as, DecodeError};
use crate::tlv::{frame, lemma_frame_canonical, lemma_frame_tlv, read_frame, tlv, TAG_INTEGER};
use vstd::prelude::*;

verus! {

/// `CMSVersion ::= INTEGER { v0(0), v1(1), v2(2), v3(3), v4(4), v5(5) }`.
///
/// Which version a structure must carry depends on what it holds; choosing it is
/// left to the caller.
#[derive(Clone, Copy, Debug, PartialEq, Eq)]
pub enum CmsVersion {
    /// Version 0.
    V0,
    /// Version 1.
    V1,
    /// Version 2.
    V2,
    /// Version 3.
    V3,
    /// Version 4.
    V4,
    /// Version 5.
    V5,
}

impl View for CmsVersion {
    type V = CmsVersion;

    open spec fn view(&self) -> CmsVersion {
        *self
    }
}

impl CmsVersion {
    /// The number of the version.
    pub open spec fn spec_value(self) -> u8 {
        match self {
            CmsVersion::V0 => 0,
            CmsVersion::V1 => 1,
            CmsVersion::V2 => 2,
            CmsVersion::V3 => 3,
            CmsVersion::V4 => 4,
            CmsVersion::V5 => 5,
        }
    }

    /// The version with number `value`, if there is one.
    pub open spec fn spec_from_value(value: u8) -> Option<CmsVersion> {
        if value == 0 {
            Some(CmsVersion::V0)
        } else if value == 1 {
            Some(CmsVersion::V1)
        } else if value == 2 {
            Some(CmsVersion::V2)
        } else if value == 3 {
            Some(CmsVersion::V3)
        } else if value == 4 {
            Some(CmsVersion::V4)
        } else if value == 5 {
            Some(CmsVersion::V5)
        } else {
            None
        }
    }

    /// The number of the version.
    pub fn value(self) -> (r: u8)
        ensures
            r == self.spec_value(),
    {
        match self {
            CmsVersion::V0 => 0,
            CmsVersion::V1 => 1,
            CmsVersion::V2 => 2,
            CmsVersion::V3 => 3,
            CmsVersion::V4 => 4,
            CmsVersion::V5 => 5,
        }
    }

    /// The version with number `value`, if there is one.
    pub fn from_value(value: u8) -> (r: Option<CmsVersion>)
        ensures
            r == CmsVersion::spec_from_value(value),
    {
        match value {
            0 => Some(CmsVersion::V0),
            1 => Some(CmsVersion::V1),
            2 => Some(CmsVersion::V2),
            3 => Some(CmsVersion::V3),
            4 => Some(CmsVersion::V4),
            5 => Some(CmsVersion::V5),
            _ => None,
        }
    }

    /// The three bytes of the version as a DER INTEGER.
    pub fn to_der(self) -> (r: Vec<u8>)
        ensures
            r@ == encode_version(self),
    {
        let mut out: Vec<u8> = Vec::new();
        out.push(TAG_INTEGER);
        out.push(1);
        out.push(self.value());
        assert(out@ =~= encode_version(self));
        out
    }

    /// Reads a version from the front of `b`; the second component is the number of
    /// bytes it takes.
    pub fn parse(b: &[u8]) -> (r: Result<(CmsVersion, usize), DecodeError>)
        ensures
            parsed_as(r, parse_version(b@)),
    {
        match read_frame(b, TAG_INTEGER) {
            Err(e) => Err(e),
            Ok((start, end)) => {
                if end - start != 1 {
                    return Err(DecodeError::MalformedElement);
                }
                match CmsVersion::from_value(b[start]) {
                    None => Err(DecodeError::MalformedElement),
                    Some(version) => Ok((version, end)),
                }
            },
        }
    }
}

/// The encoding of a version: an INTEGER of one content octet.
pub open spec fn encode_version(version: CmsVersion) -> Seq<u8> {
    tlv(TAG_INTEGER, seq![version.spec_value()])
}

/// Reads a version from the front of `b`. An INTEGER that is not a single octet
/// between 0 and 5 is a malformed element.
pub open spec fn parse_version(b: Seq<u8>) -> Result<(CmsVersion, nat), DecodeError> {
    match frame(b, TAG_INTEGER) {
        Err(e) => Err(e),
        Ok((start, end)) => if end - start == 1 {
            match CmsVersion::spec_from_value(b[start as int]) {
                Some(version) => Ok((version, end)),
                None => Err(DecodeError::MalformedElement),
            }
        } else {
            Err(DecodeError::MalformedElement)
        },
    }
}

/// A version is read back from its encoding, whatever follows it.
pub proof fn lemma_parse_version_round_trip(version: CmsVersion, rest: Seq<u8>)
    ensures
        encode_version(version).len() == 3,
        parse_version(encode_version(version) + rest) == Ok::<(CmsVersion, nat), DecodeError>(
            (version, 3),
        ),
{
    let content = seq![version.spec_value()];
    lemma_frame_tlv(TAG_INTEGER, content, rest);
    let b = encode_version(version) + rest;
    assert(b.subrange(2, 3) == content);
    assert(b[2] == b.subrange(2, 3)[0]);
}

/// What is read as a version is the encoding of that version at the front of the input.
pub proof fn lemma_parse_version_sound(b: Seq<u8>)
    requires
        parse_version(b) is Ok,
    ensures
        ({
            let (version, used) = parse_version(b)->Ok_0;
            &&& used == 3
            &&& used <= b.len()
            &&& b.subrange(0, 3) == encode_version(version)
        }),
{
    let (version, used) = parse_version(b)->Ok_0;
    lemma_frame_canonical(b, TAG_INTEGER);
    let (start, end) = frame(b, TAG_INTEGER)->Ok_0;
    assert(b.subrange(start as int, end as int) =~= seq![version.spec_value()]);
    lemma_frame_tlv(TAG_INTEGER, seq![version.spec_value()], Seq::empty());
}

} // verus!
