//! `SignerInfo`: the per-signer record of a signed-data message (RFC 5652, section 5.3).
//!
//! ```text
//! SignerInfo ::= SEQUENCE {
//!     version CMSVersion,
//!     sid SignerIdentifier,
//!     digestAlgorithm DigestAlgorithmIdentifier,
//!     signedAttrs [0] IMPLICIT SignedAttributes OPTIONAL,
//!     signatureAlgorithm SignatureAlgorithmIdentifier,
//!     signature SignatureValue,
//!     unsignedAttrs [1] IMPLICIT UnsignedAttributes OPTIONAL }
//!
//! SignedAttributes ::= SET SIZE (1..MAX) OF Attribute
//! UnsignedAttributes ::= SET SIZE (1..MAX) OF Attribute
//! SignatureValue ::= OCTET STRING
//! ```

use crate::cms_version::{encode_version, parse_version, CmsVersion};
use crate::element::{
    is_element, lemma_parse_element_sound, parse_element, AlgorithmIdentifier, Attribute,
    ElementKind,
};
use crate::error::{decoded_as, parsed_as, DecodeError, EncodeError};
use crate::length::MAX_LENGTH;
use crate::order::lex_order;
use crate::set_of::{
    canonical_attributes, optional_view, parse_optional_attributes,
    serialize_optional_attributes, wf_optional_attributes, SetOfVec,
};
use crate::signer_identifier::{
    parse_signer_identifier, serialize_signer_identifier, SignerIdentifier,
    SignerIdentifierView,
};
use crate::theorems::{
    lemma_decode_encode, lemma_decode_exactly_serialized, lemma_fits_canonical,
};
use crate::tlv::{
    append_slice, frame, lemma_frame_canonical, parse_octet_string, read_frame,
    read_octet_string, tlv, write_tlv, TAG_CONTEXT_0, TAG_CONTEXT_1, TAG_INTEGER,
    TAG_OCTET_STRING, TAG_SEQUENCE,
};
use vstd::prelude::*;
use vstd::relations::sorted_by;
use vstd::slice::slice_subrange;

verus! {

/// `DigestAlgorithmIdentifier ::= AlgorithmIdentifier`
pub type DigestAlgorithmIdentifier = AlgorithmIdentifier;

/// `SignatureAlgorithmIdentifier ::= AlgorithmIdentifier`
pub type SignatureAlgorithmIdentifier = AlgorithmIdentifier;

/// `SignedAttributes ::= SET SIZE (1..MAX) OF Attribute`
pub type SignedAttributes = SetOfVec<Attribute>;

/// `UnsignedAttributes ::= SET SIZE (1..MAX) OF Attribute`
pub type UnsignedAttributes = SetOfVec<Attribute>;

/// The record that one signer adds to a signed-data message.
#[derive(Clone, Debug, PartialEq, Eq)]
pub struct SignerInfo {
    /// The syntax version number.
    pub version: CmsVersion,
    /// The signer identifier.
    pub sid: SignerIdentifier,
    /// The message digest algorithm.
    pub digest_algorithm: DigestAlgorithmIdentifier,
    /// The signed attributes; where present, at least one.
    pub signed_attributes: Option<SignedAttributes>,
    /// The signature algorithm.
    pub signature_algorithm: SignatureAlgorithmIdentifier,
    /// The signature value, which is never interpreted here.
    pub signature: Vec<u8>,
    /// The unsigned attributes; where present, at least one.
    pub unsigned_attributes: Option<UnsignedAttributes>,
}

/// What a `SignerInfo` stands for: its fields, with every opaque element as its
/// encoding and every attribute set as the sequence of its elements' encodings.
pub struct SignerInfoView {
    /// The syntax version number.
    pub version: CmsVersion,
    /// The signer identifier.
    pub sid: SignerIdentifierView,
    /// The encoding of the message digest algorithm.
    pub digest_algorithm: Seq<u8>,
    /// The encodings of the signed attributes, in stored order.
    pub signed_attributes: Option<Seq<Seq<u8>>>,
    /// The encoding of the signature algorithm.
    pub signature_algorithm: Seq<u8>,
    /// The signature value.
    pub signature: Seq<u8>,
    /// The encodings of the unsigned attributes, in stored order.
    pub unsigned_attributes: Option<Seq<Seq<u8>>>,
}

impl View for SignerInfo {
    type V = SignerInfoView;

    open spec fn view(&self) -> SignerInfoView {
        SignerInfoView {
            version: self.version,
            sid: self.sid@,
            digest_algorithm: self.digest_algorithm@,
            signed_attributes: optional_view(self.signed_attributes),
            signature_algorithm: self.signature_algorithm@,
            signature: self.signature@,
            unsigned_attributes: optional_view(self.unsigned_attributes),
        }
    }
}

impl SignerInfoView {
    /// Every opaque element is an encoding of its type, and an attribute set that is
    /// present holds at least one element.
    pub open spec fn wf(self) -> bool {
        &&& self.sid.wf()
        &&& is_element(ElementKind::AlgorithmIdentifier, self.digest_algorithm)
        &&& wf_optional_attributes(self.signed_attributes)
        &&& is_element(ElementKind::AlgorithmIdentifier, self.signature_algorithm)
        &&& wf_optional_attributes(self.unsigned_attributes)
    }

    /// The same record with both attribute sets in canonical order.
    pub open spec fn canonical(self) -> SignerInfoView {
        SignerInfoView {
            signed_attributes: canonical_attributes(self.signed_attributes),
            unsigned_attributes: canonical_attributes(self.unsigned_attributes),
            ..self
        }
    }

    /// Both attribute sets, where present, are stored in canonical order.
    pub open spec fn is_canonical(self) -> bool {
        &&& self.signed_attributes matches Some(a) ==> sorted_by(a, lex_order())
        &&& self.unsigned_attributes matches Some(a) ==> sorted_by(a, lex_order())
    }

    /// An attribute set is present but holds no element.
    pub open spec fn has_empty_set(self) -> bool {
        ||| self.signed_attributes matches Some(a) && a.len() == 0
        ||| self.unsigned_attributes matches Some(a) && a.len() == 0
    }

    /// Why the record cannot be encoded, if it cannot: an empty attribute set comes
    /// before a length that does not fit.
    pub open spec fn encode_error(self) -> Option<EncodeError> {
        if self.has_empty_set() {
            Some(EncodeError::EmptyOptionalCollection)
        } else if !self.fits() {
            Some(EncodeError::Overflow)
        } else {
            None
        }
    }

    /// The fields of the record together are at most `MAX_LENGTH` bytes, so that every
    /// frame of the encoding can be written. The order of the attributes does not
    /// matter for that.
    pub open spec fn fits(self) -> bool {
        serialize_signer_info_content(self).len() <= MAX_LENGTH
    }
}

/// The fields of a `SignerInfo` one after the other, attribute sets in stored order.
pub open spec fn serialize_signer_info_content(v: SignerInfoView) -> Seq<u8> {
    encode_version(v.version) + serialize_signer_identifier(v.sid) + v.digest_algorithm
        + serialize_optional_attributes(TAG_CONTEXT_0, v.signed_attributes)
        + v.signature_algorithm + tlv(TAG_OCTET_STRING, v.signature)
        + serialize_optional_attributes(TAG_CONTEXT_1, v.unsigned_attributes)
}

/// The bytes of a `SignerInfo` with its attribute sets in stored order. This is what
/// the decoder accepts, since it does not check the order of a set.
pub open spec fn serialize_signer_info(v: SignerInfoView) -> Seq<u8> {
    tlv(TAG_SEQUENCE, serialize_signer_info_content(v))
}

/// The DER encoding of a `SignerInfo`: its bytes with both attribute sets in
/// canonical order.
pub open spec fn encode_signer_info(v: SignerInfoView) -> Seq<u8> {
    serialize_signer_info(v.canonical())
}

/// Reads the fields of a `SignerInfo` from `c`, which they must fill exactly.
///
/// Each field is read where the one before it ended. An attribute set is present
/// exactly when the next identifier octet is its tag, `[0]` for the signed and `[1]`
/// for the unsigned attributes; the position does not move where it is absent.
#[verifier::opaque]
pub open spec fn parse_signer_info_content(c: Seq<u8>) -> Result<SignerInfoView, DecodeError> {
    match parse_version(c) {
        Err(e) => Err(e),
        Ok((version, n1)) => {
            let c1 = c.skip(n1 as int);
            match parse_signer_identifier(c1) {
                Err(e) => Err(e),
                Ok((sid, n2)) => {
                    let c2 = c1.skip(n2 as int);
                    match parse_element(c2, ElementKind::AlgorithmIdentifier) {
                        Err(e) => Err(e),
                        Ok((digest_algorithm, n3)) => {
                            let c3 = c2.skip(n3 as int);
                            match parse_optional_attributes(c3, TAG_CONTEXT_0) {
                                Err(e) => Err(e),
                                Ok((signed_attributes, n4)) => match parse_signer_info_tail(
                                    c3.skip(n4 as int),
                                ) {
                                    Err(e) => Err(e),
                                    Ok((signature_algorithm, signature, unsigned_attributes)) => Ok(
                                        SignerInfoView {
                                            version,
                                            sid,
                                            digest_algorithm,
                                            signed_attributes,
                                            signature_algorithm,
                                            signature,
                                            unsigned_attributes,
                                        },
                                    ),
                                },
                            }
                        },
                    }
                },
            }
        },
    }
}

/// Reads the last three fields of a `SignerInfo` from `c`, which they must fill
/// exactly: the signature algorithm, the signature, and the unsigned attributes if
/// there are any.
#[verifier::opaque]
pub open spec fn parse_signer_info_tail(c: Seq<u8>) -> Result<
    (Seq<u8>, Seq<u8>, Option<Seq<Seq<u8>>>),
    DecodeError,
> {
    match parse_element(c, ElementKind::AlgorithmIdentifier) {
        Err(e) => Err(e),
        Ok((signature_algorithm, n1)) => {
            let c1 = c.skip(n1 as int);
            match parse_octet_string(c1) {
                Err(e) => Err(e),
                Ok((signature, n2)) => {
                    let c2 = c1.skip(n2 as int);
                    match parse_optional_attributes(c2, TAG_CONTEXT_1) {
                        Err(e) => Err(e),
                        Ok((unsigned_attributes, n3)) => if n3 != c2.len() {
                            Err(DecodeError::LengthMismatch)
                        } else {
                            Ok((signature_algorithm, signature, unsigned_attributes))
                        },
                    }
                },
            }
        },
    }
}

/// Reads a `SignerInfo` from the front of `b`: the record and the number of bytes it
/// takes.
pub open spec fn parse_signer_info(b: Seq<u8>) -> Result<(SignerInfoView, nat), DecodeError> {
    match frame(b, TAG_SEQUENCE) {
        Err(e) => Err(e),
        Ok((start, end)) => match parse_signer_info_content(b.subrange(start as int, end as int)) {
            Err(e) => Err(e),
            Ok(v) => Ok((v, end)),
        },
    }
}

/// Decodes `b` as one `SignerInfo` and nothing more.
///
/// The bytes are read from front to back, and the first thing that is wrong decides
/// the error: `MissingField` where a mandatory field must start and nothing is left,
/// `TagMismatch` where it starts with another tag, `LengthMismatch` where length
/// octets are not DER, a length runs past what is there, or the fields do not fill
/// the record, `EmptyOptionalCollection` for an attribute set without elements,
/// `MalformedElement` where the contents of a field are no value of its type, and
/// `TrailingData` where bytes follow the record.
pub open spec fn decode_signer_info(b: Seq<u8>) -> Result<SignerInfoView, DecodeError> {
    match parse_signer_info(b) {
        Err(e) => Err(e),
        Ok((v, used)) => if used == b.len() {
            Ok(v)
        } else {
            Err(DecodeError::TrailingData)
        },
    }
}

impl SignerInfo {
    /// Every opaque element is an encoding of its type, and an attribute set that is
    /// present holds at least one element.
    pub open spec fn wf(&self) -> bool {
        self@.wf()
    }

    /// Puts a record together from its fields. An attribute set that is present but
    /// empty is refused, and nothing else is.
    pub fn new(
        version: CmsVersion,
        sid: SignerIdentifier,
        digest_algorithm: DigestAlgorithmIdentifier,
        signed_attributes: Option<SignedAttributes>,
        signature_algorithm: SignatureAlgorithmIdentifier,
        signature: Vec<u8>,
        unsigned_attributes: Option<UnsignedAttributes>,
    ) -> (r: Result<SignerInfo, DecodeError>)
        ensures
            r is Ok <==> !(signed_attributes matches Some(s) && s@.len() == 0) && !(
            unsigned_attributes matches Some(s) && s@.len() == 0),
            r matches Ok(v) ==> v == (SignerInfo {
                version,
                sid,
                digest_algorithm,
                signed_attributes,
                signature_algorithm,
                signature,
                unsigned_attributes,
            }),
            r matches Err(e) ==> e == DecodeError::EmptyOptionalCollection,
    {
        let signed_empty = match &signed_attributes {
            Some(set) => set.is_empty(),
            None => false,
        };
        let unsigned_empty = match &unsigned_attributes {
            Some(set) => set.is_empty(),
            None => false,
        };
        if signed_empty || unsigned_empty {
            Err(DecodeError::EmptyOptionalCollection)
        } else {
            Ok(
                SignerInfo {
                    version,
                    sid,
                    digest_algorithm,
                    signed_attributes,
                    signature_algorithm,
                    signature,
                    unsigned_attributes,
                },
            )
        }
    }

    /// Reads the last three fields of a record from `c`.
    fn parse_tail(c: &[u8]) -> (r: Result<
        (AlgorithmIdentifier, Vec<u8>, Option<UnsignedAttributes>),
        DecodeError,
    >)
        ensures
            match r {
                Ok((signature_algorithm, signature, unsigned_attributes)) => {
                    &&& parse_signer_info_tail(c@) == Ok::<
                        (Seq<u8>, Seq<u8>, Option<Seq<Seq<u8>>>),
                        DecodeError,
                    >((signature_algorithm@, signature@, optional_view(unsigned_attributes)))
                    &&& signature_algorithm.wf()
                    &&& wf_optional_attributes(optional_view(unsigned_attributes))
                },
                Err(e) => parse_signer_info_tail(c@) == Err::<
                    (Seq<u8>, Seq<u8>, Option<Seq<Seq<u8>>>),
                    DecodeError,
                >(e),
            },
    {
        reveal(parse_signer_info_tail);
        let (signature_algorithm, n1) = match AlgorithmIdentifier::parse(c) {
            Err(e) => {
                return Err(e);
            },
            Ok(found) => found,
        };
        proof {
            lemma_parse_element_sound(ElementKind::AlgorithmIdentifier, c@);
        }
        let c1 = slice_subrange(c, n1, c.len());
        assert(c1@ =~= c@.skip(n1 as int));
        let (signature, n2) = match read_octet_string(c1) {
            Err(e) => {
                return Err(e);
            },
            Ok(found) => found,
        };
        proof {
            lemma_frame_canonical(c1@, TAG_OCTET_STRING);
        }
        let c2 = slice_subrange(c1, n2, c1.len());
        assert(c2@ =~= c1@.skip(n2 as int));
        let (unsigned_attributes, n3) = match SetOfVec::<Attribute>::parse_optional(
            c2,
            TAG_CONTEXT_1,
        ) {
            Err(e) => {
                return Err(e);
            },
            Ok(found) => found,
        };
        if n3 != c2.len() {
            Err(DecodeError::LengthMismatch)
        } else {
            Ok((signature_algorithm, signature, unsigned_attributes))
        }
    }

    /// Reads the fields of a record from `c`, which they must fill exactly.
    fn parse_content(c: &[u8]) -> (r: Result<SignerInfo, DecodeError>)
        ensures
            decoded_as(r, parse_signer_info_content(c@)),
            r is Ok ==> r->Ok_0.wf(),
    {
        reveal(parse_signer_info_content);
        let (version, n1) = match CmsVersion::parse(c) {
            Err(e) => {
                return Err(e);
            },
            Ok(found) => found,
        };
        proof {
            lemma_frame_canonical(c@, TAG_INTEGER);
        }
        let c1 = slice_subrange(c, n1, c.len());
        assert(c1@ =~= c@.skip(n1 as int));
        let (sid, n2) = match SignerIdentifier::parse(c1) {
            Err(e) => {
                return Err(e);
            },
            Ok(found) => found,
        };
        proof {
            if c1@[0] == TAG_SEQUENCE {
                lemma_frame_canonical(c1@, TAG_SEQUENCE);
            } else {
                lemma_frame_canonical(c1@, TAG_CONTEXT_0);
            }
        }
        let c2 = slice_subrange(c1, n2, c1.len());
        assert(c2@ =~= c1@.skip(n2 as int));
        let (digest_algorithm, n3) = match AlgorithmIdentifier::parse(c2) {
            Err(e) => {
                return Err(e);
            },
            Ok(found) => found,
        };
        proof {
            lemma_parse_element_sound(ElementKind::AlgorithmIdentifier, c2@);
        }
        let c3 = slice_subrange(c2, n3, c2.len());
        assert(c3@ =~= c2@.skip(n3 as int));
        let (signed_attributes, n4) = match SetOfVec::<Attribute>::parse_optional(
            c3,
            TAG_CONTEXT_0,
        ) {
            Err(e) => {
                return Err(e);
            },
            Ok(found) => found,
        };
        proof {
            if n4 > 0 {
                lemma_frame_canonical(c3@, TAG_CONTEXT_0);
            }
        }
        let c4 = slice_subrange(c3, n4, c3.len());
        assert(c4@ =~= c3@.skip(n4 as int));
        match SignerInfo::parse_tail(c4) {
            Err(e) => Err(e),
            Ok((signature_algorithm, signature, unsigned_attributes)) => Ok(
                SignerInfo {
                    version,
                    sid,
                    digest_algorithm,
                    signed_attributes,
                    signature_algorithm,
                    signature,
                    unsigned_attributes,
                },
            ),
        }
    }

    /// Reads a record from the front of `b`; the second component is the number of
    /// bytes it takes.
    pub fn parse(b: &[u8]) -> (r: Result<(SignerInfo, usize), DecodeError>)
        ensures
            parsed_as(r, parse_signer_info(b@)),
            r is Ok ==> r->Ok_0.0.wf(),
    {
        match read_frame(b, TAG_SEQUENCE) {
            Err(e) => Err(e),
            Ok((start, end)) => {
                proof {
                    lemma_frame_canonical(b@, TAG_SEQUENCE);
                }
                match SignerInfo::parse_content(slice_subrange(b, start, end)) {
                    Err(e) => Err(e),
                    Ok(v) => Ok((v, end)),
                }
            },
        }
    }

    /// Decodes a record from exactly the bytes `bytes`.
    ///
    /// Decoding succeeds exactly on the bytes of a well-formed record, fields one
    /// after the other and attribute sets in any order, and gives that record, with
    /// the attribute sets in the order in which their elements stand. On every other
    /// input it fails with the error that `decode_signer_info` names.
    pub fn from_der(bytes: &[u8]) -> (r: Result<SignerInfo, DecodeError>)
        ensures
            decoded_as(r, decode_signer_info(bytes@)),
            r matches Ok(info) ==> info.wf() && info@.fits() && serialize_signer_info(info@)
                == bytes@,
            forall|v: SignerInfoView|
                v.wf() && v.fits() && #[trigger] serialize_signer_info(v) == bytes@ ==> r is Ok
                    && r->Ok_0@ == v,
    {
        let r = match SignerInfo::parse(bytes) {
            Err(e) => Err(e),
            Ok((v, used)) => if used == bytes.len() {
                Ok(v)
            } else {
                Err(DecodeError::TrailingData)
            },
        };
        proof {
            if r is Ok {
                lemma_decode_exactly_serialized(bytes@, r->Ok_0@);
            }
            assert forall|v: SignerInfoView|
                v.wf() && v.fits() && #[trigger] serialize_signer_info(v) == bytes@ implies r is Ok
                && r->Ok_0@ == v by {
                lemma_decode_exactly_serialized(bytes@, v);
            }
        }
        r
    }

    /// The DER encoding of the record, with both attribute sets in canonical order.
    /// The stored order of the sets is not changed. A record with an attribute set
    /// that is present but empty is refused; apart from that, encoding fails exactly
    /// when the fields together are longer than `MAX_LENGTH`. What is returned for a
    /// well-formed record decodes to the record in canonical order.
    pub fn to_der(&self) -> (r: Result<Vec<u8>, EncodeError>)
        ensures
            r is Ok <==> self@.encode_error() is None,
            r matches Err(e) ==> self@.encode_error() == Some(e),
            r matches Ok(v) ==> v@ == encode_signer_info(self@),
            r matches Ok(v) ==> self.wf() ==> decode_signer_info(v@) == Ok::<
                SignerInfoView,
                DecodeError,
            >(self@.canonical()),
    {
        let ghost v = self@.canonical();
        proof {
            lemma_fits_canonical(self@);
        }
        let ghost version_part = encode_version(v.version);
        let ghost sid_part = serialize_signer_identifier(v.sid);
        let ghost digest_part = v.digest_algorithm;
        let ghost signed_part = serialize_optional_attributes(TAG_CONTEXT_0, v.signed_attributes);
        let ghost algorithm_part = v.signature_algorithm;
        let ghost signature_part = tlv(TAG_OCTET_STRING, v.signature);
        let ghost unsigned_part = serialize_optional_attributes(
            TAG_CONTEXT_1,
            v.unsigned_attributes,
        );
        let ghost all = version_part + sid_part + digest_part + signed_part + algorithm_part
            + signature_part + unsigned_part;
        assert(serialize_signer_info_content(v) == all);
        let signed_empty = match &self.signed_attributes {
            Some(set) => set.is_empty(),
            None => false,
        };
        let unsigned_empty = match &self.unsigned_attributes {
            Some(set) => set.is_empty(),
            None => false,
        };
        if signed_empty || unsigned_empty {
            return Err(EncodeError::EmptyOptionalCollection);
        }
        let mut content = self.version.to_der();
        match self.sid.to_der() {
            Err(e) => {
                return Err(e);
            },
            Ok(mut sid) => {
                content.append(&mut sid);
            },
        }
        append_slice(&mut content, self.digest_algorithm.as_bytes());
        match &self.signed_attributes {
            None => {
                assert(content@ =~= version_part + sid_part + digest_part + signed_part);
            },
            Some(set) => match set.to_der_tagged(TAG_CONTEXT_0) {
                Err(e) => {
                    return Err(e);
                },
                Ok(mut attributes) => {
                    content.append(&mut attributes);
                },
            },
        }
        append_slice(&mut content, self.signature_algorithm.as_bytes());
        match write_tlv(TAG_OCTET_STRING, self.signature.as_slice()) {
            Err(e) => {
                return Err(e);
            },
            Ok(mut signature) => {
                content.append(&mut signature);
            },
        }
        match &self.unsigned_attributes {
            None => {
                assert(content@ =~= all);
            },
            Some(set) => match set.to_der_tagged(TAG_CONTEXT_1) {
                Err(e) => {
                    return Err(e);
                },
                Ok(mut attributes) => {
                    content.append(&mut attributes);
                },
            },
        }
        let r = write_tlv(TAG_SEQUENCE, content.as_slice());
        proof {
            if r is Ok && self.wf() {
                lemma_decode_encode(self@);
            }
        }
        r
    }
}

} // verus!
