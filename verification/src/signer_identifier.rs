//! `SignerIdentifier`: the CHOICE that names the signer's certificate.
//!
//! ```text
//! SignerIdentifier ::= CHOICE {
//!     issuerAndSerialNumber IssuerAndSerialNumber,
//!     subjectKeyIdentifier [0] SubjectKeyIdentifier }
//!
//! IssuerAndSerialNumber ::= SEQUENCE {
//!     issuer Name,
//!     serialNumber CertificateSerialNumber }
//!
//! SubjectKeyIdentifier ::= OCTET STRING
//! ```
//!
//! The first alternative is written as the bare SEQUENCE; the second is wrapped in
//! the constructed context tag `[0]`.

use crate::element::{
    is_element, lemma_parse_element_round_trip, lemma_parse_element_sound, parse_element,
    ElementKind, Name, SerialNumber,
};
use crate::error::{decoded_as, parsed_as, DecodeError, EncodeError};
use crate::length::MAX_LENGTH;
use crate::tlv::{
    append_slice, frame, lemma_frame_canonical, lemma_frame_tlv,
    lemma_parse_octet_string_round_trip, parse_octet_string, read_frame, read_octet_string, tlv,
    write_tlv, TAG_CONTEXT_0, TAG_OCTET_STRING, TAG_SEQUENCE,
};
use vstd::prelude::*;
use vstd::slice::{slice_subrange, slice_to_vec};

verus! {

/// The subject key identifier of a certificate: the octets of the extension value.
#[derive(Clone, Debug, PartialEq, Eq)]
pub struct SubjectKeyIdentifier(pub Vec<u8>);

impl View for SubjectKeyIdentifier {
    type V = Seq<u8>;

    open spec fn view(&self) -> Seq<u8> {
        self.0@
    }
}

/// The issuer's distinguished name and the serial number of a certificate.
#[derive(Clone, Debug, PartialEq, Eq)]
pub struct IssuerAndSerialNumber {
    /// The issuer of the certificate.
    pub name: Name,
    /// The serial number that the issuer gave the certificate.
    pub serial_number: SerialNumber,
}

/// What an `IssuerAndSerialNumber` stands for: the encodings of its two fields.
pub struct IssuerAndSerialNumberView {
    /// The encoding of the issuer's name.
    pub name: Seq<u8>,
    /// The encoding of the serial number.
    pub serial_number: Seq<u8>,
}

impl View for IssuerAndSerialNumber {
    type V = IssuerAndSerialNumberView;

    open spec fn view(&self) -> IssuerAndSerialNumberView {
        IssuerAndSerialNumberView { name: self.name@, serial_number: self.serial_number@ }
    }
}

/// Identifies the signer's certificate, in one of two ways.
#[derive(Clone, Debug, PartialEq, Eq)]
pub enum SignerIdentifier {
    /// By issuer and serial number.
    IssuerAndSerialNumber(IssuerAndSerialNumber),
    /// By subject key identifier.
    SubjectKeyIdentifier(SubjectKeyIdentifier),
}

/// What a `SignerIdentifier` stands for.
pub enum SignerIdentifierView {
    /// By issuer and serial number.
    IssuerAndSerialNumber(IssuerAndSerialNumberView),
    /// By subject key identifier: the octets of the identifier.
    SubjectKeyIdentifier(Seq<u8>),
}

impl View for SignerIdentifier {
    type V = SignerIdentifierView;

    open spec fn view(&self) -> SignerIdentifierView {
        match self {
            SignerIdentifier::IssuerAndSerialNumber(v) => {
                SignerIdentifierView::IssuerAndSerialNumber(v@)
            },
            SignerIdentifier::SubjectKeyIdentifier(k) => {
                SignerIdentifierView::SubjectKeyIdentifier(k@)
            },
        }
    }
}

impl IssuerAndSerialNumberView {
    /// Both fields are encodings of their types.
    pub open spec fn wf(self) -> bool {
        &&& is_element(ElementKind::Name, self.name)
        &&& is_element(ElementKind::SerialNumber, self.serial_number)
    }

    /// The two fields together fit in one frame.
    pub open spec fn encodable(self) -> bool {
        self.name.len() + self.serial_number.len() <= MAX_LENGTH
    }
}

impl SignerIdentifierView {
    /// The fields of the alternative are encodings of their types.
    pub open spec fn wf(self) -> bool {
        match self {
            SignerIdentifierView::IssuerAndSerialNumber(v) => v.wf(),
            SignerIdentifierView::SubjectKeyIdentifier(_) => true,
        }
    }

    /// The contents of the outermost frame are at most `MAX_LENGTH` bytes.
    pub open spec fn encodable(self) -> bool {
        match self {
            SignerIdentifierView::IssuerAndSerialNumber(v) => v.encodable(),
            SignerIdentifierView::SubjectKeyIdentifier(k) => tlv(TAG_OCTET_STRING, k).len()
                <= MAX_LENGTH,
        }
    }
}

/// The encoding of an `IssuerAndSerialNumber`: a SEQUENCE of the name and the serial
/// number.
pub open spec fn serialize_issuer_and_serial_number(v: IssuerAndSerialNumberView) -> Seq<u8> {
    tlv(TAG_SEQUENCE, v.name + v.serial_number)
}

/// The encoding of a `SignerIdentifier`: the bare SEQUENCE for the first alternative,
/// the OCTET STRING inside the tag `[0]` for the second.
pub open spec fn serialize_signer_identifier(v: SignerIdentifierView) -> Seq<u8> {
    match v {
        SignerIdentifierView::IssuerAndSerialNumber(v) => serialize_issuer_and_serial_number(v),
        SignerIdentifierView::SubjectKeyIdentifier(k) => tlv(
            TAG_CONTEXT_0,
            tlv(TAG_OCTET_STRING, k),
        ),
    }
}

/// Reads an `IssuerAndSerialNumber` from the front of `b`: the name, then the serial
/// number, which together must fill the SEQUENCE.
pub open spec fn parse_issuer_and_serial_number(b: Seq<u8>) -> Result<
    (IssuerAndSerialNumberView, nat),
    DecodeError,
> {
    match frame(b, TAG_SEQUENCE) {
        Err(e) => Err(e),
        Ok((start, end)) => {
            let c = b.subrange(start as int, end as int);
            match parse_element(c, ElementKind::Name) {
                Err(e) => Err(e),
                Ok((name, n1)) => match parse_element(
                    c.skip(n1 as int),
                    ElementKind::SerialNumber,
                ) {
                    Err(e) => Err(e),
                    Ok((serial_number, n2)) => if n1 + n2 != c.len() {
                        Err(DecodeError::LengthMismatch)
                    } else {
                        Ok((IssuerAndSerialNumberView { name, serial_number }, end))
                    },
                },
            }
        },
    }
}

/// Reads a subject key identifier in its tag `[0]` from the front of `b`: the tag must
/// hold one OCTET STRING and nothing more.
pub open spec fn parse_tagged_subject_key_identifier(b: Seq<u8>) -> Result<
    (Seq<u8>, nat),
    DecodeError,
> {
    match frame(b, TAG_CONTEXT_0) {
        Err(e) => Err(e),
        Ok((start, end)) => {
            let c = b.subrange(start as int, end as int);
            match parse_octet_string(c) {
                Err(e) => Err(e),
                Ok((octets, n)) => if n != c.len() {
                    Err(DecodeError::LengthMismatch)
                } else {
                    Ok((octets, end))
                },
            }
        },
    }
}

/// Reads a `SignerIdentifier` from the front of `b`. The first octet selects the
/// alternative: the SEQUENCE tag the issuer and serial number, the constructed tag
/// `[0]` the subject key identifier; any other is a tag mismatch.
pub open spec fn parse_signer_identifier(b: Seq<u8>) -> Result<
    (SignerIdentifierView, nat),
    DecodeError,
> {
    if b.len() == 0 {
        Err(DecodeError::MissingField)
    } else if b[0] == TAG_SEQUENCE {
        match parse_issuer_and_serial_number(b) {
            Err(e) => Err(e),
            Ok((v, used)) => Ok((SignerIdentifierView::IssuerAndSerialNumber(v), used)),
        }
    } else if b[0] == TAG_CONTEXT_0 {
        match parse_tagged_subject_key_identifier(b) {
            Err(e) => Err(e),
            Ok((k, used)) => Ok((SignerIdentifierView::SubjectKeyIdentifier(k), used)),
        }
    } else {
        Err(DecodeError::TagMismatch)
    }
}

/// Decodes `b` as one `SignerIdentifier` and nothing more.
pub open spec fn decode_signer_identifier(b: Seq<u8>) -> Result<SignerIdentifierView, DecodeError> {
    match parse_signer_identifier(b) {
        Err(e) => Err(e),
        Ok((v, used)) => if used == b.len() {
            Ok(v)
        } else {
            Err(DecodeError::TrailingData)
        },
    }
}

/// An `IssuerAndSerialNumber` is read back from its encoding, whatever follows it.
pub proof fn lemma_parse_issuer_and_serial_number_round_trip(
    v: IssuerAndSerialNumberView,
    rest: Seq<u8>,
)
    requires
        v.wf(),
        v.encodable(),
    ensures
        parse_issuer_and_serial_number(serialize_issuer_and_serial_number(v) + rest) == Ok::<
            (IssuerAndSerialNumberView, nat),
            DecodeError,
        >((v, serialize_issuer_and_serial_number(v).len())),
        serialize_issuer_and_serial_number(v).len() > 0,
        serialize_issuer_and_serial_number(v)[0] == TAG_SEQUENCE,
{
    let c = v.name + v.serial_number;
    lemma_frame_tlv(TAG_SEQUENCE, c, rest);
    lemma_parse_element_round_trip(ElementKind::Name, v.name, v.serial_number);
    assert(c.skip(v.name.len() as int) =~= v.serial_number);
    lemma_parse_element_round_trip(ElementKind::SerialNumber, v.serial_number, Seq::empty());
    assert(v.serial_number + Seq::<u8>::empty() =~= v.serial_number);
}

/// A `SignerIdentifier` is read back from its encoding, whatever follows it.
pub proof fn lemma_parse_signer_identifier_round_trip(v: SignerIdentifierView, rest: Seq<u8>)
    requires
        v.wf(),
        v.encodable(),
    ensures
        parse_signer_identifier(serialize_signer_identifier(v) + rest) == Ok::<
            (SignerIdentifierView, nat),
            DecodeError,
        >((v, serialize_signer_identifier(v).len())),
{
    match v {
        SignerIdentifierView::IssuerAndSerialNumber(inner) => {
            lemma_parse_issuer_and_serial_number_round_trip(inner, rest);
        },
        SignerIdentifierView::SubjectKeyIdentifier(k) => {
            let octet_string = tlv(TAG_OCTET_STRING, k);
            lemma_frame_tlv(TAG_CONTEXT_0, octet_string, rest);
            lemma_parse_octet_string_round_trip(k, Seq::empty());
            assert(octet_string + Seq::<u8>::empty() =~= octet_string);
            assert((serialize_signer_identifier(v) + rest)[0] == TAG_CONTEXT_0);
        },
    }
}

/// What is read as a `SignerIdentifier` is well formed, and its encoding is the front
/// of the input.
pub proof fn lemma_parse_signer_identifier_sound(b: Seq<u8>)
    requires
        parse_signer_identifier(b) is Ok,
    ensures
        ({
            let (v, used) = parse_signer_identifier(b)->Ok_0;
            &&& v.wf()
            &&& v.encodable()
            &&& 0 < used <= b.len()
            &&& b.subrange(0, used as int) == serialize_signer_identifier(v)
        }),
{
    let (v, used) = parse_signer_identifier(b)->Ok_0;
    if b[0] == TAG_SEQUENCE {
        lemma_frame_canonical(b, TAG_SEQUENCE);
        let (start, end) = frame(b, TAG_SEQUENCE)->Ok_0;
        let c = b.subrange(start as int, end as int);
        lemma_parse_element_sound(ElementKind::Name, c);
        let (name, n1) = parse_element(c, ElementKind::Name)->Ok_0;
        lemma_parse_element_sound(ElementKind::SerialNumber, c.skip(n1 as int));
        let (serial_number, n2) = parse_element(c.skip(n1 as int), ElementKind::SerialNumber)->Ok_0;
        assert(c =~= name + serial_number);
    } else {
        lemma_frame_canonical(b, TAG_CONTEXT_0);
        let (start, end) = frame(b, TAG_CONTEXT_0)->Ok_0;
        let c = b.subrange(start as int, end as int);
        lemma_frame_canonical(c, TAG_OCTET_STRING);
        assert(c.subrange(0, c.len() as int) =~= c);
    }
}

/// The first octet alone selects the alternative: where decoding succeeds, the result
/// is an issuer and serial number exactly when the input starts with the SEQUENCE tag,
/// and a subject key identifier exactly when it starts with the tag `[0]`; an input
/// that starts with any other octet is refused as a tag mismatch.
pub proof fn lemma_choice_dispatch(b: Seq<u8>)
    requires
        b.len() > 0,
    ensures
        b[0] != TAG_SEQUENCE && b[0] != TAG_CONTEXT_0 ==> decode_signer_identifier(b) == Err::<
            SignerIdentifierView,
            DecodeError,
        >(DecodeError::TagMismatch),
        decode_signer_identifier(b) matches Ok(v) ==> {
            &&& v is IssuerAndSerialNumber <==> b[0] == TAG_SEQUENCE
            &&& v is SubjectKeyIdentifier <==> b[0] == TAG_CONTEXT_0
        },
{
}

/// The same key identifier octets decode to the subject key identifier when wrapped in
/// the tag `[0]`, and are refused as a tag mismatch when they stand as a bare OCTET
/// STRING; an issuer and serial number in its bare SEQUENCE decodes to that alternative.
pub proof fn lemma_choice_by_tag(issuer: IssuerAndSerialNumberView, key: Seq<u8>)
    requires
        issuer.wf(),
        issuer.encodable(),
        tlv(TAG_OCTET_STRING, key).len() <= MAX_LENGTH,
    ensures
        decode_signer_identifier(serialize_issuer_and_serial_number(issuer)) == Ok::<
            SignerIdentifierView,
            DecodeError,
        >(SignerIdentifierView::IssuerAndSerialNumber(issuer)),
        decode_signer_identifier(tlv(TAG_CONTEXT_0, tlv(TAG_OCTET_STRING, key))) == Ok::<
            SignerIdentifierView,
            DecodeError,
        >(SignerIdentifierView::SubjectKeyIdentifier(key)),
        decode_signer_identifier(tlv(TAG_OCTET_STRING, key)) == Err::<
            SignerIdentifierView,
            DecodeError,
        >(DecodeError::TagMismatch),
{
    let v1 = SignerIdentifierView::IssuerAndSerialNumber(issuer);
    lemma_parse_signer_identifier_round_trip(v1, Seq::empty());
    assert(serialize_signer_identifier(v1) + Seq::<u8>::empty() =~= serialize_signer_identifier(
        v1,
    ));
    let v2 = SignerIdentifierView::SubjectKeyIdentifier(key);
    lemma_parse_signer_identifier_round_trip(v2, Seq::empty());
    assert(serialize_signer_identifier(v2) + Seq::<u8>::empty() =~= serialize_signer_identifier(
        v2,
    ));
    assert(tlv(TAG_OCTET_STRING, key)[0] == TAG_OCTET_STRING);
}

/// Decodes `b` as one `IssuerAndSerialNumber` and nothing more.
pub open spec fn decode_issuer_and_serial_number(b: Seq<u8>) -> Result<
    IssuerAndSerialNumberView,
    DecodeError,
> {
    match parse_issuer_and_serial_number(b) {
        Err(e) => Err(e),
        Ok((v, used)) => if used == b.len() {
            Ok(v)
        } else {
            Err(DecodeError::TrailingData)
        },
    }
}

/// Decodes `b` as one OCTET STRING and nothing more.
pub open spec fn decode_octet_string(b: Seq<u8>) -> Result<Seq<u8>, DecodeError> {
    match parse_octet_string(b) {
        Err(e) => Err(e),
        Ok((octets, used)) => if used == b.len() {
            Ok(octets)
        } else {
            Err(DecodeError::TrailingData)
        },
    }
}

impl SubjectKeyIdentifier {
    /// Decodes an identifier from exactly the bytes `bytes`, which must be one OCTET
    /// STRING.
    pub fn from_der(bytes: &[u8]) -> (r: Result<SubjectKeyIdentifier, DecodeError>)
        ensures
            decoded_as(r, decode_octet_string(bytes@)),
    {
        match read_octet_string(bytes) {
            Err(e) => Err(e),
            Ok((octets, used)) => if used == bytes.len() {
                Ok(SubjectKeyIdentifier(octets))
            } else {
                Err(DecodeError::TrailingData)
            },
        }
    }

    /// The identifier as an OCTET STRING.
    /// Fails exactly when it is longer than `MAX_LENGTH`.
    pub fn to_der(&self) -> (r: Result<Vec<u8>, EncodeError>)
        ensures
            r is Ok <==> self@.len() <= MAX_LENGTH,
            r matches Ok(v) ==> v@ == tlv(TAG_OCTET_STRING, self@),
            r matches Err(e) ==> e == EncodeError::Overflow,
    {
        write_tlv(TAG_OCTET_STRING, self.0.as_slice())
    }
}

impl IssuerAndSerialNumber {
    /// Both fields are encodings of their types.
    pub open spec fn wf(&self) -> bool {
        self@.wf()
    }

    /// The encoding of the value. Fails exactly when the two fields together are
    /// longer than `MAX_LENGTH`.
    pub fn to_der(&self) -> (r: Result<Vec<u8>, EncodeError>)
        ensures
            r is Ok <==> self@.encodable(),
            r matches Ok(v) ==> v@ == serialize_issuer_and_serial_number(self@),
            r matches Err(e) ==> e == EncodeError::Overflow,
    {
        let mut content = slice_to_vec(self.name.as_bytes());
        append_slice(&mut content, self.serial_number.as_bytes());
        write_tlv(TAG_SEQUENCE, content.as_slice())
    }

    /// Decodes a value from exactly the bytes `bytes`: a SEQUENCE of the name and the
    /// serial number, in that order.
    pub fn from_der(bytes: &[u8]) -> (r: Result<IssuerAndSerialNumber, DecodeError>)
        ensures
            decoded_as(r, decode_issuer_and_serial_number(bytes@)),
            r is Ok ==> r->Ok_0.wf(),
    {
        match IssuerAndSerialNumber::parse(bytes) {
            Err(e) => Err(e),
            Ok((v, used)) => if used == bytes.len() {
                Ok(v)
            } else {
                Err(DecodeError::TrailingData)
            },
        }
    }

    /// Reads a value from the front of `b`; the second component is the number of
    /// bytes it takes.
    pub fn parse(b: &[u8]) -> (r: Result<(IssuerAndSerialNumber, usize), DecodeError>)
        ensures
            parsed_as(r, parse_issuer_and_serial_number(b@)),
            r is Ok ==> r->Ok_0.0.wf(),
    {
        match read_frame(b, TAG_SEQUENCE) {
            Err(e) => Err(e),
            Ok((start, end)) => {
                proof {
                    lemma_frame_canonical(b@, TAG_SEQUENCE);
                }
                let c = slice_subrange(b, start, end);
                match Name::parse(c) {
                    Err(e) => Err(e),
                    Ok((name, n1)) => {
                        proof {
                            lemma_parse_element_sound(ElementKind::Name, c@);
                        }
                        let c1 = slice_subrange(c, n1, c.len());
                        assert(c1@ =~= c@.skip(n1 as int));
                        match SerialNumber::parse(c1) {
                            Err(e) => Err(e),
                            Ok((serial_number, n2)) => {
                                proof {
                                    lemma_parse_element_sound(ElementKind::SerialNumber, c1@);
                                }
                                if n2 != c1.len() {
                                    Err(DecodeError::LengthMismatch)
                                } else {
                                    Ok((IssuerAndSerialNumber { name, serial_number }, end))
                                }
                            },
                        }
                    },
                }
            },
        }
    }
}

impl SignerIdentifier {
    /// The fields of the alternative are encodings of their types.
    pub open spec fn wf(&self) -> bool {
        self@.wf()
    }

    /// The encoding of the value. Fails exactly when the contents of its outermost
    /// frame are longer than `MAX_LENGTH`.
    pub fn to_der(&self) -> (r: Result<Vec<u8>, EncodeError>)
        ensures
            r is Ok <==> self@.encodable(),
            r matches Ok(v) ==> v@ == serialize_signer_identifier(self@),
            r matches Err(e) ==> e == EncodeError::Overflow,
    {
        match self {
            SignerIdentifier::IssuerAndSerialNumber(v) => v.to_der(),
            SignerIdentifier::SubjectKeyIdentifier(k) => match k.to_der() {
                Err(e) => Err(e),
                Ok(octet_string) => write_tlv(TAG_CONTEXT_0, octet_string.as_slice()),
            },
        }
    }

    /// Reads a value from the front of `b`; the second component is the number of
    /// bytes it takes.
    pub fn parse(b: &[u8]) -> (r: Result<(SignerIdentifier, usize), DecodeError>)
        ensures
            parsed_as(r, parse_signer_identifier(b@)),
            r is Ok ==> r->Ok_0.0.wf(),
    {
        if b.len() == 0 {
            return Err(DecodeError::MissingField);
        }
        if b[0] == TAG_SEQUENCE {
            match IssuerAndSerialNumber::parse(b) {
                Err(e) => Err(e),
                Ok((v, used)) => Ok((SignerIdentifier::IssuerAndSerialNumber(v), used)),
            }
        } else if b[0] == TAG_CONTEXT_0 {
            match read_frame(b, TAG_CONTEXT_0) {
                Err(e) => Err(e),
                Ok((start, end)) => {
                    proof {
                        lemma_frame_canonical(b@, TAG_CONTEXT_0);
                    }
                    let c = slice_subrange(b, start, end);
                    match read_octet_string(c) {
                        Err(e) => Err(e),
                        Ok((octets, n)) => if n != c.len() {
                            Err(DecodeError::LengthMismatch)
                        } else {
                            Ok(
                                (
                                    SignerIdentifier::SubjectKeyIdentifier(
                                        SubjectKeyIdentifier(octets),
                                    ),
                                    end,
                                ),
                            )
                        },
                    }
                },
            }
        } else {
            Err(DecodeError::TagMismatch)
        }
    }

    /// Decodes a value from exactly the bytes `bytes`. The first octet selects the
    /// alternative.
    pub fn from_der(bytes: &[u8]) -> (r: Result<SignerIdentifier, DecodeError>)
        ensures
            decoded_as(r, decode_signer_identifier(bytes@)),
            r is Ok ==> r->Ok_0.wf(),
            r matches Ok(v) ==> (v is IssuerAndSerialNumber <==> bytes@[0] == TAG_SEQUENCE),
            r matches Ok(v) ==> (v is SubjectKeyIdentifier <==> bytes@[0] == TAG_CONTEXT_0),
            bytes@.len() > 0 && bytes@[0] != TAG_SEQUENCE && bytes@[0] != TAG_CONTEXT_0 ==> r
                == Err::<SignerIdentifier, DecodeError>(DecodeError::TagMismatch),
    {
        match SignerIdentifier::parse(bytes) {
            Err(e) => Err(e),
            Ok((v, used)) => if used == bytes.len() {
                Ok(v)
            } else {
                Err(DecodeError::TrailingData)
            },
        }
    }
}

} // verus!
