//! Values that this library carries but does not interpret: names, serial numbers,
//! algorithm identifiers and attributes.
//!
//! Each is held as its DER encoding. The library checks the outer frame itself and
//! leaves the contents to the crate that owns the type (`x509-cert`, `spki`).

use crate::error::{decoded_as, parsed_as, DecodeError};
use crate::tlv::{
    frame, is_tlv, lemma_frame_canonical, lemma_frame_extend, read_frame, TAG_INTEGER,
    TAG_SEQUENCE,
};
use vstd::prelude::*;
use vstd::slice::{slice_subrange, slice_to_vec};

verus! {

/// `der::Error`: carried from the codec to the caller, never looked into.
#[verifier::external_type_specification]
#[verifier::external_body]
pub struct ExDerError(der::Error);

/// The types of opaque element.
#[derive(Clone, Copy, Debug, PartialEq, Eq)]
pub enum ElementKind {
    /// An X.501 `Name`.
    Name,
    /// A certificate serial number.
    SerialNumber,
    /// An `AlgorithmIdentifier`.
    AlgorithmIdentifier,
    /// An X.501 `Attribute`.
    Attribute,
}

/// Whether `x509_cert::name::Name::from_der` accepts `der`.
pub uninterp spec fn name_accepted(der: Seq<u8>) -> bool;

/// Whether `x509_cert::serial_number::SerialNumber::from_der` accepts `der`.
pub uninterp spec fn serial_number_accepted(der: Seq<u8>) -> bool;

/// Whether `spki::AlgorithmIdentifierRef::from_der` accepts `der`.
pub uninterp spec fn algorithm_identifier_accepted(der: Seq<u8>) -> bool;

/// Whether `x509_cert::attr::Attribute::from_der` accepts `der`.
pub uninterp spec fn attribute_accepted(der: Seq<u8>) -> bool;

/// Decodes `der` with `x509_cert::name::Name::from_der` and returns the error, if any.
/// Nothing is claimed of the decision but that it depends on the bytes alone.
#[verifier::external_body]
fn name_error(der: &[u8]) -> (r: Option<der::Error>)
    ensures
        r is None <==> name_accepted(der@),
{
    <x509_cert::name::Name as der::Decode>::from_der(der).err()
}

/// Decodes `der` with `x509_cert::serial_number::SerialNumber::from_der` and returns the
/// error, if any. Nothing is claimed of the decision but that it depends on the bytes
/// alone.
#[verifier::external_body]
fn serial_number_error(der: &[u8]) -> (r: Option<der::Error>)
    ensures
        r is None <==> serial_number_accepted(der@),
{
    <x509_cert::serial_number::SerialNumber as der::Decode>::from_der(der).err()
}

/// Decodes `der` with `spki::AlgorithmIdentifierRef::from_der` and returns the error, if
/// any. Nothing is claimed of the decision but that it depends on the bytes alone.
#[verifier::external_body]
fn algorithm_identifier_error(der: &[u8]) -> (r: Option<der::Error>)
    ensures
        r is None <==> algorithm_identifier_accepted(der@),
{
    <spki::AlgorithmIdentifierRef<'_> as der::Decode>::from_der(der).err()
}

/// Decodes `der` with `x509_cert::attr::Attribute::from_der` and returns the error, if
/// any. Nothing is claimed of the decision but that it depends on the bytes alone.
#[verifier::external_body]
fn attribute_error(der: &[u8]) -> (r: Option<der::Error>)
    ensures
        r is None <==> attribute_accepted(der@),
{
    <x509_cert::attr::Attribute as der::Decode>::from_der(der).err()
}

impl ElementKind {
    /// The identifier octet that an element of this kind starts with.
    pub open spec fn spec_tag(self) -> u8 {
        match self {
            ElementKind::SerialNumber => TAG_INTEGER,
            _ => TAG_SEQUENCE,
        }
    }

    /// The identifier octet that an element of this kind starts with.
    pub fn tag(self) -> (r: u8)
        ensures
            r == self.spec_tag(),
    {
        match self {
            ElementKind::SerialNumber => TAG_INTEGER,
            _ => TAG_SEQUENCE,
        }
    }
}

/// Whether the owner of the type accepts `der` as an element of kind `kind`.
pub open spec fn accepted(kind: ElementKind, der: Seq<u8>) -> bool {
    match kind {
        ElementKind::Name => name_accepted(der),
        ElementKind::SerialNumber => serial_number_accepted(der),
        ElementKind::AlgorithmIdentifier => algorithm_identifier_accepted(der),
        ElementKind::Attribute => attribute_accepted(der),
    }
}

/// `der` is the encoding of an element of kind `kind`: exactly one framed value
/// with the kind's tag, whose owner accepts it.
pub open spec fn is_element(kind: ElementKind, der: Seq<u8>) -> bool {
    is_tlv(der, kind.spec_tag()) && accepted(kind, der)
}

/// Reads an element of kind `kind` from the front of `b`: its encoding and the number
/// of bytes it takes.
pub open spec fn parse_element(b: Seq<u8>, kind: ElementKind) -> Result<
    (Seq<u8>, nat),
    DecodeError,
> {
    match frame(b, kind.spec_tag()) {
        Err(e) => Err(e),
        Ok((_, end)) => if accepted(kind, b.subrange(0, end as int)) {
            Ok((b.subrange(0, end as int), end))
        } else {
            Err(DecodeError::MalformedElement)
        },
    }
}

/// Decodes `b` as one element of kind `kind` and nothing more.
pub open spec fn decode_element(b: Seq<u8>, kind: ElementKind) -> Result<Seq<u8>, DecodeError> {
    match parse_element(b, kind) {
        Err(e) => Err(e),
        Ok((der, used)) => if used == b.len() {
            Ok(der)
        } else {
            Err(DecodeError::TrailingData)
        },
    }
}

/// An element starts with the identifier octet of its kind.
pub proof fn lemma_element_first_octet(kind: ElementKind, der: Seq<u8>)
    requires
        is_element(kind, der),
    ensures
        der.len() >= 2,
        der[0] == kind.spec_tag(),
{
    lemma_frame_canonical(der, kind.spec_tag());
}

/// An element is read back from its encoding, whatever follows it.
pub proof fn lemma_parse_element_round_trip(kind: ElementKind, der: Seq<u8>, rest: Seq<u8>)
    requires
        is_element(kind, der),
    ensures
        parse_element(der + rest, kind) == Ok::<(Seq<u8>, nat), DecodeError>((der, der.len())),
        decode_element(der, kind) == Ok::<Seq<u8>, DecodeError>(der),
{
    lemma_frame_extend(der, kind.spec_tag(), rest);
    assert((der + rest).subrange(0, der.len() as int) =~= der);
    assert(der.subrange(0, der.len() as int) =~= der);
}

/// What is read as an element is an element, and it is the front of the input.
pub proof fn lemma_parse_element_sound(kind: ElementKind, b: Seq<u8>)
    requires
        parse_element(b, kind) is Ok,
    ensures
        ({
            let (der, used) = parse_element(b, kind)->Ok_0;
            &&& is_element(kind, der)
            &&& 2 <= used <= b.len()
            &&& used == der.len()
            &&& der == b.subrange(0, used as int)
        }),
{
    lemma_frame_canonical(b, kind.spec_tag());
}

/// Asks the owner of the element type whether it accepts `der`.
fn check(kind: ElementKind, der: &[u8]) -> (r: bool)
    ensures
        r == accepted(kind, der@),
{
    let error = match kind {
        ElementKind::Name => name_error(der),
        ElementKind::SerialNumber => serial_number_error(der),
        ElementKind::AlgorithmIdentifier => algorithm_identifier_error(der),
        ElementKind::Attribute => attribute_error(der),
    };
    error.is_none()
}

/// What becomes of a framed value once the owner of its type has judged it: where it
/// is accepted, a copy of its bytes and their number; where it is not, the error
/// `MalformedElement`.
pub fn judged(whole: &[u8], accepted: bool) -> (r: Result<(Vec<u8>, usize), DecodeError>)
    ensures
        accepted ==> (r matches Ok((der, used)) && der@ == whole@ && used == whole@.len()),
        !accepted ==> (r matches Err(e) && e == DecodeError::MalformedElement),
{
    if accepted {
        Ok((slice_to_vec(whole), whole.len()))
    } else {
        Err(DecodeError::MalformedElement)
    }
}

/// Reads an element of kind `kind` from the front of `b` and copies its encoding.
fn parse_raw(b: &[u8], kind: ElementKind) -> (r: Result<(Vec<u8>, usize), DecodeError>)
    ensures
        parsed_as(r, parse_element(b@, kind)),
{
    match read_frame(b, kind.tag()) {
        Err(e) => Err(e),
        Ok((_, end)) => {
            let whole = slice_subrange(b, 0, end);
            judged(whole, check(kind, whole))
        },
    }
}

/// Decodes `b` as one element of kind `kind` and nothing more.
fn decode_raw(b: &[u8], kind: ElementKind) -> (r: Result<Vec<u8>, DecodeError>)
    ensures
        decoded_as(r, decode_element(b@, kind)),
{
    match parse_raw(b, kind) {
        Err(e) => Err(e),
        Ok((der, used)) => if used == b.len() {
            Ok(der)
        } else {
            Err(DecodeError::TrailingData)
        },
    }
}

/// An X.501 distinguished name, held as its DER encoding.
#[derive(Clone, Debug, PartialEq, Eq)]
pub struct Name {
    der: Vec<u8>,
}

impl View for Name {
    type V = Seq<u8>;

    closed spec fn view(&self) -> Seq<u8> {
        self.der@
    }
}

impl Name {
    /// The value is the encoding of a name.
    pub open spec fn wf(&self) -> bool {
        is_element(ElementKind::Name, self@)
    }

    /// Decodes a name from exactly the bytes `bytes`.
    pub fn from_der(bytes: &[u8]) -> (r: Result<Name, DecodeError>)
        ensures
            decoded_as(r, decode_element(bytes@, ElementKind::Name)),
            r is Ok ==> r->Ok_0.wf() && r->Ok_0@ == bytes@,
    {
        match decode_raw(bytes, ElementKind::Name) {
            Err(e) => Err(e),
            Ok(der) => {
                proof {
                    lemma_parse_element_sound(ElementKind::Name, bytes@);
                    assert(bytes@.subrange(0, bytes@.len() as int) =~= bytes@);
                }
                Ok(Name { der })
            },
        }
    }

    /// Reads a name from the front of `b`; the second component is the number of
    /// bytes it takes.
    pub fn parse(b: &[u8]) -> (r: Result<(Name, usize), DecodeError>)
        ensures
            parsed_as(r, parse_element(b@, ElementKind::Name)),
            r is Ok ==> r->Ok_0.0.wf(),
    {
        match parse_raw(b, ElementKind::Name) {
            Err(e) => Err(e),
            Ok((der, used)) => {
                proof {
                    lemma_parse_element_sound(ElementKind::Name, b@);
                }
                Ok((Name { der }, used))
            },
        }
    }

    /// The DER encoding of the name.
    pub fn as_bytes(&self) -> (r: &[u8])
        ensures
            r@ == self@,
    {
        self.der.as_slice()
    }
}

/// A certificate serial number, held as its DER encoding.
#[derive(Clone, Debug, PartialEq, Eq)]
pub struct SerialNumber {
    der: Vec<u8>,
}

impl View for SerialNumber {
    type V = Seq<u8>;

    closed spec fn view(&self) -> Seq<u8> {
        self.der@
    }
}

impl SerialNumber {
    /// The value is the encoding of a serial number.
    pub open spec fn wf(&self) -> bool {
        is_element(ElementKind::SerialNumber, self@)
    }

    /// Decodes a serial number from exactly the bytes `bytes`.
    pub fn from_der(bytes: &[u8]) -> (r: Result<SerialNumber, DecodeError>)
        ensures
            decoded_as(r, decode_element(bytes@, ElementKind::SerialNumber)),
            r is Ok ==> r->Ok_0.wf() && r->Ok_0@ == bytes@,
    {
        match decode_raw(bytes, ElementKind::SerialNumber) {
            Err(e) => Err(e),
            Ok(der) => {
                proof {
                    lemma_parse_element_sound(ElementKind::SerialNumber, bytes@);
                    assert(bytes@.subrange(0, bytes@.len() as int) =~= bytes@);
                }
                Ok(SerialNumber { der })
            },
        }
    }

    /// Reads a serial number from the front of `b`; the second component is the number of
    /// bytes it takes.
    pub fn parse(b: &[u8]) -> (r: Result<(SerialNumber, usize), DecodeError>)
        ensures
            parsed_as(r, parse_element(b@, ElementKind::SerialNumber)),
            r is Ok ==> r->Ok_0.0.wf(),
    {
        match parse_raw(b, ElementKind::SerialNumber) {
            Err(e) => Err(e),
            Ok((der, used)) => {
                proof {
                    lemma_parse_element_sound(ElementKind::SerialNumber, b@);
                }
                Ok((SerialNumber { der }, used))
            },
        }
    }

    /// The DER encoding of the serial number.
    pub fn as_bytes(&self) -> (r: &[u8])
        ensures
            r@ == self@,
    {
        self.der.as_slice()
    }
}

/// An algorithm identifier, held as its DER encoding.
#[derive(Clone, Debug, PartialEq, Eq)]
pub struct AlgorithmIdentifier {
    der: Vec<u8>,
}

impl View for AlgorithmIdentifier {
    type V = Seq<u8>;

    closed spec fn view(&self) -> Seq<u8> {
        self.der@
    }
}

impl AlgorithmIdentifier {
    /// The value is the encoding of an algorithm identifier.
    pub open spec fn wf(&self) -> bool {
        is_element(ElementKind::AlgorithmIdentifier, self@)
    }

    /// Decodes an algorithm identifier from exactly the bytes `bytes`.
    pub fn from_der(bytes: &[u8]) -> (r: Result<AlgorithmIdentifier, DecodeError>)
        ensures
            decoded_as(r, decode_element(bytes@, ElementKind::AlgorithmIdentifier)),
            r is Ok ==> r->Ok_0.wf() && r->Ok_0@ == bytes@,
    {
        match decode_raw(bytes, ElementKind::AlgorithmIdentifier) {
            Err(e) => Err(e),
            Ok(der) => {
                proof {
                    lemma_parse_element_sound(ElementKind::AlgorithmIdentifier, bytes@);
                    assert(bytes@.subrange(0, bytes@.len() as int) =~= bytes@);
                }
                Ok(AlgorithmIdentifier { der })
            },
        }
    }

    /// Reads an algorithm identifier from the front of `b`; the second component is the number of
    /// bytes it takes.
    pub fn parse(b: &[u8]) -> (r: Result<(AlgorithmIdentifier, usize), DecodeError>)
        ensures
            parsed_as(r, parse_element(b@, ElementKind::AlgorithmIdentifier)),
            r is Ok ==> r->Ok_0.0.wf(),
    {
        match parse_raw(b, ElementKind::AlgorithmIdentifier) {
            Err(e) => Err(e),
            Ok((der, used)) => {
                proof {
                    lemma_parse_element_sound(ElementKind::AlgorithmIdentifier, b@);
                }
                Ok((AlgorithmIdentifier { der }, used))
            },
        }
    }

    /// The DER encoding of the algorithm identifier.
    pub fn as_bytes(&self) -> (r: &[u8])
        ensures
            r@ == self@,
    {
        self.der.as_slice()
    }
}

/// An X.501 attribute, held as its DER encoding.
#[derive(Clone, Debug, PartialEq, Eq)]
pub struct Attribute {
    der: Vec<u8>,
}

impl View for Attribute {
    type V = Seq<u8>;

    closed spec fn view(&self) -> Seq<u8> {
        self.der@
    }
}

impl Attribute {
    /// The value is the encoding of an attribute.
    pub open spec fn wf(&self) -> bool {
        is_element(ElementKind::Attribute, self@)
    }

    /// Decodes an attribute from exactly the bytes `bytes`.
    pub fn from_der(bytes: &[u8]) -> (r: Result<Attribute, DecodeError>)
        ensures
            decoded_as(r, decode_element(bytes@, ElementKind::Attribute)),
            r is Ok ==> r->Ok_0.wf() && r->Ok_0@ == bytes@,
    {
        match decode_raw(bytes, ElementKind::Attribute) {
            Err(e) => Err(e),
            Ok(der) => {
                proof {
                    lemma_parse_element_sound(ElementKind::Attribute, bytes@);
                    assert(bytes@.subrange(0, bytes@.len() as int) =~= bytes@);
                }
                Ok(Attribute { der })
            },
        }
    }

    /// Reads an attribute from the front of `b`; the second component is the number of
    /// bytes it takes.
    pub fn parse(b: &[u8]) -> (r: Result<(Attribute, usize), DecodeError>)
        ensures
            parsed_as(r, parse_element(b@, ElementKind::Attribute)),
            r is Ok ==> r->Ok_0.0.wf(),
    {
        match parse_raw(b, ElementKind::Attribute) {
            Err(e) => Err(e),
            Ok((der, used)) => {
                proof {
                    lemma_parse_element_sound(ElementKind::Attribute, b@);
                }
                Ok((Attribute { der }, used))
            },
        }
    }

    /// The DER encoding of the attribute.
    pub fn as_bytes(&self) -> (r: &[u8])
        ensures
            r@ == self@,
    {
        self.der.as_slice()
    }
}

} // verus!
