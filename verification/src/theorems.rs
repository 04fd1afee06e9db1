//! What holds of the `SignerInfo` codec for every input: decoding inverts encoding,
//! and which inputs are refused with which error.

use crate::cms_version::{
    encode_version, lemma_parse_version_round_trip, lemma_parse_version_sound, parse_version,
    CmsVersion,
};
use crate::element::{
    is_element, lemma_element_first_octet, lemma_parse_element_round_trip,
    lemma_parse_element_sound, parse_element, ElementKind,
};
use crate::error::DecodeError;
use crate::length::MAX_LENGTH;
use crate::order::{
    lemma_canonical_order_ensures, lemma_canonical_order_flatten_len,
    lemma_canonical_order_idempotent, lemma_canonical_order_of_permutation,
    lemma_canonical_order_unique,
};
use crate::set_of::{
    lemma_canonical_attributes_wf, lemma_parse_optional_attributes_round_trip,
    lemma_parse_optional_attributes_sound, parse_optional_attributes,
    serialize_optional_attributes, wf_optional_attributes,
};
use crate::signer_identifier::{
    lemma_parse_signer_identifier_round_trip, lemma_parse_signer_identifier_sound,
    parse_signer_identifier, serialize_signer_identifier, SignerIdentifierView,
};
use crate::signer_info::{
    decode_signer_info, encode_signer_info, parse_signer_info, parse_signer_info_content,
    parse_signer_info_tail, serialize_signer_info, serialize_signer_info_content, SignerInfoView,
};
use crate::tlv::{
    frame, lemma_concat_assoc, lemma_concat_empty, lemma_first_concat, lemma_frame_canonical,
    lemma_frame_tlv, lemma_parse_octet_string_round_trip, lemma_skip_concat, lemma_split,
    parse_octet_string, tlv, TAG_CONTEXT_0, TAG_CONTEXT_1, TAG_OCTET_STRING, TAG_SEQUENCE,
};
use vstd::prelude::*;

verus! {

/// The fields that every record starts with, one after the other: version, signer
/// identifier and digest algorithm.
pub open spec fn serialize_leading_fields(
    version: CmsVersion,
    sid: SignerIdentifierView,
    digest_algorithm: Seq<u8>,
) -> Seq<u8> {
    encode_version(version) + serialize_signer_identifier(sid) + digest_algorithm
}

/// What the decoder makes of `rest` once it has read the three leading fields.
pub open spec fn after_leading_fields(
    version: CmsVersion,
    sid: SignerIdentifierView,
    digest_algorithm: Seq<u8>,
    rest: Seq<u8>,
) -> Result<SignerInfoView, DecodeError> {
    match parse_optional_attributes(rest, TAG_CONTEXT_0) {
        Err(e) => Err(e),
        Ok((signed_attributes, used)) => match parse_signer_info_tail(rest.skip(used as int)) {
            Err(e) => Err(e),
            Ok((signature_algorithm, signature, unsigned_attributes)) => Ok(
                SignerInfoView {
                    version,
                    sid,
                    digest_algorithm,
                    signed_attributes,
                    signature_algorithm,
                    signature,
                    unsigned_attributes,
                },
            ),
        },
    }
}

/// The decoder reads the three leading fields back and goes on with what follows them.
pub proof fn lemma_parse_leading_fields(
    version: CmsVersion,
    sid: SignerIdentifierView,
    digest_algorithm: Seq<u8>,
    rest: Seq<u8>,
)
    requires
        sid.wf(),
        sid.encodable(),
        is_element(ElementKind::AlgorithmIdentifier, digest_algorithm),
    ensures
        parse_signer_info_content(
            serialize_leading_fields(version, sid, digest_algorithm) + rest,
        ) == after_leading_fields(version, sid, digest_algorithm, rest),
{
    reveal(parse_signer_info_content);
    let version_part = encode_version(version);
    let sid_part = serialize_signer_identifier(sid);
    let digest_part = digest_algorithm;
    lemma_rejoin(version_part, sid_part, digest_part, rest);
    lemma_parse_version_round_trip(version, sid_part + (digest_part + rest));
    lemma_skip_concat(version_part, sid_part + (digest_part + rest));
    lemma_parse_signer_identifier_round_trip(sid, digest_part + rest);
    lemma_skip_concat(sid_part, digest_part + rest);
    lemma_parse_element_round_trip(ElementKind::AlgorithmIdentifier, digest_part, rest);
    lemma_skip_concat(digest_part, rest);
}

/// The decoder reads the signature algorithm and the signature back and goes on with
/// what follows them, which must be the unsigned attributes or nothing.
pub proof fn lemma_parse_tail_fields(
    signature_algorithm: Seq<u8>,
    signature: Seq<u8>,
    rest: Seq<u8>,
)
    requires
        is_element(ElementKind::AlgorithmIdentifier, signature_algorithm),
        signature.len() <= MAX_LENGTH,
    ensures
        parse_signer_info_tail(signature_algorithm + tlv(TAG_OCTET_STRING, signature) + rest)
            == match parse_optional_attributes(rest, TAG_CONTEXT_1) {
            Err(e) => Err::<(Seq<u8>, Seq<u8>, Option<Seq<Seq<u8>>>), DecodeError>(e),
            Ok((unsigned_attributes, used)) => if used != rest.len() {
                Err(DecodeError::LengthMismatch)
            } else {
                Ok((signature_algorithm, signature, unsigned_attributes))
            },
        },
{
    reveal(parse_signer_info_tail);
    let algorithm_part = signature_algorithm;
    let signature_part = tlv(TAG_OCTET_STRING, signature);
    lemma_concat_assoc(algorithm_part, signature_part, rest);
    lemma_parse_element_round_trip(
        ElementKind::AlgorithmIdentifier,
        algorithm_part,
        signature_part + rest,
    );
    lemma_skip_concat(algorithm_part, signature_part + rest);
    lemma_parse_octet_string_round_trip(signature, rest);
    lemma_skip_concat(signature_part, rest);
}

/// The record that the leading fields, the signed attributes and the outcome of
/// reading the last three fields make together.
pub open spec fn with_tail(
    version: CmsVersion,
    sid: SignerIdentifierView,
    digest_algorithm: Seq<u8>,
    signed_attributes: Option<Seq<Seq<u8>>>,
    tail: Result<(Seq<u8>, Seq<u8>, Option<Seq<Seq<u8>>>), DecodeError>,
) -> Result<SignerInfoView, DecodeError> {
    match tail {
        Err(e) => Err(e),
        Ok((signature_algorithm, signature, unsigned_attributes)) => Ok(
            SignerInfoView {
                version,
                sid,
                digest_algorithm,
                signed_attributes,
                signature_algorithm,
                signature,
                unsigned_attributes,
            },
        ),
    }
}

/// Behind the leading fields the decoder reads the signed attributes back, present or
/// absent, and goes on with what follows them. Where they are absent, what follows
/// must not start with their tag.
pub proof fn lemma_parse_signed_attributes(
    version: CmsVersion,
    sid: SignerIdentifierView,
    digest_algorithm: Seq<u8>,
    signed_attributes: Option<Seq<Seq<u8>>>,
    rest: Seq<u8>,
)
    requires
        wf_optional_attributes(signed_attributes),
        signed_attributes matches Some(a) ==> a.flatten().len() <= MAX_LENGTH,
        signed_attributes is None ==> rest.len() == 0 || rest[0] != TAG_CONTEXT_0,
    ensures
        after_leading_fields(
            version,
            sid,
            digest_algorithm,
            serialize_optional_attributes(TAG_CONTEXT_0, signed_attributes) + rest,
        ) == with_tail(
            version,
            sid,
            digest_algorithm,
            signed_attributes,
            parse_signer_info_tail(rest),
        ),
{
    let signed_part = serialize_optional_attributes(TAG_CONTEXT_0, signed_attributes);
    lemma_parse_optional_attributes_round_trip(TAG_CONTEXT_0, signed_attributes, rest);
    lemma_skip_concat(signed_part, rest);
}

/// The last three fields of a record are read back as they were written.
pub proof fn lemma_parse_tail_round_trip(
    signature_algorithm: Seq<u8>,
    signature: Seq<u8>,
    unsigned_attributes: Option<Seq<Seq<u8>>>,
)
    requires
        is_element(ElementKind::AlgorithmIdentifier, signature_algorithm),
        signature.len() <= MAX_LENGTH,
        wf_optional_attributes(unsigned_attributes),
        unsigned_attributes matches Some(a) ==> a.flatten().len() <= MAX_LENGTH,
    ensures
        parse_signer_info_tail(
            signature_algorithm + tlv(TAG_OCTET_STRING, signature)
                + serialize_optional_attributes(TAG_CONTEXT_1, unsigned_attributes),
        ) == Ok::<(Seq<u8>, Seq<u8>, Option<Seq<Seq<u8>>>), DecodeError>(
            (signature_algorithm, signature, unsigned_attributes),
        ),
{
    let unsigned_part = serialize_optional_attributes(TAG_CONTEXT_1, unsigned_attributes);
    lemma_parse_tail_fields(signature_algorithm, signature, unsigned_part);
    lemma_parse_optional_attributes_round_trip(TAG_CONTEXT_1, unsigned_attributes, Seq::empty());
    lemma_concat_empty(unsigned_part);
}

/// The fields of a record behind the leading ones, grouped as the decoder meets them.
proof fn lemma_regroup(a: Seq<u8>, b: Seq<u8>, c: Seq<u8>, d: Seq<u8>, e: Seq<u8>)
    ensures
        a + b + c + d + e == a + (b + (c + d + e)),
{
    assert(a + b + c + d + e =~= a + (b + (c + d + e)));
}

/// The leading fields and what follows them, put together from the back.
proof fn lemma_rejoin(a: Seq<u8>, b: Seq<u8>, c: Seq<u8>, rest: Seq<u8>)
    ensures
        a + (b + (c + rest)) == a + b + c + rest,
{
    assert(a + (b + (c + rest)) =~= a + b + c + rest);
}

/// An attribute set that is present under `tag` but empty is refused.
proof fn lemma_empty_set_refused(tag: u8, rest: Seq<u8>)
    ensures
        parse_optional_attributes(tlv(tag, Seq::empty()) + rest, tag) == Err::<
            (Option<Seq<Seq<u8>>>, nat),
            DecodeError,
        >(DecodeError::EmptyOptionalCollection),
{
    lemma_frame_tlv(tag, Seq::empty(), rest);
    lemma_first_concat(tlv(tag, Seq::empty()), rest);
}

/// Where nothing follows the signature algorithm, the signature is missing.
proof fn lemma_tail_without_signature(signature_algorithm: Seq<u8>)
    requires
        is_element(ElementKind::AlgorithmIdentifier, signature_algorithm),
    ensures
        parse_signer_info_tail(signature_algorithm) == Err::<
            (Seq<u8>, Seq<u8>, Option<Seq<Seq<u8>>>),
            DecodeError,
        >(DecodeError::MissingField),
{
    reveal(parse_signer_info_tail);
    let algorithm_part = signature_algorithm;
    lemma_parse_element_round_trip(ElementKind::AlgorithmIdentifier, algorithm_part, Seq::empty());
    lemma_concat_empty(algorithm_part);
    assert(algorithm_part.skip(algorithm_part.len() as int) =~= Seq::<u8>::empty());
}

/// Every frame inside a record that fits can be written.
pub proof fn lemma_fits_parts(v: SignerInfoView)
    requires
        v.fits(),
    ensures
        v.sid.encodable(),
        v.signed_attributes matches Some(a) ==> a.flatten().len() <= MAX_LENGTH,
        v.signature.len() <= MAX_LENGTH,
        v.unsigned_attributes matches Some(a) ==> a.flatten().len() <= MAX_LENGTH,
{
}

/// The fields of a well-formed record, written in stored order, are read back as the
/// same record.
pub proof fn lemma_parse_content_round_trip(v: SignerInfoView)
    requires
        v.wf(),
        v.fits(),
    ensures
        parse_signer_info_content(serialize_signer_info_content(v)) == Ok::<
            SignerInfoView,
            DecodeError,
        >(v),
{
    lemma_fits_parts(v);
    let head = serialize_leading_fields(v.version, v.sid, v.digest_algorithm);
    let signed_part = serialize_optional_attributes(TAG_CONTEXT_0, v.signed_attributes);
    let algorithm_part = v.signature_algorithm;
    let signature_part = tlv(TAG_OCTET_STRING, v.signature);
    let unsigned_part = serialize_optional_attributes(TAG_CONTEXT_1, v.unsigned_attributes);
    let tail = algorithm_part + signature_part + unsigned_part;
    lemma_regroup(head, signed_part, algorithm_part, signature_part, unsigned_part);
    lemma_parse_leading_fields(v.version, v.sid, v.digest_algorithm, signed_part + tail);
    lemma_element_first_octet(ElementKind::AlgorithmIdentifier, algorithm_part);
    lemma_concat_assoc(algorithm_part, signature_part, unsigned_part);
    lemma_first_concat(algorithm_part, signature_part + unsigned_part);
    lemma_parse_signed_attributes(v.version, v.sid, v.digest_algorithm, v.signed_attributes, tail);
    lemma_parse_tail_round_trip(v.signature_algorithm, v.signature, v.unsigned_attributes);
}

/// A well-formed record, written with its attribute sets in stored order, is read
/// back as the same record, whatever follows it.
pub proof fn lemma_parse_round_trip(v: SignerInfoView, rest: Seq<u8>)
    requires
        v.wf(),
        v.fits(),
    ensures
        parse_signer_info(serialize_signer_info(v) + rest) == Ok::<
            (SignerInfoView, nat),
            DecodeError,
        >((v, serialize_signer_info(v).len())),
        decode_signer_info(serialize_signer_info(v)) == Ok::<SignerInfoView, DecodeError>(v),
{
    let c = serialize_signer_info_content(v);
    lemma_frame_tlv(TAG_SEQUENCE, c, rest);
    lemma_parse_content_round_trip(v);
}

/// Putting the attribute sets of a record in canonical order keeps it well formed,
/// and does nothing to a record whose sets are in canonical order already.
pub proof fn lemma_canonical(v: SignerInfoView)
    ensures
        v.wf() ==> v.canonical().wf(),
        v.canonical().is_canonical(),
        v.canonical().canonical() == v.canonical(),
        v.is_canonical() ==> v.canonical() == v,
{
    if v.wf() {
        lemma_canonical_attributes_wf(v.signed_attributes);
        lemma_canonical_attributes_wf(v.unsigned_attributes);
    }
    if let Some(a) = v.signed_attributes {
        lemma_canonical_order_ensures(a);
        lemma_canonical_order_idempotent(a);
        if v.is_canonical() {
            lemma_canonical_order_unique(a, a);
        }
    }
    if let Some(a) = v.unsigned_attributes {
        lemma_canonical_order_ensures(a);
        lemma_canonical_order_idempotent(a);
        if v.is_canonical() {
            lemma_canonical_order_unique(a, a);
        }
    }
}

/// Whether a record fits does not depend on the order of its attributes.
pub proof fn lemma_fits_canonical(v: SignerInfoView)
    ensures
        v.canonical().fits() == v.fits(),
        serialize_signer_info_content(v.canonical()).len() == serialize_signer_info_content(
            v,
        ).len(),
{
    if let Some(a) = v.signed_attributes {
        lemma_canonical_order_flatten_len(a);
    }
    if let Some(a) = v.unsigned_attributes {
        lemma_canonical_order_flatten_len(a);
    }
}

/// Decoding inverts encoding. For every well-formed record whose encoding can be
/// written, decoding the encoding gives the record with its attribute sets in
/// canonical order: the record itself where they are stored in that order, which
/// covers every record without attribute sets, and every decoded record that is
/// encoded again.
pub proof fn lemma_decode_encode(v: SignerInfoView)
    requires
        v.wf(),
        v.fits(),
    ensures
        decode_signer_info(encode_signer_info(v)) == Ok::<SignerInfoView, DecodeError>(
            v.canonical(),
        ),
        v.is_canonical() ==> decode_signer_info(encode_signer_info(v)) == Ok::<
            SignerInfoView,
            DecodeError,
        >(v),
        encode_signer_info(v.canonical()) == encode_signer_info(v),
{
    lemma_canonical(v);
    lemma_fits_canonical(v);
    lemma_parse_round_trip(v.canonical(), Seq::empty());
}

/// The last three fields that the decoder reads are well formed, and written one
/// after the other they are the input.
pub proof fn lemma_parse_tail_sound(c: Seq<u8>)
    requires
        parse_signer_info_tail(c) is Ok,
    ensures
        ({
            let (signature_algorithm, signature, unsigned_attributes) = parse_signer_info_tail(
                c,
            )->Ok_0;
            &&& is_element(ElementKind::AlgorithmIdentifier, signature_algorithm)
            &&& signature.len() <= MAX_LENGTH
            &&& wf_optional_attributes(unsigned_attributes)
            &&& c == signature_algorithm + tlv(TAG_OCTET_STRING, signature)
                + serialize_optional_attributes(TAG_CONTEXT_1, unsigned_attributes)
        }),
{
    reveal(parse_signer_info_tail);
    lemma_parse_element_sound(ElementKind::AlgorithmIdentifier, c);
    let (signature_algorithm, n1) = parse_element(c, ElementKind::AlgorithmIdentifier)->Ok_0;
    let c1 = c.skip(n1 as int);
    lemma_frame_canonical(c1, TAG_OCTET_STRING);
    let (signature, n2) = parse_octet_string(c1)->Ok_0;
    let c2 = c1.skip(n2 as int);
    lemma_parse_optional_attributes_sound(c2, TAG_CONTEXT_1);
    let (unsigned_attributes, n3) = parse_optional_attributes(c2, TAG_CONTEXT_1)->Ok_0;
    lemma_split(c, n1 as int);
    lemma_split(c1, n2 as int);
    lemma_split(c2, n3 as int);
    lemma_concat_assoc(
        signature_algorithm,
        tlv(TAG_OCTET_STRING, signature),
        serialize_optional_attributes(TAG_CONTEXT_1, unsigned_attributes),
    );
}

/// The record that the decoder reads from the fields is well formed, and its fields
/// written in stored order are the input.
pub proof fn lemma_parse_content_sound(c: Seq<u8>)
    requires
        parse_signer_info_content(c) is Ok,
    ensures
        parse_signer_info_content(c)->Ok_0.wf(),
        serialize_signer_info_content(parse_signer_info_content(c)->Ok_0) == c,
{
    reveal(parse_signer_info_content);
    let v = parse_signer_info_content(c)->Ok_0;
    lemma_parse_version_sound(c);
    let (version, n1) = parse_version(c)->Ok_0;
    let c1 = c.skip(n1 as int);
    lemma_parse_signer_identifier_sound(c1);
    let (sid, n2) = parse_signer_identifier(c1)->Ok_0;
    let c2 = c1.skip(n2 as int);
    lemma_parse_element_sound(ElementKind::AlgorithmIdentifier, c2);
    let (digest_algorithm, n3) = parse_element(c2, ElementKind::AlgorithmIdentifier)->Ok_0;
    let c3 = c2.skip(n3 as int);
    lemma_parse_optional_attributes_sound(c3, TAG_CONTEXT_0);
    let (signed_attributes, n4) = parse_optional_attributes(c3, TAG_CONTEXT_0)->Ok_0;
    let c4 = c3.skip(n4 as int);
    lemma_parse_tail_sound(c4);
    let version_part = encode_version(version);
    let sid_part = serialize_signer_identifier(sid);
    let signed_part = serialize_optional_attributes(TAG_CONTEXT_0, signed_attributes);
    let algorithm_part = v.signature_algorithm;
    let signature_part = tlv(TAG_OCTET_STRING, v.signature);
    let unsigned_part = serialize_optional_attributes(TAG_CONTEXT_1, v.unsigned_attributes);
    lemma_split(c, n1 as int);
    lemma_split(c1, n2 as int);
    lemma_split(c2, n3 as int);
    lemma_split(c3, n4 as int);
    let tail = algorithm_part + signature_part + unsigned_part;
    lemma_regroup(
        version_part + sid_part + digest_algorithm,
        signed_part,
        algorithm_part,
        signature_part,
        unsigned_part,
    );
    lemma_rejoin(version_part, sid_part, digest_algorithm, signed_part + tail);
}

/// Decoding accepts nothing but the bytes of a well-formed record, fields in stored
/// order, and gives that record: `b` decodes to `v` exactly when `v` is well formed,
/// fits, and `b` is `serialize_signer_info(v)`.
pub proof fn lemma_decode_exactly_serialized(b: Seq<u8>, v: SignerInfoView)
    ensures
        decode_signer_info(b) == Ok::<SignerInfoView, DecodeError>(v) <==> v.wf() && v.fits()
            && serialize_signer_info(v) == b,
{
    if v.wf() && v.fits() && serialize_signer_info(v) == b {
        lemma_parse_round_trip(v, Seq::empty());
    }
    if decode_signer_info(b) == Ok::<SignerInfoView, DecodeError>(v) {
        lemma_frame_canonical(b, TAG_SEQUENCE);
        let (start, end) = frame(b, TAG_SEQUENCE)->Ok_0;
        lemma_parse_content_sound(b.subrange(start as int, end as int));
        assert(b.subrange(0, end as int) =~= b);
    }
}

/// Two optional sets are both absent, or both present with the same elements, each
/// as often in the one as in the other.
pub open spec fn same_elements(a: Option<Seq<Seq<u8>>>, b: Option<Seq<Seq<u8>>>) -> bool {
    match (a, b) {
        (None, None) => true,
        (Some(x), Some(y)) => x.to_multiset() == y.to_multiset(),
        _ => false,
    }
}

/// The order in which attributes were put into a set leaves no trace in the encoding:
/// two records that differ only in the stored order of their attributes have the same
/// bytes.
pub proof fn lemma_attribute_order_irrelevant(v: SignerInfoView, w: SignerInfoView)
    requires
        v.version == w.version,
        v.sid == w.sid,
        v.digest_algorithm == w.digest_algorithm,
        same_elements(v.signed_attributes, w.signed_attributes),
        v.signature_algorithm == w.signature_algorithm,
        v.signature == w.signature,
        same_elements(v.unsigned_attributes, w.unsigned_attributes),
    ensures
        v.canonical() == w.canonical(),
        encode_signer_info(v) == encode_signer_info(w),
{
    if let (Some(x), Some(y)) = (v.signed_attributes, w.signed_attributes) {
        lemma_canonical_order_of_permutation(x, y);
    }
    if let (Some(x), Some(y)) = (v.unsigned_attributes, w.unsigned_attributes) {
        lemma_canonical_order_of_permutation(x, y);
    }
}

/// A record in which the signed attributes are present but empty is refused with
/// `EmptyOptionalCollection`, whatever stands behind the empty set.
pub proof fn lemma_empty_signed_attributes_refused(
    version: CmsVersion,
    sid: SignerIdentifierView,
    digest_algorithm: Seq<u8>,
    rest: Seq<u8>,
)
    requires
        sid.wf(),
        sid.encodable(),
        is_element(ElementKind::AlgorithmIdentifier, digest_algorithm),
        (serialize_leading_fields(version, sid, digest_algorithm) + tlv(
            TAG_CONTEXT_0,
            Seq::empty(),
        ) + rest).len() <= MAX_LENGTH,
    ensures
        decode_signer_info(
            tlv(
                TAG_SEQUENCE,
                serialize_leading_fields(version, sid, digest_algorithm) + tlv(
                    TAG_CONTEXT_0,
                    Seq::empty(),
                ) + rest,
            ),
        ) == Err::<SignerInfoView, DecodeError>(DecodeError::EmptyOptionalCollection),
{
    let head = serialize_leading_fields(version, sid, digest_algorithm);
    let empty_set = tlv(TAG_CONTEXT_0, Seq::empty());
    let c = head + empty_set + rest;
    lemma_frame_tlv(TAG_SEQUENCE, c, Seq::empty());
    lemma_concat_assoc(head, empty_set, rest);
    lemma_parse_leading_fields(version, sid, digest_algorithm, empty_set + rest);
    lemma_empty_set_refused(TAG_CONTEXT_0, rest);
}

/// A record in which the unsigned attributes are present but empty is refused with
/// `EmptyOptionalCollection`.
pub proof fn lemma_empty_unsigned_attributes_refused(v: SignerInfoView, rest: Seq<u8>)
    requires
        v.wf(),
        v.unsigned_attributes is None,
        (serialize_signer_info_content(v) + tlv(TAG_CONTEXT_1, Seq::empty()) + rest).len()
            <= MAX_LENGTH,
    ensures
        decode_signer_info(
            tlv(
                TAG_SEQUENCE,
                serialize_signer_info_content(v) + tlv(TAG_CONTEXT_1, Seq::empty()) + rest,
            ),
        ) == Err::<SignerInfoView, DecodeError>(DecodeError::EmptyOptionalCollection),
{
    let head = serialize_leading_fields(v.version, v.sid, v.digest_algorithm);
    let signed_part = serialize_optional_attributes(TAG_CONTEXT_0, v.signed_attributes);
    let algorithm_part = v.signature_algorithm;
    let signature_part = tlv(TAG_OCTET_STRING, v.signature);
    let empty_set = tlv(TAG_CONTEXT_1, Seq::empty());
    let unsigned_part = empty_set + rest;
    let tail = algorithm_part + signature_part + unsigned_part;
    let c = serialize_signer_info_content(v) + empty_set + rest;
    assert(v.sid.encodable());
    assert(v.signature.len() <= MAX_LENGTH);
    assert(v.signed_attributes matches Some(a) ==> a.flatten().len() <= MAX_LENGTH);
    lemma_concat_assoc(head + signed_part + algorithm_part + signature_part, empty_set, rest);
    lemma_regroup(head, signed_part, algorithm_part, signature_part, unsigned_part);
    lemma_frame_tlv(TAG_SEQUENCE, c, Seq::empty());
    lemma_parse_leading_fields(v.version, v.sid, v.digest_algorithm, signed_part + tail);
    lemma_element_first_octet(ElementKind::AlgorithmIdentifier, algorithm_part);
    lemma_concat_assoc(algorithm_part, signature_part, unsigned_part);
    lemma_first_concat(algorithm_part, signature_part + unsigned_part);
    lemma_parse_signed_attributes(v.version, v.sid, v.digest_algorithm, v.signed_attributes, tail);
    lemma_parse_tail_fields(v.signature_algorithm, v.signature, unsigned_part);
    lemma_empty_set_refused(TAG_CONTEXT_1, rest);
}

/// A record that ends behind the signature algorithm, where the signature must
/// follow, is refused with `MissingField`.
pub proof fn lemma_missing_signature_refused(v: SignerInfoView)
    requires
        v.wf(),
        v.fits(),
    ensures
        decode_signer_info(
            tlv(
                TAG_SEQUENCE,
                serialize_leading_fields(v.version, v.sid, v.digest_algorithm)
                    + serialize_optional_attributes(TAG_CONTEXT_0, v.signed_attributes)
                    + v.signature_algorithm,
            ),
        ) == Err::<SignerInfoView, DecodeError>(DecodeError::MissingField),
{
    lemma_fits_parts(v);
    let head = serialize_leading_fields(v.version, v.sid, v.digest_algorithm);
    let signed_part = serialize_optional_attributes(TAG_CONTEXT_0, v.signed_attributes);
    let algorithm_part = v.signature_algorithm;
    let c = head + signed_part + algorithm_part;
    lemma_frame_tlv(TAG_SEQUENCE, c, Seq::empty());
    lemma_concat_assoc(head, signed_part, algorithm_part);
    lemma_parse_leading_fields(v.version, v.sid, v.digest_algorithm, signed_part + algorithm_part);
    lemma_element_first_octet(ElementKind::AlgorithmIdentifier, algorithm_part);
    lemma_parse_signed_attributes(
        v.version,
        v.sid,
        v.digest_algorithm,
        v.signed_attributes,
        algorithm_part,
    );
    lemma_tail_without_signature(algorithm_part);
}

/// A record that ends behind the digest algorithm or the signed attributes, where the
/// signature algorithm must follow, is refused with `MissingField`.
pub proof fn lemma_missing_signature_algorithm_refused(v: SignerInfoView)
    requires
        v.wf(),
        v.fits(),
    ensures
        decode_signer_info(
            tlv(
                TAG_SEQUENCE,
                serialize_leading_fields(v.version, v.sid, v.digest_algorithm)
                    + serialize_optional_attributes(TAG_CONTEXT_0, v.signed_attributes),
            ),
        ) == Err::<SignerInfoView, DecodeError>(DecodeError::MissingField),
{
    lemma_fits_parts(v);
    let head = serialize_leading_fields(v.version, v.sid, v.digest_algorithm);
    let signed_part = serialize_optional_attributes(TAG_CONTEXT_0, v.signed_attributes);
    let c = head + signed_part;
    lemma_frame_tlv(TAG_SEQUENCE, c, Seq::empty());
    lemma_concat_empty(signed_part);
    assert(parse_signer_info_tail(Seq::empty()) == Err::<
        (Seq<u8>, Seq<u8>, Option<Seq<Seq<u8>>>),
        DecodeError,
    >(DecodeError::MissingField)) by {
        reveal(parse_signer_info_tail);
    }
    lemma_parse_leading_fields(
        v.version,
        v.sid,
        v.digest_algorithm,
        signed_part + Seq::<u8>::empty(),
    );
    lemma_parse_signed_attributes(
        v.version,
        v.sid,
        v.digest_algorithm,
        v.signed_attributes,
        Seq::empty(),
    );
}

} // verus!
