//! Tag-length-value framing: one identifier octet, DER length octets, contents.

use crate::error::{parsed_as, DecodeError, EncodeError};
use crate::length::{
    lemma_length_octets_len, lemma_parse_length_canonical, lemma_parse_length_octets,
    lemma_parse_length_window, length_octets, parse_length, read_length, write_length, MAX_LENGTH,
};
use vstd::prelude::*;
use vstd::slice::{slice_subrange, slice_to_vec};

verus! {

/// Identifier octet of a universal INTEGER.
pub const TAG_INTEGER: u8 = 0x02;

/// Identifier octet of a universal OCTET STRING.
pub const TAG_OCTET_STRING: u8 = 0x04;

/// Identifier octet of a universal SEQUENCE.
pub const TAG_SEQUENCE: u8 = 0x30;

/// Identifier octet of a universal SET.
pub const TAG_SET: u8 = 0x31;

/// Identifier octet of the constructed context-specific tag `[0]`.
pub const TAG_CONTEXT_0: u8 = 0xa0;

/// Identifier octet of the constructed context-specific tag `[1]`.
pub const TAG_CONTEXT_1: u8 = 0xa1;

/// Concatenation is associative.
pub proof fn lemma_concat_assoc(a: Seq<u8>, b: Seq<u8>, c: Seq<u8>)
    ensures
        a + b + c == a + (b + c),
{
    assert(a + b + c =~= a + (b + c));
}

/// Nothing appended changes nothing.
pub proof fn lemma_concat_empty(a: Seq<u8>)
    ensures
        a + Seq::<u8>::empty() == a,
        Seq::<u8>::empty() + a == a,
{
    assert(a + Seq::<u8>::empty() =~= a);
    assert(Seq::<u8>::empty() + a =~= a);
}

/// Skipping the first of two concatenated strings leaves the second.
pub proof fn lemma_skip_concat(a: Seq<u8>, b: Seq<u8>)
    ensures
        (a + b).skip(a.len() as int) == b,
{
    assert((a + b).skip(a.len() as int) =~= b);
}

/// A string is its first `n` bytes followed by the rest.
pub proof fn lemma_split(a: Seq<u8>, n: int)
    requires
        0 <= n <= a.len(),
    ensures
        a == a.subrange(0, n) + a.skip(n),
        n == a.len() ==> a.subrange(0, n) == a,
{
    assert(a =~= a.subrange(0, n) + a.skip(n));
    if n == a.len() {
        assert(a.subrange(0, n) =~= a);
    }
}

/// A concatenation starts as its first part does, if that is not empty.
pub proof fn lemma_first_concat(a: Seq<u8>, b: Seq<u8>)
    requires
        a.len() > 0,
    ensures
        (a + b).len() > 0,
        (a + b)[0] == a[0],
{
}

/// The encoding of a value with identifier octet `tag` and contents `content`.
pub open spec fn tlv(tag: u8, content: Seq<u8>) -> Seq<u8> {
    seq![tag] + length_octets(content.len()) + content
}

/// Reads the header of a value with identifier octet `tag` from the front of `b`.
/// On success the pair holds where the contents start and where they end in `b`;
/// the end is also the number of bytes that the whole value takes.
pub open spec fn frame(b: Seq<u8>, tag: u8) -> Result<(nat, nat), DecodeError> {
    if b.len() == 0 {
        Err(DecodeError::MissingField)
    } else if b[0] != tag {
        Err(DecodeError::TagMismatch)
    } else {
        match parse_length(b.skip(1)) {
            None => Err(DecodeError::LengthMismatch),
            Some((n, used)) => if 1 + used + n > b.len() {
                Err(DecodeError::LengthMismatch)
            } else {
                Ok((1 + used, 1 + used + n))
            },
        }
    }
}

/// `b` is exactly one value with identifier octet `tag`: header, contents, nothing more.
pub open spec fn is_tlv(b: Seq<u8>, tag: u8) -> bool {
    frame(b, tag) matches Ok((_, end)) && end == b.len()
}

/// Framing contents and reading the frame back finds the contents, whatever follows.
pub proof fn lemma_frame_tlv(tag: u8, content: Seq<u8>, rest: Seq<u8>)
    requires
        content.len() <= MAX_LENGTH,
    ensures
        frame(tlv(tag, content) + rest, tag) == Ok::<(nat, nat), DecodeError>(
            ((tlv(tag, content).len() - content.len()) as nat, tlv(tag, content).len()),
        ),
        tlv(tag, content).len() == 1 + length_octets(content.len()).len() + content.len(),
        (tlv(tag, content) + rest).subrange(
            tlv(tag, content).len() - content.len(),
            tlv(tag, content).len() as int,
        ) == content,
        is_tlv(tlv(tag, content), tag),
        frame(tlv(tag, content), tag) == frame(tlv(tag, content) + rest, tag),
        tlv(tag, content).subrange(
            tlv(tag, content).len() - content.len(),
            tlv(tag, content).len() as int,
        ) == content,
        tlv(tag, content)[0] == tag,
{
    let octets = length_octets(content.len());
    let b = tlv(tag, content) + rest;
    lemma_length_octets_len(content.len());
    lemma_parse_length_octets(content.len(), content + rest);
    assert(b.skip(1) =~= octets + (content + rest));
    let start = 1 + octets.len() as int;
    assert(b.subrange(start, start + content.len()) =~= content);
    lemma_parse_length_octets(content.len(), content);
    assert(tlv(tag, content).skip(1) =~= octets + content);
    assert(tlv(tag, content).subrange(start, start + content.len()) =~= content);
}

/// A frame read from the front of `b` is found again when more bytes follow `b`.
pub proof fn lemma_frame_extend(b: Seq<u8>, tag: u8, rest: Seq<u8>)
    requires
        frame(b, tag) is Ok,
    ensures
        frame(b + rest, tag) == frame(b, tag),
{
    let s = b.skip(1);
    let (n, used) = parse_length(s)->Some_0;
    lemma_parse_length_canonical(s);
    lemma_parse_length_octets(n, s.skip(used as int) + rest);
    assert((b + rest).skip(1) =~= length_octets(n) + (s.skip(used as int) + rest)) by {
        assert(s =~= s.subrange(0, used as int) + s.skip(used as int));
    }
}

/// What `frame` accepts is a canonical encoding: the bytes up to the end of the frame
/// are the `tlv` of the contents.
pub proof fn lemma_frame_canonical(b: Seq<u8>, tag: u8)
    requires
        frame(b, tag) is Ok,
    ensures
        ({
            let (start, end) = frame(b, tag)->Ok_0;
            &&& 2 <= start <= end <= b.len()
            &&& start <= 6
            &&& end - start <= MAX_LENGTH
            &&& b.subrange(0, end as int) == tlv(tag, b.subrange(start as int, end as int))
            &&& is_tlv(b.subrange(0, end as int), tag)
        }),
{
    let (start, end) = frame(b, tag)->Ok_0;
    let s = b.skip(1);
    let (n, used) = parse_length(s)->Some_0;
    lemma_parse_length_canonical(s);
    let content = b.subrange(start as int, end as int);
    assert(b.subrange(0, end as int) =~= seq![tag] + s.subrange(0, used as int) + content);
    lemma_frame_tlv(tag, content, Seq::empty());
}

/// Reads the header of a value with identifier octet `tag` from the front of `b`.
pub fn read_frame(b: &[u8], tag: u8) -> (r: Result<(usize, usize), DecodeError>)
    ensures
        r matches Ok((start, end)) ==> frame(b@, tag) == Ok::<(nat, nat), DecodeError>(
            (start as nat, end as nat),
        ),
        r matches Err(e) ==> frame(b@, tag) == Err::<(nat, nat), DecodeError>(e),
{
    if b.len() == 0 {
        return Err(DecodeError::MissingField);
    }
    if b[0] != tag {
        return Err(DecodeError::TagMismatch);
    }
    let limit: usize = if b.len() > 6 {
        6
    } else {
        b.len()
    };
    let window = slice_subrange(b, 1, limit);
    proof {
        lemma_parse_length_window(b@.skip(1), limit - 1);
        assert(window@ =~= b@.skip(1).subrange(0, limit - 1));
    }
    match read_length(window) {
        None => Err(DecodeError::LengthMismatch),
        Some((n, used)) => {
            proof {
                lemma_parse_length_canonical(b@.skip(1));
            }
            let start: usize = 1 + used;
            let n: usize = n as usize;
            if n > b.len() - start {
                Err(DecodeError::LengthMismatch)
            } else {
                Ok((start, start + n))
            }
        },
    }
}

/// Reads an OCTET STRING from the front of `b`: its contents and the number of bytes
/// that the whole value takes.
pub open spec fn parse_octet_string(b: Seq<u8>) -> Result<(Seq<u8>, nat), DecodeError> {
    match frame(b, TAG_OCTET_STRING) {
        Err(e) => Err(e),
        Ok((start, end)) => Ok((b.subrange(start as int, end as int), end)),
    }
}

/// An OCTET STRING is read back from its encoding, whatever follows it.
pub proof fn lemma_parse_octet_string_round_trip(octets: Seq<u8>, rest: Seq<u8>)
    requires
        octets.len() <= MAX_LENGTH,
    ensures
        parse_octet_string(tlv(TAG_OCTET_STRING, octets) + rest) == Ok::<
            (Seq<u8>, nat),
            DecodeError,
        >((octets, tlv(TAG_OCTET_STRING, octets).len())),
{
    lemma_frame_tlv(TAG_OCTET_STRING, octets, rest);
}

/// Reads an OCTET STRING from the front of `b` and copies its contents.
pub fn read_octet_string(b: &[u8]) -> (r: Result<(Vec<u8>, usize), DecodeError>)
    ensures
        parsed_as(r, parse_octet_string(b@)),
{
    match read_frame(b, TAG_OCTET_STRING) {
        Err(e) => Err(e),
        Ok((start, end)) => {
            proof {
                lemma_frame_canonical(b@, TAG_OCTET_STRING);
            }
            Ok((slice_to_vec(slice_subrange(b, start, end)), end))
        },
    }
}

/// Appends a copy of `s` to `out`.
pub fn append_slice(out: &mut Vec<u8>, s: &[u8])
    ensures
        final(out)@ == old(out)@ + s@,
{
    let mut copy = slice_to_vec(s);
    out.append(&mut copy);
}

/// Frames `content` under the identifier octet `tag`.
/// Fails exactly when the contents are longer than `MAX_LENGTH`.
pub fn write_tlv(tag: u8, content: &[u8]) -> (r: Result<Vec<u8>, EncodeError>)
    ensures
        r is Ok <==> content@.len() <= MAX_LENGTH,
        r matches Ok(v) ==> v@ == tlv(tag, content@),
        r matches Err(e) ==> e == EncodeError::Overflow,
{
    if content.len() > MAX_LENGTH as usize {
        return Err(EncodeError::Overflow);
    }
    match write_length(content.len() as u32) {
        None => Err(EncodeError::Overflow),
        Some(mut octets) => {
            let mut out: Vec<u8> = Vec::new();
            out.push(tag);
            out.append(&mut octets);
            append_slice(&mut out, content);
            assert(out@ =~= tlv(tag, content@));
            Ok(out)
        },
    }
}

} // verus!
