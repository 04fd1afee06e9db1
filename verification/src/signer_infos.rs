//! `SignerInfos ::= SET OF SignerInfo`: the records of all signers of one message.

use crate::error::{decoded_as, DecodeError, EncodeError};
use crate::length::MAX_LENGTH;
use crate::order::{
    byte_strings, canonical_order, join_byte_strings, lemma_canonical_order_ensures,
    lemma_canonical_order_flatten_len, lemma_canonical_order_of_permutation,
    lemma_canonical_order_pair,
    lemma_canonical_order_unique, lemma_lex_total_ordering, lemma_map_values_to_multiset, lex_le,
    lex_order, sort_byte_strings,
};
use crate::set_of::{prepend, SetOfVec};
use crate::signer_info::{
    decode_signer_info, encode_signer_info, parse_signer_info, serialize_signer_info_content,
    SignerInfo, SignerInfoView,
};
use crate::theorems::{
    lemma_canonical, lemma_decode_encode, lemma_decode_exactly_serialized, lemma_parse_round_trip,
};
use crate::tlv::{
    frame, lemma_frame_canonical, lemma_frame_tlv, lemma_skip_concat, read_frame, tlv, write_tlv,
    TAG_SEQUENCE, TAG_SET,
};
use vstd::prelude::*;
use vstd::relations::sorted_by;
use vstd::slice::slice_subrange;

verus! {

/// `SignerInfos ::= SET OF SignerInfo`
pub type SignerInfos = SetOfVec<SignerInfo>;

/// The DER encoding of each record, in the order of the records.
pub open spec fn signer_info_encodings(s: Seq<SignerInfoView>) -> Seq<Seq<u8>> {
    s.map_values(|v: SignerInfoView| encode_signer_info(v))
}

/// The DER encoding of the collection: a SET of the records' encodings in canonical
/// order, whatever order the records are stored in.
pub open spec fn encode_signer_infos(s: Seq<SignerInfoView>) -> Seq<u8> {
    tlv(TAG_SET, canonical_order(signer_info_encodings(s)).flatten())
}

/// Every record can be encoded, and the encodings together are at most `MAX_LENGTH`
/// bytes.
pub open spec fn signer_infos_fit(s: Seq<SignerInfoView>) -> bool {
    &&& forall|i: int| 0 <= i < s.len() ==> (#[trigger] s[i]).encode_error() is None
    &&& signer_info_encodings(s).flatten().len() <= MAX_LENGTH
}

/// The error that encoding the collection fails with, if it fails: that of the first
/// record that cannot be encoded, or `Overflow` where every record can be encoded but
/// the encodings together are longer than `MAX_LENGTH`.
pub open spec fn fails_with(s: Seq<SignerInfoView>, e: EncodeError) -> bool {
    ||| exists|i: int|
        {
            &&& 0 <= i < s.len()
            &&& (#[trigger] s[i]).encode_error() == Some(e)
            &&& forall|j: int| 0 <= j < i ==> (#[trigger] s[j]).encode_error() is None
        }
    ||| {
        &&& forall|i: int| 0 <= i < s.len() ==> (#[trigger] s[i]).encode_error() is None
        &&& e == EncodeError::Overflow
        &&& signer_info_encodings(s).flatten().len() > MAX_LENGTH
    }
}

/// Every record is well formed.
pub open spec fn wf_signer_infos(s: Seq<SignerInfoView>) -> bool {
    forall|i: int| 0 <= i < s.len() ==> (#[trigger] s[i]).wf()
}

/// Reads records until `c` is used up, in the order in which they stand.
pub open spec fn parse_signer_infos_content(c: Seq<u8>) -> Result<Seq<SignerInfoView>, DecodeError>
    decreases c.len(),
{
    if c.len() == 0 {
        Ok(Seq::empty())
    } else {
        match parse_signer_info(c) {
            Err(e) => Err(e),
            Ok((v, used)) => prepend(seq![v], parse_signer_infos_content(c.skip(used as int))),
        }
    }
}

/// Decodes `b` as one SET of records and nothing more. The records are taken in the
/// order in which they stand; that order is not checked.
pub open spec fn decode_signer_infos(b: Seq<u8>) -> Result<Seq<SignerInfoView>, DecodeError> {
    match frame(b, TAG_SET) {
        Err(e) => Err(e),
        Ok((start, end)) => match parse_signer_infos_content(b.subrange(start as int, end as int)) {
            Err(e) => Err(e),
            Ok(s) => if end == b.len() {
                Ok(s)
            } else {
                Err(DecodeError::TrailingData)
            },
        },
    }
}

/// One more record read extends what has been read so far.
proof fn lemma_parse_step(c: Seq<u8>, pos: int, before: Seq<SignerInfoView>)
    requires
        0 <= pos < c.len(),
        parse_signer_infos_content(c) == prepend(
            before,
            parse_signer_infos_content(c.skip(pos)),
        ),
    ensures
        match parse_signer_info(c.skip(pos)) {
            Err(e) => parse_signer_infos_content(c) == Err::<Seq<SignerInfoView>, DecodeError>(e),
            Ok((v, used)) => {
                &&& 0 < used
                &&& pos + used <= c.len()
                &&& parse_signer_infos_content(c) == prepend(
                    before.push(v),
                    parse_signer_infos_content(c.skip(pos + used)),
                )
            },
        },
{
    let rest = c.skip(pos);
    if let Ok((v, used)) = parse_signer_info(rest) {
        lemma_frame_canonical(rest, TAG_SEQUENCE);
        assert(rest.skip(used as int) =~= c.skip(pos + used));
        let tail = parse_signer_infos_content(c.skip(pos + used));
        if let Ok(more) = tail {
            assert(before + (seq![v] + more) =~= before.push(v) + more);
        }
    }
}

/// Two collections that hold the same records, each as often as the other, have the
/// same encoding: the order of insertion leaves no trace in the bytes.
pub proof fn lemma_insertion_order_irrelevant(s: Seq<SignerInfoView>, t: Seq<SignerInfoView>)
    requires
        s.to_multiset() == t.to_multiset(),
    ensures
        encode_signer_infos(s) == encode_signer_infos(t),
{
    lemma_map_values_to_multiset(s, t, |v: SignerInfoView| encode_signer_info(v));
    lemma_canonical_order_of_permutation(signer_info_encodings(s), signer_info_encodings(t));
}

/// Of two records the one with the smaller encoding is written first, whichever was
/// inserted first.
pub proof fn lemma_smaller_encoding_first(a: SignerInfoView, b: SignerInfoView)
    requires
        lex_le(encode_signer_info(a), encode_signer_info(b)),
    ensures
        encode_signer_infos(seq![a, b]) == tlv(
            TAG_SET,
            encode_signer_info(a) + encode_signer_info(b),
        ),
        encode_signer_infos(seq![b, a]) == tlv(
            TAG_SET,
            encode_signer_info(a) + encode_signer_info(b),
        ),
{
    let ea = encode_signer_info(a);
    let eb = encode_signer_info(b);
    lemma_canonical_order_pair(ea, eb);
    assert(signer_info_encodings(seq![a, b]) =~= seq![ea, eb]);
    assert(signer_info_encodings(seq![b, a]) =~= seq![eb, ea]);
    let sorted = seq![ea, eb];
    assert(sorted.flatten() =~= ea + eb) by {
        assert(sorted.drop_first() =~= seq![eb]);
        assert(seq![eb].drop_first() =~= Seq::<Seq<u8>>::empty());
        assert(seq![eb].flatten() =~= eb + Seq::<Seq<u8>>::empty().flatten());
        assert(sorted.flatten() =~= ea + seq![eb].flatten());
    }
}

/// In the encoding of a collection the records stand in ascending order of their
/// encodings, and each record of the collection stands there as often as it is held.
pub proof fn lemma_encoded_in_canonical_order(s: Seq<SignerInfoView>)
    ensures
        sorted_by(canonical_order(signer_info_encodings(s)), lex_order()),
        canonical_order(signer_info_encodings(s)).to_multiset() == signer_info_encodings(
            s,
        ).to_multiset(),
{
    lemma_canonical_order_ensures(signer_info_encodings(s));
}

/// Each encoding decoded on its own.
pub open spec fn decode_each(encodings: Seq<Seq<u8>>) -> Seq<SignerInfoView> {
    encodings.map_values(|e: Seq<u8>| decode_signer_info(e)->Ok_0)
}

/// Encodings that each decode on their own are read back, written one after the
/// other, as the records they decode to.
pub proof fn lemma_parse_flattened(encodings: Seq<Seq<u8>>)
    requires
        forall|i: int|
            0 <= i < encodings.len() ==> decode_signer_info(#[trigger] encodings[i]) is Ok,
    ensures
        parse_signer_infos_content(encodings.flatten()) == Ok::<Seq<SignerInfoView>, DecodeError>(
            decode_each(encodings),
        ),
    decreases encodings.len(),
{
    if encodings.len() == 0 {
        assert(decode_each(encodings) =~= Seq::<SignerInfoView>::empty());
    } else {
        let first = encodings.first();
        let rest = encodings.drop_first();
        let c = encodings.flatten();
        assert(decode_signer_info(encodings[0]) is Ok);
        let v = decode_signer_info(first)->Ok_0;
        lemma_decode_exactly_serialized(first, v);
        lemma_parse_round_trip(v, rest.flatten());
        lemma_frame_tlv(TAG_SEQUENCE, serialize_signer_info_content(v), Seq::empty());
        lemma_skip_concat(first, rest.flatten());
        assert forall|i: int| 0 <= i < rest.len() implies decode_signer_info(
            #[trigger] rest[i],
        ) is Ok by {
            assert(rest[i] == encodings[i + 1]);
        }
        lemma_parse_flattened(rest);
        assert(seq![v] + decode_each(rest) =~= decode_each(encodings));
    }
}

/// Decoding inverts encoding for collections too. Decoding the encoding of well-formed
/// records gives as many records, in ascending order of their encodings, each with
/// its attribute sets in canonical order; they are the records that were encoded, up
/// to the order of the records and of their attributes, and encode to the same bytes.
pub proof fn lemma_decode_encode_signer_infos(s: Seq<SignerInfoView>)
    requires
        wf_signer_infos(s),
        signer_infos_fit(s),
    ensures
        decode_signer_infos(encode_signer_infos(s)) == Ok::<Seq<SignerInfoView>, DecodeError>(
            decode_each(canonical_order(signer_info_encodings(s))),
        ),
        ({
            let r = decode_each(canonical_order(signer_info_encodings(s)));
            &&& r.len() == s.len()
            &&& wf_signer_infos(r)
            &&& signer_info_encodings(r) == canonical_order(signer_info_encodings(s))
            &&& encode_signer_infos(r) == encode_signer_infos(s)
            &&& r.to_multiset() == s.map_values(|v: SignerInfoView| v.canonical()).to_multiset()
        }),
{
    let given = signer_info_encodings(s);
    let sorted = canonical_order(given);
    let r = decode_each(sorted);
    lemma_canonical_order_flatten_len(given);
    lemma_canonical_order_ensures(given);
    lemma_lex_total_ordering();
    given.lemma_sort_by_ensures(lex_order());
    assert forall|i: int| 0 <= i < sorted.len() implies {
        &&& decode_signer_info(#[trigger] sorted[i]) is Ok
        &&& decode_signer_info(sorted[i])->Ok_0.wf()
        &&& encode_signer_info(decode_signer_info(sorted[i])->Ok_0) == sorted[i]
    } by {
        assert(sorted.contains(sorted[i]));
        assert(given.contains(sorted[i]));
        let j = choose|j: int| 0 <= j < given.len() && given[j] == sorted[i];
        assert(s[j].wf() && s[j].encode_error() is None);
        lemma_decode_encode(s[j]);
        lemma_canonical(s[j]);
    }
    lemma_parse_flattened(sorted);
    lemma_frame_tlv(TAG_SET, sorted.flatten(), Seq::empty());
    assert(signer_info_encodings(r) =~= sorted);
    lemma_canonical_order_unique(sorted, sorted);
    assert(decode_each(given) =~= s.map_values(|v: SignerInfoView| v.canonical())) by {
        assert forall|j: int| 0 <= j < s.len() implies decode_each(given)[j]
            == s[j].canonical() by {
            assert(s[j].wf() && s[j].encode_error() is None);
            lemma_decode_encode(s[j]);
        }
    }
    lemma_map_values_to_multiset(sorted, given, |e: Seq<u8>| decode_signer_info(e)->Ok_0);
}

impl SetOfVec<SignerInfo> {
    /// Every record is well formed.
    pub open spec fn wf(&self) -> bool {
        wf_signer_infos(self@)
    }

    /// The DER encoding of the collection, records in canonical order. The stored
    /// order is not changed. Fails exactly when a record cannot be encoded or the
    /// encodings together are longer than `MAX_LENGTH`.
    pub fn to_der(&self) -> (r: Result<Vec<u8>, EncodeError>)
        ensures
            r is Ok <==> signer_infos_fit(self@),
            r matches Err(e) ==> fails_with(self@, e),
            r matches Ok(v) ==> v@ == encode_signer_infos(self@),
    {
        let items = self.as_slice();
        let mut encodings: Vec<Vec<u8>> = Vec::new();
        let mut i: usize = 0;
        while i < items.len()
            invariant
                i <= items.len(),
                items@.map_values(|e: SignerInfo| e@) == self@,
                byte_strings(encodings@) == signer_info_encodings(self@).subrange(0, i as int),
                forall|j: int| 0 <= j < i ==> (#[trigger] self@[j]).encode_error() is None,
            decreases items.len() - i,
        {
            assert(items@[i as int]@ == self@[i as int]);
            match items[i].to_der() {
                Err(e) => {
                    assert(self@[i as int].encode_error() == Some(e));
                    return Err(e);
                },
                Ok(encoding) => {
                    let ghost before = byte_strings(encodings@);
                    encodings.push(encoding);
                    proof {
                        assert(byte_strings(encodings@) =~= before.push(encoding@));
                        assert(before.push(encoding@) =~= signer_info_encodings(self@).subrange(
                            0,
                            i + 1,
                        ));
                    }
                },
            }
            i += 1;
        }
        assert(signer_info_encodings(self@).subrange(0, i as int) =~= signer_info_encodings(
            self@,
        ));
        let sorted = sort_byte_strings(encodings);
        let content = join_byte_strings(&sorted);
        proof {
            lemma_canonical_order_flatten_len(signer_info_encodings(self@));
        }
        write_tlv(TAG_SET, content.as_slice())
    }

    /// Reads records until `c` is used up and keeps them in the order in which they
    /// stand.
    fn parse_content(c: &[u8]) -> (r: Result<SignerInfos, DecodeError>)
        ensures
            decoded_as(r, parse_signer_infos_content(c@)),
            r is Ok ==> r->Ok_0.wf(),
    {
        let mut set: SignerInfos = SetOfVec::new();
        let mut pos: usize = 0;
        proof {
            assert(c@.skip(0) =~= c@);
            if let Ok(all) = parse_signer_infos_content(c@) {
                assert(Seq::<SignerInfoView>::empty() + all =~= all);
            }
        }
        while pos < c.len()
            invariant
                pos <= c.len(),
                wf_signer_infos(set@),
                parse_signer_infos_content(c@) == prepend(
                    set@,
                    parse_signer_infos_content(c@.skip(pos as int)),
                ),
            decreases c.len() - pos,
        {
            let rest = slice_subrange(c, pos, c.len());
            proof {
                assert(rest@ =~= c@.skip(pos as int));
                lemma_parse_step(c@, pos as int, set@);
            }
            match SignerInfo::parse(rest) {
                Err(e) => {
                    return Err(e);
                },
                Ok((info, used)) => {
                    set.insert(info);
                    pos += used;
                },
            }
        }
        proof {
            assert(parse_signer_infos_content(c@.skip(pos as int)) == Ok::<
                Seq<SignerInfoView>,
                DecodeError,
            >(Seq::empty()));
            assert(set@ + Seq::<SignerInfoView>::empty() =~= set@);
        }
        Ok(set)
    }

    /// Decodes a collection from exactly the bytes `bytes`. The records are kept in
    /// the order in which they stand in `bytes`; that order is not checked.
    pub fn from_der(bytes: &[u8]) -> (r: Result<SignerInfos, DecodeError>)
        ensures
            decoded_as(r, decode_signer_infos(bytes@)),
            r is Ok ==> r->Ok_0.wf(),
    {
        match read_frame(bytes, TAG_SET) {
            Err(e) => Err(e),
            Ok((start, end)) => {
                proof {
                    lemma_frame_canonical(bytes@, TAG_SET);
                }
                match SetOfVec::<SignerInfo>::parse_content(slice_subrange(bytes, start, end)) {
                    Err(e) => Err(e),
                    Ok(set) => if end == bytes.len() {
                        Ok(set)
                    } else {
                        Err(DecodeError::TrailingData)
                    },
                }
            },
        }
    }
}

} // verus!
