//! `SET OF`: a collection that keeps its elements in the order they were given and
//! is written in the canonical order of their encodings.

use crate::element::{
    is_element, lemma_parse_element_round_trip, lemma_parse_element_sound, parse_element,
    Attribute, ElementKind,
};
use crate::error::{decoded_as, DecodeError, EncodeError};
use crate::length::MAX_LENGTH;
use crate::order::{
    byte_strings, canonical_order, join_byte_strings, lemma_canonical_order_ensures,
    lemma_canonical_order_flatten_len, lemma_lex_total_ordering, lex_order, sort_byte_strings,
};
use crate::tlv::{
    frame, lemma_frame_canonical, lemma_frame_tlv, read_frame, tlv, write_tlv, TAG_SET,
};
use vstd::prelude::*;
use vstd::slice::{slice_subrange, slice_to_vec};

verus! {

/// A `SET OF` collection. Elements are kept in insertion order, and equal elements
/// may occur more than once; only encoding puts them in canonical order.
#[derive(Clone, Debug, PartialEq, Eq)]
pub struct SetOfVec<T> {
    inner: Vec<T>,
}

impl<T: View> View for SetOfVec<T> {
    type V = Seq<T::V>;

    closed spec fn view(&self) -> Seq<T::V> {
        self.inner@.map_values(|e: T| e@)
    }
}

impl<T: View> SetOfVec<T> {
    /// An empty collection.
    pub fn new() -> (r: Self)
        ensures
            r@ == Seq::<T::V>::empty(),
    {
        let r = SetOfVec { inner: Vec::new() };
        assert(r@ =~= Seq::<T::V>::empty());
        r
    }

    /// The collection of the items of `items`, in their order.
    pub fn from_vec(items: Vec<T>) -> (r: Self)
        ensures
            r@ == items@.map_values(|e: T| e@),
    {
        SetOfVec { inner: items }
    }

    /// The collection of the items of `items`, in their order, for a field of
    /// `SIZE (1..MAX)`: an empty `items` is refused.
    pub fn non_empty(items: Vec<T>) -> (r: Result<Self, DecodeError>)
        ensures
            items@.len() == 0 ==> r == Err::<Self, DecodeError>(
                DecodeError::EmptyOptionalCollection,
            ),
            items@.len() > 0 ==> r is Ok && r->Ok_0@ == items@.map_values(|e: T| e@),
    {
        if items.len() == 0 {
            Err(DecodeError::EmptyOptionalCollection)
        } else {
            Ok(SetOfVec { inner: items })
        }
    }

    /// Adds `item` behind the elements already there.
    pub fn insert(&mut self, item: T)
        ensures
            final(self)@ == old(self)@.push(item@),
    {
        self.inner.push(item);
        assert(self@ =~= old(self)@.push(item@));
    }

    /// The number of elements.
    pub fn len(&self) -> (r: usize)
        ensures
            r == self@.len(),
    {
        self.inner.len()
    }

    /// Whether the collection holds no element.
    pub fn is_empty(&self) -> (r: bool)
        ensures
            r == (self@.len() == 0),
    {
        self.inner.len() == 0
    }

    /// The element at `index` in insertion order.
    pub fn get(&self, index: usize) -> (r: Option<&T>)
        ensures
            index < self@.len() ==> r is Some && r->Some_0@ == self@[index as int],
            index >= self@.len() ==> r is None,
    {
        if index < self.inner.len() {
            Some(&self.inner[index])
        } else {
            None
        }
    }

    /// The elements in insertion order.
    pub fn as_slice(&self) -> (r: &[T])
        ensures
            r@.map_values(|e: T| e@) == self@,
    {
        self.inner.as_slice()
    }

    /// The elements in insertion order.
    pub fn into_vec(self) -> (r: Vec<T>)
        ensures
            r@.map_values(|e: T| e@) == self@,
    {
        self.inner
    }
}

/// The elements of an optional collection, where it is present.
pub open spec fn optional_view<T: View>(set: Option<SetOfVec<T>>) -> Option<Seq<T::V>> {
    match set {
        None => None,
        Some(s) => Some(s@),
    }
}

/// `front` put before the elements of a successful `tail`; an error stays.
pub open spec fn prepend<V>(front: Seq<V>, tail: Result<Seq<V>, DecodeError>) -> Result<
    Seq<V>,
    DecodeError,
> {
    match tail {
        Err(e) => Err(e),
        Ok(rest) => Ok(front + rest),
    }
}

/// Every element is the encoding of an attribute.
pub open spec fn wf_attributes(attributes: Seq<Seq<u8>>) -> bool {
    forall|i: int| 0 <= i < attributes.len() ==> is_element(
        ElementKind::Attribute,
        #[trigger] attributes[i],
    )
}

/// An attribute set that is present holds at least one element, and every element is
/// the encoding of an attribute.
pub open spec fn wf_optional_attributes(attributes: Option<Seq<Seq<u8>>>) -> bool {
    attributes matches Some(a) ==> a.len() > 0 && wf_attributes(a)
}

/// The attribute set in canonical order, if it is present.
pub open spec fn canonical_attributes(attributes: Option<Seq<Seq<u8>>>) -> Option<Seq<Seq<u8>>> {
    match attributes {
        None => None,
        Some(a) => Some(canonical_order(a)),
    }
}

/// The bytes of an optional attribute set under the implicit tag `tag`, elements in
/// the order given: nothing where the set is absent.
pub open spec fn serialize_optional_attributes(
    tag: u8,
    attributes: Option<Seq<Seq<u8>>>,
) -> Seq<u8> {
    match attributes {
        None => Seq::empty(),
        Some(a) => tlv(tag, a.flatten()),
    }
}

/// Reads attributes until `c` is used up, in the order in which they stand.
pub open spec fn parse_attributes(c: Seq<u8>) -> Result<Seq<Seq<u8>>, DecodeError>
    decreases c.len(),
{
    if c.len() == 0 {
        Ok(Seq::empty())
    } else {
        match parse_element(c, ElementKind::Attribute) {
            Err(e) => Err(e),
            Ok((attribute, used)) => prepend(
                seq![attribute],
                parse_attributes(c.skip(used as int)),
            ),
        }
    }
}

/// Reads an optional attribute set under the implicit tag `tag` from the front of `b`.
/// The set is present exactly when the next identifier octet is `tag`; a present set
/// without elements is refused.
pub open spec fn parse_optional_attributes(b: Seq<u8>, tag: u8) -> Result<
    (Option<Seq<Seq<u8>>>, nat),
    DecodeError,
> {
    if b.len() == 0 || b[0] != tag {
        Ok((None, 0))
    } else {
        match frame(b, tag) {
            Err(e) => Err(e),
            Ok((start, end)) => if start == end {
                Err(DecodeError::EmptyOptionalCollection)
            } else {
                match parse_attributes(b.subrange(start as int, end as int)) {
                    Err(e) => Err(e),
                    Ok(attributes) => Ok((Some(attributes), end)),
                }
            },
        }
    }
}

/// Decodes `b` as one SET of attributes and nothing more. The attributes are taken in
/// the order in which they stand; the set may be empty.
pub open spec fn decode_attribute_set(b: Seq<u8>) -> Result<Seq<Seq<u8>>, DecodeError> {
    match frame(b, TAG_SET) {
        Err(e) => Err(e),
        Ok((start, end)) => match parse_attributes(b.subrange(start as int, end as int)) {
            Err(e) => Err(e),
            Ok(attributes) => if end == b.len() {
                Ok(attributes)
            } else {
                Err(DecodeError::TrailingData)
            },
        },
    }
}

/// Attributes written one after the other are read back as they were written.
pub proof fn lemma_parse_attributes_round_trip(attributes: Seq<Seq<u8>>)
    requires
        wf_attributes(attributes),
    ensures
        parse_attributes(attributes.flatten()) == Ok::<Seq<Seq<u8>>, DecodeError>(attributes),
        attributes.len() > 0 ==> attributes.flatten().len() > 0,
    decreases attributes.len(),
{
    if attributes.len() == 0 {
        assert(attributes =~= Seq::<Seq<u8>>::empty());
    } else {
        let first = attributes.first();
        let rest = attributes.drop_first();
        let c = attributes.flatten();
        assert(c == first + rest.flatten());
        assert(is_element(ElementKind::Attribute, first));
        lemma_parse_element_round_trip(ElementKind::Attribute, first, rest.flatten());
        lemma_parse_element_sound(ElementKind::Attribute, c);
        assert(c.skip(first.len() as int) =~= rest.flatten());
        lemma_parse_attributes_round_trip(rest);
        assert(seq![first] + rest =~= attributes);
    }
}

/// What is read as attributes are attributes, and written one after the other they
/// give the input back.
pub proof fn lemma_parse_attributes_sound(c: Seq<u8>)
    requires
        parse_attributes(c) is Ok,
    ensures
        wf_attributes(parse_attributes(c)->Ok_0),
        parse_attributes(c)->Ok_0.flatten() == c,
        c.len() > 0 ==> parse_attributes(c)->Ok_0.len() > 0,
    decreases c.len(),
{
    if c.len() == 0 {
        assert(c =~= Seq::<Seq<u8>>::empty().flatten());
    } else {
        let (attribute, used) = parse_element(c, ElementKind::Attribute)->Ok_0;
        lemma_parse_element_sound(ElementKind::Attribute, c);
        lemma_parse_attributes_sound(c.skip(used as int));
        let rest = parse_attributes(c.skip(used as int))->Ok_0;
        let all = seq![attribute] + rest;
        assert(all.first() == attribute);
        assert(all.drop_first() =~= rest);
        assert(all.flatten() =~= c);
    }
}

/// An optional attribute set is read back from its bytes. Where the set is absent,
/// what follows must not start with the tag of the set.
pub proof fn lemma_parse_optional_attributes_round_trip(
    tag: u8,
    attributes: Option<Seq<Seq<u8>>>,
    rest: Seq<u8>,
)
    requires
        wf_optional_attributes(attributes),
        attributes matches Some(a) ==> a.flatten().len() <= MAX_LENGTH,
        attributes is None ==> rest.len() == 0 || rest[0] != tag,
    ensures
        parse_optional_attributes(serialize_optional_attributes(tag, attributes) + rest, tag)
            == Ok::<(Option<Seq<Seq<u8>>>, nat), DecodeError>(
            (attributes, serialize_optional_attributes(tag, attributes).len()),
        ),
{
    match attributes {
        None => {
            assert(serialize_optional_attributes(tag, attributes) + rest =~= rest);
        },
        Some(a) => {
            lemma_frame_tlv(tag, a.flatten(), rest);
            lemma_parse_attributes_round_trip(a);
            assert((tlv(tag, a.flatten()) + rest)[0] == tag);
        },
    }
}

/// What is read as an optional attribute set is well formed, and its bytes are the
/// front of the input.
pub proof fn lemma_parse_optional_attributes_sound(b: Seq<u8>, tag: u8)
    requires
        parse_optional_attributes(b, tag) is Ok,
    ensures
        ({
            let (attributes, used) = parse_optional_attributes(b, tag)->Ok_0;
            &&& wf_optional_attributes(attributes)
            &&& used <= b.len()
            &&& b.subrange(0, used as int) == serialize_optional_attributes(tag, attributes)
            &&& attributes matches Some(a) ==> a.flatten().len() <= MAX_LENGTH
            &&& attributes is None ==> b.len() == 0 || b[0] != tag
        }),
{
    let (attributes, used) = parse_optional_attributes(b, tag)->Ok_0;
    if b.len() == 0 || b[0] != tag {
        assert(b.subrange(0, 0) =~= Seq::<u8>::empty());
    } else {
        lemma_frame_canonical(b, tag);
        let (start, end) = frame(b, tag)->Ok_0;
        lemma_parse_attributes_sound(b.subrange(start as int, end as int));
    }
}

/// A canonically ordered attribute set is well formed if the set it came from is.
pub proof fn lemma_canonical_attributes_wf(attributes: Option<Seq<Seq<u8>>>)
    requires
        wf_optional_attributes(attributes),
    ensures
        wf_optional_attributes(canonical_attributes(attributes)),
{
    if let Some(a) = attributes {
        let sorted = canonical_order(a);
        lemma_canonical_order_ensures(a);
        lemma_lex_total_ordering();
        a.lemma_sort_by_ensures(lex_order());
        assert forall|i: int| 0 <= i < sorted.len() implies is_element(
            ElementKind::Attribute,
            #[trigger] sorted[i],
        ) by {
            assert(sorted.contains(sorted[i]));
            assert(a.contains(sorted[i]));
            let j = choose|j: int| 0 <= j < a.len() && a[j] == sorted[i];
            assert(is_element(ElementKind::Attribute, a[j]));
        }
    }
}

impl SetOfVec<Attribute> {
    /// Every element is the encoding of an attribute.
    pub open spec fn wf(&self) -> bool {
        wf_attributes(self@)
    }

    /// A copy of the encoding of each element, in insertion order.
    pub fn encodings(&self) -> (r: Vec<Vec<u8>>)
        ensures
            byte_strings(r@) == self@,
    {
        let mut out: Vec<Vec<u8>> = Vec::new();
        let mut i: usize = 0;
        while i < self.inner.len()
            invariant
                i <= self.inner.len(),
                byte_strings(out@) == self@.subrange(0, i as int),
            decreases self.inner.len() - i,
        {
            let ghost before = byte_strings(out@);
            let copy = slice_to_vec(self.inner[i].as_bytes());
            out.push(copy);
            proof {
                assert(byte_strings(out@) =~= before.push(copy@));
                assert(self@[i as int] == self.inner@[i as int]@);
                assert(before.push(copy@) =~= self@.subrange(0, i + 1));
            }
            i += 1;
        }
        assert(self@.subrange(0, i as int) =~= self@);
        out
    }

    /// The contents octets of the set: the encodings of the elements in canonical order.
    pub fn content_to_der(&self) -> (r: Vec<u8>)
        ensures
            r@ == canonical_order(self@).flatten(),
    {
        let sorted = sort_byte_strings(self.encodings());
        join_byte_strings(&sorted)
    }

    /// Reads attributes until `c` is used up and keeps them in the order in which they
    /// stand; that order is not checked.
    pub fn parse_content(c: &[u8]) -> (r: Result<SetOfVec<Attribute>, DecodeError>)
        ensures
            decoded_as(r, parse_attributes(c@)),
            r is Ok ==> r->Ok_0.wf(),
    {
        let mut items: Vec<Attribute> = Vec::new();
        let mut pos: usize = 0;
        assert(c@.skip(0) =~= c@);
        assert(items@.map_values(|e: Attribute| e@) =~= Seq::<Seq<u8>>::empty());
        assert(Seq::<Seq<u8>>::empty() + parse_attributes(c@)->Ok_0 =~= parse_attributes(
            c@,
        )->Ok_0);
        while pos < c.len()
            invariant
                pos <= c.len(),
                wf_attributes(items@.map_values(|e: Attribute| e@)),
                parse_attributes(c@) == prepend(
                    items@.map_values(|e: Attribute| e@),
                    parse_attributes(c@.skip(pos as int)),
                ),
            decreases c.len() - pos,
        {
            let rest = slice_subrange(c, pos, c.len());
            assert(rest@ =~= c@.skip(pos as int));
            match Attribute::parse(rest) {
                Err(e) => {
                    return Err(e);
                },
                Ok((attribute, used)) => {
                    let ghost before = items@.map_values(|e: Attribute| e@);
                    proof {
                        lemma_parse_element_sound(ElementKind::Attribute, rest@);
                        assert(rest@.skip(used as int) =~= c@.skip(pos + used));
                    }
                    items.push(attribute);
                    proof {
                        let after = items@.map_values(|e: Attribute| e@);
                        assert(after =~= before.push(attribute@));
                        let tail = parse_attributes(c@.skip(pos + used));
                        if tail is Ok {
                            assert(before + (seq![attribute@] + tail->Ok_0) =~= after
                                + tail->Ok_0);
                        }
                    }
                    pos += used;
                },
            }
        }
        let r = SetOfVec { inner: items };
        proof {
            assert(parse_attributes(c@.skip(pos as int)) == Ok::<Seq<Seq<u8>>, DecodeError>(
                Seq::empty(),
            ));
            assert(r@ + Seq::<Seq<u8>>::empty() =~= r@);
        }
        Ok(r)
    }

    /// Reads an optional attribute set under the implicit tag `tag` from the front of
    /// `b`; the second component is the number of bytes it takes, zero where the set is
    /// absent.
    pub fn parse_optional(b: &[u8], tag: u8) -> (r: Result<
        (Option<SetOfVec<Attribute>>, usize),
        DecodeError,
    >)
        ensures
            match r {
                Ok((set, used)) => parse_optional_attributes(b@, tag) == Ok::<
                    (Option<Seq<Seq<u8>>>, nat),
                    DecodeError,
                >((optional_view(set), used as nat)) && wf_optional_attributes(
                    optional_view(set),
                ),
                Err(e) => parse_optional_attributes(b@, tag) == Err::<
                    (Option<Seq<Seq<u8>>>, nat),
                    DecodeError,
                >(e),
            },
    {
        if b.len() == 0 || b[0] != tag {
            return Ok((None, 0));
        }
        match read_frame(b, tag) {
            Err(e) => Err(e),
            Ok((start, end)) => {
                if start == end {
                    return Err(DecodeError::EmptyOptionalCollection);
                }
                proof {
                    lemma_frame_canonical(b@, tag);
                }
                let content = slice_subrange(b, start, end);
                match SetOfVec::<Attribute>::parse_content(content) {
                    Err(e) => Err(e),
                    Ok(set) => {
                        proof {
                            lemma_parse_attributes_sound(content@);
                        }
                        Ok((Some(set), end))
                    },
                }
            },
        }
    }

    /// The DER encoding of the set under its own tag, elements in canonical order.
    /// Fails exactly when the elements together are longer than `MAX_LENGTH`.
    pub fn to_der(&self) -> (r: Result<Vec<u8>, EncodeError>)
        ensures
            r is Ok <==> self@.flatten().len() <= MAX_LENGTH,
            r matches Ok(v) ==> v@ == tlv(TAG_SET, canonical_order(self@).flatten()),
            r matches Err(e) ==> e == EncodeError::Overflow,
    {
        self.to_der_tagged(TAG_SET)
    }

    /// Decodes a set from exactly the bytes `bytes`: a SET of attributes, kept in the
    /// order in which they stand; that order is not checked.
    pub fn from_der(bytes: &[u8]) -> (r: Result<SetOfVec<Attribute>, DecodeError>)
        ensures
            decoded_as(r, decode_attribute_set(bytes@)),
            r is Ok ==> r->Ok_0.wf(),
    {
        match read_frame(bytes, TAG_SET) {
            Err(e) => Err(e),
            Ok((start, end)) => {
                proof {
                    lemma_frame_canonical(bytes@, TAG_SET);
                }
                match SetOfVec::<Attribute>::parse_content(slice_subrange(bytes, start, end)) {
                    Err(e) => Err(e),
                    Ok(set) => if end == bytes.len() {
                        Ok(set)
                    } else {
                        Err(DecodeError::TrailingData)
                    },
                }
            },
        }
    }

    /// The bytes of the set under the implicit tag `tag`, elements in canonical order.
    /// Fails exactly when the elements together are longer than `MAX_LENGTH`.
    pub fn to_der_tagged(&self, tag: u8) -> (r: Result<Vec<u8>, EncodeError>)
        ensures
            r is Ok <==> self@.flatten().len() <= MAX_LENGTH,
            r matches Ok(v) ==> v@ == tlv(tag, canonical_order(self@).flatten()),
            r matches Err(e) ==> e == EncodeError::Overflow,
    {
        let content = self.content_to_der();
        proof {
            lemma_canonical_order_flatten_len(self@);
        }
        write_tlv(tag, content.as_slice())
    }
}

} // verus!
