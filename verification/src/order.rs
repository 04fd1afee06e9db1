//! The canonical order of a DER `SET OF`: encodings ascending, compared byte by byte.

use vstd::prelude::*;
use vstd::relations::{sorted_by, total_ordering};
use vstd::slice::slice_to_vec;
use vstd::seq_lib::{
    lemma_seq_union_to_multiset_commutative, lemma_sorted_unique, to_multiset_build,
    to_multiset_remove,
};

verus! {

/// `a` comes before `b`, or equals it, in the lexicographic order of unsigned bytes;
/// a proper prefix comes before what it is a prefix of.
pub open spec fn lex_le(a: Seq<u8>, b: Seq<u8>) -> bool
    decreases a.len(),
{
    if a.len() == 0 {
        true
    } else if b.len() == 0 {
        false
    } else if a[0] != b[0] {
        a[0] < b[0]
    } else {
        lex_le(a.drop_first(), b.drop_first())
    }
}

/// `lex_le` as a relation that can be handed to the sequence library.
pub open spec fn lex_order() -> spec_fn(Seq<u8>, Seq<u8>) -> bool {
    |a: Seq<u8>, b: Seq<u8>| lex_le(a, b)
}

/// The byte strings of `s` in ascending order. Equal strings are indistinguishable,
/// so the result is the same for every stable or unstable sort.
pub open spec fn canonical_order(s: Seq<Seq<u8>>) -> Seq<Seq<u8>> {
    s.sort_by(lex_order())
}

/// The contents of each vector of `v`.
pub open spec fn byte_strings(v: Seq<Vec<u8>>) -> Seq<Seq<u8>> {
    v.map_values(|e: Vec<u8>| e@)
}

proof fn lemma_lex_reflexive(a: Seq<u8>)
    ensures
        lex_le(a, a),
    decreases a.len(),
{
    if a.len() > 0 {
        lemma_lex_reflexive(a.drop_first());
    }
}

proof fn lemma_lex_antisymmetric(a: Seq<u8>, b: Seq<u8>)
    requires
        lex_le(a, b),
        lex_le(b, a),
    ensures
        a == b,
    decreases a.len(),
{
    if a.len() > 0 {
        lemma_lex_antisymmetric(a.drop_first(), b.drop_first());
        assert(a =~= seq![a[0]] + a.drop_first());
        assert(b =~= seq![b[0]] + b.drop_first());
    } else {
        assert(a =~= b);
    }
}

proof fn lemma_lex_transitive(a: Seq<u8>, b: Seq<u8>, c: Seq<u8>)
    requires
        lex_le(a, b),
        lex_le(b, c),
    ensures
        lex_le(a, c),
    decreases a.len(),
{
    if a.len() > 0 && a[0] == b[0] && b[0] == c[0] {
        lemma_lex_transitive(a.drop_first(), b.drop_first(), c.drop_first());
    }
}

proof fn lemma_lex_connected(a: Seq<u8>, b: Seq<u8>)
    ensures
        lex_le(a, b) || lex_le(b, a),
    decreases a.len(),
{
    if a.len() > 0 && b.len() > 0 && a[0] == b[0] {
        lemma_lex_connected(a.drop_first(), b.drop_first());
    }
}

/// The lexicographic order of byte strings is a total order.
pub proof fn lemma_lex_total_ordering()
    ensures
        total_ordering(lex_order()),
{
    let r = lex_order();
    assert forall|x: Seq<u8>| #[trigger] r(x, x) by {
        lemma_lex_reflexive(x);
    }
    assert forall|x: Seq<u8>, y: Seq<u8>| #[trigger] r(x, y) && #[trigger] r(y, x) implies x
        == y by {
        lemma_lex_antisymmetric(x, y);
    }
    assert forall|x: Seq<u8>, y: Seq<u8>, z: Seq<u8>| #[trigger]
        r(x, y) && #[trigger] r(y, z) implies r(x, z) by {
        lemma_lex_transitive(x, y, z);
    }
    assert forall|x: Seq<u8>, y: Seq<u8>| #[trigger] r(x, y) || #[trigger] r(y, x) by {
        lemma_lex_connected(x, y);
    }
}

/// The canonical order is ascending and holds each byte string as often as the input.
pub proof fn lemma_canonical_order_ensures(s: Seq<Seq<u8>>)
    ensures
        sorted_by(canonical_order(s), lex_order()),
        canonical_order(s).to_multiset() == s.to_multiset(),
        canonical_order(s).len() == s.len(),
{
    lemma_lex_total_ordering();
    s.lemma_sort_by_ensures(lex_order());
    s.to_multiset_ensures();
    canonical_order(s).to_multiset_ensures();
}

/// An ascending sequence with the elements of `s` is the canonical order of `s`.
pub proof fn lemma_canonical_order_unique(s: Seq<Seq<u8>>, t: Seq<Seq<u8>>)
    requires
        sorted_by(t, lex_order()),
        t.to_multiset() == s.to_multiset(),
    ensures
        t == canonical_order(s),
{
    lemma_lex_total_ordering();
    lemma_canonical_order_ensures(s);
    lemma_sorted_unique(t, canonical_order(s), lex_order());
}

/// The canonical order depends on the elements alone, not on the order they came in.
pub proof fn lemma_canonical_order_of_permutation(s: Seq<Seq<u8>>, t: Seq<Seq<u8>>)
    requires
        s.to_multiset() == t.to_multiset(),
    ensures
        canonical_order(s) == canonical_order(t),
{
    lemma_canonical_order_ensures(s);
    lemma_canonical_order_unique(t, canonical_order(s));
}

/// Putting a sequence in canonical order twice changes nothing more.
pub proof fn lemma_canonical_order_idempotent(s: Seq<Seq<u8>>)
    ensures
        canonical_order(canonical_order(s)) == canonical_order(s),
{
    lemma_canonical_order_ensures(s);
    lemma_canonical_order_unique(canonical_order(s), canonical_order(s));
}

/// Of two byte strings the smaller comes first, in whichever order they were given.
pub proof fn lemma_canonical_order_pair(a: Seq<u8>, b: Seq<u8>)
    requires
        lex_le(a, b),
    ensures
        canonical_order(seq![a, b]) == seq![a, b],
        canonical_order(seq![b, a]) == seq![a, b],
{
    let ab = seq![a, b];
    let ba = seq![b, a];
    assert(sorted_by(ab, lex_order()));
    lemma_canonical_order_unique(ab, ab);
    assert(ba =~= seq![b] + seq![a]);
    assert(ab =~= seq![a] + seq![b]);
    lemma_seq_union_to_multiset_commutative(seq![a], seq![b]);
    lemma_canonical_order_unique(ba, ab);
}

/// Inserting a byte string anywhere adds its length to the length of the whole.
pub proof fn lemma_flatten_len_insert(s: Seq<Seq<u8>>, i: int, x: Seq<u8>)
    requires
        0 <= i <= s.len(),
    ensures
        s.insert(i, x).flatten().len() == s.flatten().len() + x.len(),
    decreases i,
{
    let t = s.insert(i, x);
    if i == 0 {
        assert(t.first() == x);
        assert(t.drop_first() =~= s);
    } else {
        assert(t.first() == s.first());
        assert(t.drop_first() =~= s.drop_first().insert(i - 1, x));
        lemma_flatten_len_insert(s.drop_first(), i - 1, x);
    }
}

/// Byte strings written one after the other take the same number of bytes in
/// whatever order they are written.
pub proof fn lemma_flatten_len_of_permutation(s: Seq<Seq<u8>>, t: Seq<Seq<u8>>)
    requires
        s.to_multiset() == t.to_multiset(),
    ensures
        s.flatten().len() == t.flatten().len(),
    decreases s.len(),
{
    broadcast use vstd::multiset::group_multiset_axioms;

    s.to_multiset_ensures();
    t.to_multiset_ensures();
    if s.len() == 0 {
        assert(s =~= t);
    } else {
        let x = s.last();
        let s1 = s.drop_last();
        assert(s =~= s1.push(x));
        to_multiset_build(s1, x);
        s1.lemma_flatten_push(x);
        assert(s.to_multiset().count(x) > 0);
        assert(t.to_multiset().count(x) > 0);
        assert(t.contains(x));
        let j = choose|j: int| 0 <= j < t.len() && t[j] == x;
        let t1 = t.remove(j);
        to_multiset_remove(t, j);
        assert(s1.to_multiset() =~= t1.to_multiset());
        lemma_flatten_len_of_permutation(s1, t1);
        assert(t =~= t1.insert(j, x));
        lemma_flatten_len_insert(t1, j, x);
    }
}

/// Putting byte strings in canonical order does not change how many bytes they take
/// together.
pub proof fn lemma_canonical_order_flatten_len(s: Seq<Seq<u8>>)
    ensures
        canonical_order(s).flatten().len() == s.flatten().len(),
{
    lemma_canonical_order_ensures(s);
    lemma_flatten_len_of_permutation(canonical_order(s), s);
}

/// Compares two byte strings in the lexicographic order of unsigned bytes.
pub fn bytes_le(a: &[u8], b: &[u8]) -> (r: bool)
    ensures
        r == lex_le(a@, b@),
{
    let mut i: usize = 0;
    assert(a@.skip(0) =~= a@ && b@.skip(0) =~= b@);
    loop
        invariant
            i <= a.len(),
            i <= b.len(),
            lex_le(a@, b@) == lex_le(a@.skip(i as int), b@.skip(i as int)),
        decreases a.len() - i,
    {
        if i == a.len() {
            return true;
        }
        if i == b.len() {
            return false;
        }
        if a[i] != b[i] {
            return a[i] < b[i];
        }
        proof {
            assert(a@.skip(i as int).drop_first() =~= a@.skip(i + 1));
            assert(b@.skip(i as int).drop_first() =~= b@.skip(i + 1));
        }
        i += 1;
    }
}

/// Inserting an element anywhere adds it to the multiset of the elements.
pub proof fn lemma_insert_to_multiset<A>(s: Seq<A>, i: int, x: A)
    requires
        0 <= i <= s.len(),
    ensures
        s.insert(i, x).to_multiset() == s.to_multiset().insert(x),
{
    broadcast use vstd::multiset::group_multiset_axioms;

    let t = s.insert(i, x);
    to_multiset_remove(t, i);
    assert(t.remove(i) =~= s);
    t.to_multiset_ensures();
    assert(t.contains(x)) by {
        assert(t[i] == x);
    }
    assert(t.to_multiset() =~= s.to_multiset().insert(x));
}

/// Two sequences with the same elements still have the same elements after a
/// function has been applied to each element.
pub proof fn lemma_map_values_to_multiset<A, B>(s: Seq<A>, t: Seq<A>, f: spec_fn(A) -> B)
    requires
        s.to_multiset() == t.to_multiset(),
    ensures
        s.map_values(f).to_multiset() == t.map_values(f).to_multiset(),
    decreases s.len(),
{
    broadcast use vstd::multiset::group_multiset_axioms;

    s.to_multiset_ensures();
    t.to_multiset_ensures();
    if s.len() == 0 {
        assert(s.map_values(f) =~= t.map_values(f));
    } else {
        let x = s.last();
        let s1 = s.drop_last();
        assert(s =~= s1.push(x));
        to_multiset_build(s1, x);
        assert(s.contains(x)) by {
            assert(s[s.len() - 1] == x);
        }
        assert(s.to_multiset().count(x) > 0);
        assert(t.to_multiset().count(x) > 0);
        assert(t.contains(x));
        let j = choose|j: int| 0 <= j < t.len() && t[j] == x;
        let t1 = t.remove(j);
        to_multiset_remove(t, j);
        assert(s1.to_multiset() =~= t1.to_multiset());
        lemma_map_values_to_multiset(s1, t1, f);
        assert(s.map_values(f) =~= s1.map_values(f).push(f(x)));
        to_multiset_build(s1.map_values(f), f(x));
        assert(t.map_values(f) =~= t1.map_values(f).insert(j, f(x)));
        lemma_insert_to_multiset(t1.map_values(f), j, f(x));
    }
}

/// Puts byte strings in canonical order.
pub fn sort_byte_strings(v: Vec<Vec<u8>>) -> (r: Vec<Vec<u8>>)
    ensures
        byte_strings(r@) == canonical_order(byte_strings(v@)),
{
    let ghost input = byte_strings(v@);
    let mut rest = v;
    let mut out: Vec<Vec<u8>> = Vec::new();
    assert(byte_strings(out@).to_multiset().add(byte_strings(rest@).to_multiset())
        =~= input.to_multiset()) by {
        broadcast use vstd::multiset::group_multiset_axioms;

        assert(byte_strings(out@) =~= Seq::<Seq<u8>>::empty());
        Seq::<Seq<u8>>::empty().to_multiset_ensures();
        assert(Seq::<Seq<u8>>::empty().to_multiset().len() == 0);
    }
    while rest.len() > 0
        invariant
            sorted_by(byte_strings(out@), lex_order()),
            byte_strings(out@).to_multiset().add(byte_strings(rest@).to_multiset())
                == input.to_multiset(),
        decreases rest.len(),
    {
        let ghost before_rest = byte_strings(rest@);
        let ghost before_out = byte_strings(out@);
        let x = rest.pop().unwrap();
        let mut pos: usize = 0;
        while pos < out.len() && !bytes_le(x.as_slice(), out[pos].as_slice())
            invariant
                pos <= out.len(),
                before_out == byte_strings(out@),
                forall|j: int| 0 <= j < pos ==> lex_le(#[trigger] before_out[j], x@),
            decreases out.len() - pos,
        {
            proof {
                lemma_lex_connected(x@, before_out[pos as int]);
            }
            pos += 1;
        }
        out.insert(pos, x);
        proof {
            let after_out = byte_strings(out@);
            assert(after_out =~= before_out.insert(pos as int, x@));
            assert(before_rest =~= byte_strings(rest@).push(x@));
            lemma_insert_to_multiset(before_out, pos as int, x@);
            to_multiset_build(byte_strings(rest@), x@);
            assert(after_out.to_multiset().add(byte_strings(rest@).to_multiset())
                =~= input.to_multiset()) by {
                broadcast use vstd::multiset::group_multiset_axioms;

            }
            assert forall|i: int, j: int| 0 <= i < j < after_out.len() implies lex_le(
                after_out[i],
                after_out[j],
            ) by {
                if j == pos {
                } else if i == pos {
                    assert(lex_le(x@, before_out[pos as int]));
                    if j - 1 > pos {
                        assert(lex_order()(before_out[pos as int], before_out[j - 1]));
                        lemma_lex_transitive(x@, before_out[pos as int], before_out[j - 1]);
                    }
                } else {
                    let bi = if i < pos {
                        i
                    } else {
                        i - 1
                    };
                    let bj = if j < pos {
                        j
                    } else {
                        j - 1
                    };
                    assert(lex_order()(before_out[bi], before_out[bj]));
                }
            }
        }
    }
    proof {
        assert(byte_strings(rest@) =~= Seq::<Seq<u8>>::empty());
        Seq::<Seq<u8>>::empty().to_multiset_ensures();
        assert(byte_strings(out@).to_multiset() =~= input.to_multiset()) by {
            broadcast use vstd::multiset::group_multiset_axioms;

            assert(Seq::<Seq<u8>>::empty().to_multiset().len() == 0);
        }
        lemma_canonical_order_unique(input, byte_strings(out@));
    }
    out
}

/// Concatenates byte strings in the order they stand in.
pub fn join_byte_strings(v: &Vec<Vec<u8>>) -> (r: Vec<u8>)
    ensures
        r@ == byte_strings(v@).flatten(),
{
    let mut out: Vec<u8> = Vec::new();
    let mut i: usize = 0;
    assert(byte_strings(v@).subrange(0, 0) =~= Seq::<Seq<u8>>::empty());
    while i < v.len()
        invariant
            i <= v.len(),
            out@ == byte_strings(v@).subrange(0, i as int).flatten(),
        decreases v.len() - i,
    {
        let mut copy = slice_to_vec(v[i].as_slice());
        out.append(&mut copy);
        proof {
            let all = byte_strings(v@);
            assert(all.subrange(0, i + 1) =~= all.subrange(0, i as int).push(all[i as int]));
            all.subrange(0, i as int).lemma_flatten_push(all[i as int]);
        }
        i += 1;
    }
    assert(byte_strings(v@).subrange(0, i as int) =~= byte_strings(v@));
    out
}

} // verus!
