//! DER definite-length octets (X.690, sections 8.1.3 and 10.1).
//!
//! The octets are written and read by the `der` crate; this module states what that
//! crate does as two short spec functions and proves that they are inverse to each other.

use vstd::prelude::*;

verus! {

/// The largest length that the codec writes or accepts (256 MiB - 1).
pub const MAX_LENGTH: u32 = 0x0fff_ffff;

/// Number of octets that follow the initial octet in the long form for `n >= 0x80`.
pub open spec fn long_form_width(n: nat) -> nat {
    if n < 0x100 {
        1
    } else if n < 0x1_0000 {
        2
    } else if n < 0x100_0000 {
        3
    } else {
        4
    }
}

/// The big-endian number that a byte string spells.
pub open spec fn be_value(b: Seq<u8>) -> nat
    decreases b.len(),
{
    if b.len() == 0 {
        0
    } else {
        be_value(b.drop_last()) * 0x100 + b.last() as nat
    }
}

/// The `width` low-order bytes of `n`, most significant first.
pub open spec fn be_octets(n: nat, width: nat) -> Seq<u8>
    decreases width,
{
    if width == 0 {
        Seq::empty()
    } else {
        be_octets(n / 0x100, (width - 1) as nat).push((n % 0x100) as u8)
    }
}

/// The length octets of `n`: the short form below `0x80`, else the minimal long form.
pub open spec fn length_octets(n: nat) -> Seq<u8> {
    if n < 0x80 {
        seq![n as u8]
    } else {
        seq![(0x80 + long_form_width(n)) as u8] + be_octets(n, long_form_width(n))
    }
}

/// Reads length octets from the front of `b`: the length and the number of octets read.
/// `None` where `b` is empty or cut short, for the indefinite form `0x80`, for a long
/// form of more than four octets, for a length above `MAX_LENGTH`, and for a long form
/// that is not minimal.
pub open spec fn parse_length(b: Seq<u8>) -> Option<(nat, nat)> {
    if b.len() == 0 {
        None
    } else if b[0] < 0x80 {
        Some((b[0] as nat, 1nat))
    } else if 0x81 <= b[0] <= 0x84 {
        let width = (b[0] - 0x80) as nat;
        if b.len() < 1 + width {
            None
        } else {
            let n = be_value(b.subrange(1, 1 + width as int));
            if 0x80 <= n <= MAX_LENGTH && long_form_width(n) == width {
                Some((n, 1 + width))
            } else {
                None
            }
        }
    } else {
        None
    }
}

/// Reading back what `be_octets` wrote gives the number, if it fits in `width` bytes.
pub proof fn lemma_be_round_trip(n: nat, width: nat)
    requires
        width <= 4,
        width == 0 ==> n == 0,
        width == 1 ==> n < 0x100,
        width == 2 ==> n < 0x1_0000,
        width == 3 ==> n < 0x100_0000,
        width == 4 ==> n < 0x1_0000_0000,
    ensures
        be_octets(n, width).len() == width,
        be_value(be_octets(n, width)) == n,
    decreases width,
{
    if width > 0 {
        let rest = be_octets(n / 0x100, (width - 1) as nat);
        lemma_be_round_trip(n / 0x100, (width - 1) as nat);
        assert(be_octets(n, width).drop_last() =~= rest);
    }
}

/// Writing the number that `b` spells, in as many bytes as `b` has, gives `b` back.
pub proof fn lemma_be_octets_of_value(b: Seq<u8>)
    ensures
        be_octets(be_value(b), b.len()) == b,
    decreases b.len(),
{
    if b.len() > 0 {
        lemma_be_octets_of_value(b.drop_last());
        let n = be_value(b);
        assert(n / 0x100 == be_value(b.drop_last()));
        assert(n % 0x100 == b.last() as nat);
        assert(be_octets(n, b.len()) =~= b);
    } else {
        assert(be_octets(be_value(b), b.len()) =~= b);
    }
}

/// The length octets of `n` are between one and five bytes.
pub proof fn lemma_length_octets_len(n: nat)
    requires
        n <= MAX_LENGTH,
    ensures
        1 <= length_octets(n).len() <= 5,
        n < 0x80 ==> length_octets(n).len() == 1,
        n >= 0x80 ==> length_octets(n).len() == 1 + long_form_width(n),
{
    if n >= 0x80 {
        lemma_be_round_trip(n, long_form_width(n));
    }
}

/// Length octets read back to the length they were written for, whatever follows them.
pub proof fn lemma_parse_length_octets(n: nat, rest: Seq<u8>)
    requires
        n <= MAX_LENGTH,
    ensures
        parse_length(length_octets(n) + rest) == Some((n, length_octets(n).len())),
{
    let b = length_octets(n) + rest;
    lemma_length_octets_len(n);
    if n >= 0x80 {
        let width = long_form_width(n);
        lemma_be_round_trip(n, width);
        assert(b[0] == (0x80 + width) as u8);
        assert(b.subrange(1, 1 + width as int) =~= be_octets(n, width));
    } else {
        assert(b[0] == n as u8);
    }
}

/// What `parse_length` accepts is exactly what `length_octets` writes: the octets
/// read are the length octets of the length returned.
pub proof fn lemma_parse_length_canonical(b: Seq<u8>)
    requires
        parse_length(b) is Some,
    ensures
        ({
            let (n, used) = parse_length(b)->Some_0;
            &&& n <= MAX_LENGTH
            &&& 1 <= used <= 5
            &&& used <= b.len()
            &&& b.subrange(0, used as int) == length_octets(n)
        }),
{
    let (n, used) = parse_length(b)->Some_0;
    if b[0] < 0x80 {
        assert(b.subrange(0, 1) =~= seq![b[0]]);
    } else {
        let width = (b[0] - 0x80) as nat;
        let body = b.subrange(1, 1 + width as int);
        lemma_be_octets_of_value(body);
        assert(b.subrange(0, used as int) =~= seq![b[0]] + body);
    }
}

/// `parse_length` looks at no more than the first five bytes.
pub proof fn lemma_parse_length_window(b: Seq<u8>, k: int)
    requires
        0 <= k <= b.len(),
        k >= 5 || k == b.len(),
    ensures
        parse_length(b.subrange(0, k)) == parse_length(b),
{
    let w = b.subrange(0, k);
    if w.len() > 0 && 0x81 <= w[0] <= 0x84 {
        let width = (w[0] - 0x80) as nat;
        if w.len() >= 1 + width {
            assert(w.subrange(1, 1 + width as int) =~= b.subrange(1, 1 + width as int));
        }
    }
}

/// Writes the length octets of `n` with `der::Length::try_from` and `der::Encode::to_der`.
/// The contract states what `Length::encode` writes: one octet below `0x80`, else the
/// initial octet `0x80 + width` and the big-endian value without leading zero bytes;
/// and that `Length::try_from` refuses exactly the values above `Length::MAX`.
#[verifier::external_body]
pub(crate) fn write_length(n: u32) -> (r: Option<Vec<u8>>)
    ensures
        r is Some <==> n <= MAX_LENGTH,
        r matches Some(v) ==> v@ == length_octets(n as nat),
{
    let length = der::Length::try_from(n).ok()?;
    der::Encode::to_der(&length).ok()
}

/// Reads length octets from the front of `bytes` with `der::Length::decode` on a
/// `der::SliceReader`, and returns the length with the reader's position after it.
/// The contract states the cases of `Length::decode`: a first octet below `0x80` is the
/// length; `0x81` to `0x84` announce one to four big-endian octets, accepted when the
/// value is at most `Length::MAX` and could not have been written shorter; everything
/// else, and running out of input, is an error. `SliceReader::new` itself refuses a
/// slice longer than `Length::MAX`.
#[verifier::external_body]
pub(crate) fn read_length(bytes: &[u8]) -> (r: Option<(u32, usize)>)
    ensures
        r is Some <==> (bytes@.len() <= MAX_LENGTH && parse_length(bytes@) is Some),
        r is Some ==> parse_length(bytes@) == Some((r->Some_0.0 as nat, r->Some_0.1 as nat)),
{
    let mut reader = der::SliceReader::new(bytes).ok()?;
    let length = <der::Length as der::Decode>::decode(&mut reader).ok()?;
    let used = usize::try_from(der::Reader::position(&reader)).ok()?;
    Some((u32::from(length), used))
}

} // verus!
