//! Character-level helpers shared by the scanner, the parser and the table.
use vstd::prelude::*;
use vstd::string::StringSliceAdditionalSpecFns;
use vstd::utf8::*;

verus! {

/// The characters of `s`, in order.
pub fn chars_of(s: &str) -> (r: Vec<char>)
    ensures
        r@ == s@,
{
    let mut r: Vec<char> = Vec::new();
    for c in it: s.chars()
        invariant
            it.seq() == s@,
            r@ == it.seq().take(it.index() as int),
    {
        r.push(c);
    }
    r
}

/// Relies on `String::push`: appends one character at the end.
#[verifier::external_body]
pub fn push_char(s: &mut String, c: char)
    ensures
        final(s)@ == old(s)@.push(c),
{
    s.push(c)
}

/// The number of bytes of the UTF-8 encoding of `s`.
pub open spec fn utf8_len(s: Seq<char>) -> nat {
    encode_utf8(s).len()
}

/// Encoding a concatenation encodes each part in turn.
pub proof fn lemma_encode_concat(a: Seq<char>, b: Seq<char>)
    ensures
        encode_utf8(a + b) == encode_utf8(a) + encode_utf8(b),
    decreases a.len(),
{
    if a.len() == 0 {
        assert(a + b =~= b);
        assert(encode_utf8(a) =~= Seq::<u8>::empty());
        assert(encode_utf8(a) + encode_utf8(b) =~= encode_utf8(b));
    } else {
        assert((a + b).drop_first() =~= a.drop_first() + b);
        assert((a + b)[0] == a[0]);
        lemma_encode_concat(a.drop_first(), b);
        assert(encode_utf8(a + b) =~= encode_utf8(a) + encode_utf8(b));
    }
}

/// The encoding of a prefix ends on a character boundary.
pub proof fn lemma_prefix_boundary(a: Seq<char>, b: Seq<char>)
    ensures
        is_char_boundary(encode_utf8(a + b), encode_utf8(a).len() as int),
    decreases a.len(),
{
    broadcast use encode_utf8_valid_utf8;

    if a.len() > 0 {
        let ab = a + b;
        let bytes = encode_utf8(ab);
        encode_utf8_first_scalar(ab);
        assert(pop_first_scalar(bytes) =~= encode_utf8(ab.drop_first()));
        assert(ab.drop_first() =~= a.drop_first() + b);
        assert(ab[0] == a[0]);
        lemma_prefix_boundary(a.drop_first(), b);
        lemma_encode_concat(a, b);
    }
}

/// A string's characters are what its bytes decode to.
pub proof fn lemma_view_from_bytes(s: &str)
    ensures
        s@ == decode_utf8(s.spec_bytes()),
{
    encode_utf8_decode_utf8(s@);
}

/// The part of `s` that starts `from` characters in and ends `to` characters in, where the
/// two byte offsets `b_from` and `b_to` mark the same places.
pub fn substring<'a>(s: &'a str, from: Ghost<int>, to: Ghost<int>, b_from: usize, b_to: usize) -> (r: &'a str)
    requires
        0 <= from@ <= to@ <= s@.len(),
        b_from == utf8_len(s@.take(from@)),
        b_to == utf8_len(s@.take(to@)),
    ensures
        r@ == s@.subrange(from@, to@),
{
    let ghost a = s@.take(from@);
    let ghost m = s@.subrange(from@, to@);
    let ghost z = s@.skip(to@);
    proof {
        assert(s@ =~= a + (m + z));
        assert(s@.take(to@) =~= a + m);
        lemma_prefix_boundary(a, m + z);
        lemma_encode_concat(a, m + z);
        lemma_encode_concat(a, m);
        lemma_encode_concat(m, z);
        lemma_prefix_boundary(m, z);
    }
    let (_, tail) = s.split_at(b_from);
    proof {
        assert(tail.spec_bytes() =~= encode_utf8(m + z));
        lemma_view_from_bytes(tail);
        encode_utf8_decode_utf8(m + z);
    }
    let (mid, _) = tail.split_at(b_to - b_from);
    proof {
        assert(mid.spec_bytes() =~= encode_utf8(m));
        lemma_view_from_bytes(mid);
        encode_utf8_decode_utf8(m);
    }
    mid
}

/// The number of bytes of the UTF-8 encoding of `c`.
pub fn char_width(c: char) -> (r: usize)
    ensures
        r == utf8_len(seq![c]),
        1 <= r <= 4,
{
    let u = c as u32;
    proof {
        char_is_scalar(c);
        reveal_with_fuel(encode_utf8, 2);
        assert(seq![c].drop_first() =~= Seq::<char>::empty());
        assert(seq![c][0] == c);
        assert(encode_utf8(seq![c]) =~= encode_scalar(u));
    }
    if u <= 0x7F {
        1
    } else if u <= 0x7FF {
        2
    } else if u <= 0xFFFF {
        3
    } else {
        4
    }
}

} // verus!
