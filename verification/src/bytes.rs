//! Text as bytes and back.

use vstd::prelude::*;
use vstd::utf8;

verus! {

/// What `String::from_utf8_lossy` makes of bytes that are not UTF-8.
pub uninterp spec fn repaired(b: Seq<u8>) -> Seq<char>;

/// The text of some bytes: what they encode where they are UTF-8, else the repaired text.
pub open spec fn text_of(b: Seq<u8>) -> Seq<char> {
    if utf8::valid_utf8(b) {
        utf8::decode_utf8(b)
    } else {
        repaired(b)
    }
}

/// `String::from_utf8_lossy`, owned: bytes that are UTF-8 give the text that they encode. Of other
/// bytes the contract says only that the text depends on nothing but the bytes; it does not say
/// where the replacement characters stand.
#[verifier::external_body]
pub(crate) fn lossy(b: &Vec<u8>) -> (r: String)
    ensures
        utf8::valid_utf8(b@) ==> r@ == utf8::decode_utf8(b@),
        !utf8::valid_utf8(b@) ==> r@ == repaired(b@),
{
    String::from_utf8_lossy(b.as_slice()).to_string()
}

/// The UTF-8 bytes of `s`.
pub fn bytes_of(s: &str) -> (r: Vec<u8>)
    ensures
        r@ == utf8::encode_utf8(s@),
{
    let b = s.as_bytes();
    let mut out: Vec<u8> = Vec::new();
    let n = b.len();
    let mut i: usize = 0;
    while i < n
        invariant
            i <= n == b@.len(),
            out@ == b@.take(i as int),
        decreases n - i,
    {
        out.push(b[i]);
        i = i + 1;
        assert(out@ =~= b@.take(i as int));
    }
    assert(b@.take(n as int) =~= b@);
    out
}

/// Appends the UTF-8 bytes of `c`.
pub fn put_char(out: &mut Vec<u8>, c: char)
    ensures
        final(out)@ == old(out)@ + utf8::encode_utf8(seq![c]),
{
    let mut s = String::new();
    s.push(c);
    assert(s@ =~= seq![c]);
    let b = bytes_of(s.as_str());
    let n = b.len();
    let mut i: usize = 0;
    assert(out@ =~= old(out)@ + b@.take(0));
    while i < n
        invariant
            i <= n == b@.len(),
            out@ == old(out)@ + b@.take(i as int),
        decreases n - i,
    {
        out.push(b[i]);
        i = i + 1;
        assert(out@ =~= old(out)@ + b@.take(i as int));
    }
    assert(b@.take(n as int) =~= b@);
}

/// The bytes of two texts in a row are the bytes of the one and then of the other.
pub proof fn lemma_encode_concat(a: Seq<char>, b: Seq<char>)
    ensures
        utf8::encode_utf8(a + b) == utf8::encode_utf8(a) + utf8::encode_utf8(b),
    decreases a.len(),
{
    if a.len() == 0 {
        assert(a + b =~= b);
        assert(utf8::encode_utf8(a) =~= Seq::<u8>::empty());
        assert(utf8::encode_utf8(a) + utf8::encode_utf8(b) =~= utf8::encode_utf8(b));
    } else {
        lemma_encode_concat(a.drop_first(), b);
        assert((a + b).drop_first() =~= a.drop_first() + b);
        assert((a + b)[0] == a[0]);
        assert(utf8::encode_utf8(a + b) =~= utf8::encode_utf8(a) + utf8::encode_utf8(b));
    }
}

/// The text of the bytes of a text is that text.
pub proof fn lemma_text_of_encoded(s: Seq<char>)
    ensures
        text_of(utf8::encode_utf8(s)) == s,
{
    utf8::encode_utf8_valid_utf8(s);
    utf8::encode_utf8_decode_utf8(s);
}

} // verus!
