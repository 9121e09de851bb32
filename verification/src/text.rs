//! Texts as sequences of characters, and their sizes in bytes.

use vstd::prelude::*;
use vstd::std_specs::iter::IteratorSpec;
use vstd::string::StringSliceAdditionalSpecFns;
use vstd::utf8::encode_utf8;

verus! {

/// The number of bytes that the UTF-8 encoding of `c` takes.
pub open spec fn utf8_width(c: char) -> nat {
    if (c as u32) < 0x80 {
        1
    } else if (c as u32) < 0x800 {
        2
    } else if (c as u32) < 0x10000 {
        3
    } else {
        4
    }
}

/// The number of bytes that the UTF-8 encoding of `s` takes.
pub open spec fn byte_len(s: Seq<char>) -> nat
    decreases s.len(),
{
    if s.len() == 0 {
        0
    } else {
        byte_len(s.drop_last()) + utf8_width(s.last())
    }
}

/// The texts that a sequence of strings holds, in order.
pub open spec fn views(strings: Seq<String>) -> Seq<Seq<char>> {
    Seq::new(strings.len(), |i: int| strings[i]@)
}

/// The byte length of a concatenation is the sum of the byte lengths.
pub proof fn lemma_byte_len_concat(a: Seq<char>, b: Seq<char>)
    ensures
        byte_len(a + b) == byte_len(a) + byte_len(b),
    decreases b.len(),
{
    if b.len() == 0 {
        assert(a + b =~= a);
    } else {
        assert((a + b).drop_last() =~= a + b.drop_last());
        assert((a + b).last() == b.last());
        lemma_byte_len_concat(a, b.drop_last());
    }
}

/// A prefix of a text takes no more bytes than the text.
pub proof fn lemma_byte_len_prefix(s: Seq<char>, i: int)
    requires
        0 <= i <= s.len(),
    ensures
        byte_len(s.take(i)) <= byte_len(s),
        byte_len(s.take(i)) + byte_len(s.skip(i)) == byte_len(s),
{
    assert(s.take(i) + s.skip(i) =~= s);
    lemma_byte_len_concat(s.take(i), s.skip(i));
}

/// Every character takes at least one byte.
pub proof fn lemma_byte_len_at_least_len(s: Seq<char>)
    ensures
        byte_len(s) >= s.len(),
    decreases s.len(),
{
    if s.len() > 0 {
        lemma_byte_len_at_least_len(s.drop_last());
    }
}

/// A longer prefix of a text takes more bytes.
pub proof fn lemma_byte_len_prefix_grows(s: Seq<char>, i: int, j: int)
    requires
        0 <= i < j <= s.len(),
    ensures
        byte_len(s.take(i)) < byte_len(s.take(j)),
{
    assert(s.take(j) =~= s.take(i) + s.subrange(i, j));
    lemma_byte_len_concat(s.take(i), s.subrange(i, j));
    lemma_byte_len_at_least_len(s.subrange(i, j));
}

/// `byte_len` counts the bytes of the UTF-8 encoding.
pub proof fn lemma_byte_len_is_encoded_len(s: Seq<char>)
    ensures
        byte_len(s) == encode_utf8(s).len(),
    decreases s.len(),
{
    if s.len() == 0 {
    } else {
        let head = seq![s[0]];
        let rest = s.drop_first();
        assert(head + rest =~= s);
        lemma_byte_len_concat(head, rest);
        assert(head.drop_last() =~= Seq::<char>::empty());
        assert(byte_len(head) == utf8_width(s[0])) by {
            assert(byte_len(head.drop_last()) == 0);
            assert(head.last() == s[0]);
        }
        vstd::utf8::char_is_scalar(s[0]);
        lemma_byte_len_is_encoded_len(rest);
    }
}

/// The byte length of a text of one character.
pub proof fn lemma_byte_len_single(text: Seq<char>, i: int)
    requires
        0 <= i < text.len(),
    ensures
        byte_len(text.subrange(i, i + 1)) == utf8_width(text[i]),
{
    let one = text.subrange(i, i + 1);
    assert(one.drop_last() =~= Seq::<char>::empty());
    assert(one.last() == text[i]);
    assert(byte_len(one.drop_last()) == 0);
}

/// Computes the number of bytes that the UTF-8 encoding of `c` takes.
pub fn char_width(c: char) -> (width: usize)
    ensures
        width == utf8_width(c),
{
    let code: u32 = c as u32;
    if code < 0x80 {
        1
    } else if code < 0x800 {
        2
    } else if code < 0x10000 {
        3
    } else {
        4
    }
}

/// `String::push` appends one character to the end of the string.
pub assume_specification[ String::push ](s: &mut String, c: char)
    ensures
        final(s)@ == old(s)@.push(c),
;

/// The characters of `s`, in order.
pub fn chars_of(s: &str) -> (v: Vec<char>)
    ensures
        v@ == s@,
{
    let mut v: Vec<char> = Vec::new();
    for c in it: s.chars()
        invariant
            v@ == it.seq().take(it.index() as int),
            it.seq() == s@,
    {
        v.push(c);
    }
    v
}

/// The number of bytes that `s` takes.
pub fn str_byte_len(s: &str) -> (n: usize)
    ensures
        n == byte_len(s@),
{
    proof {
        lemma_byte_len_is_encoded_len(s@);
    }
    s.as_bytes().len()
}

} // verus!
