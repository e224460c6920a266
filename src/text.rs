//! Slicing a string by character positions in constant time, given the byte
//! offsets of those positions in its UTF-8 encoding.
use vstd::prelude::*;
use vstd::utf8::*;

verus! {

/// The number of bytes in the UTF-8 encoding of `c`.
pub fn utf8_width(c: char) -> (r: usize)
    ensures
        r == encode_scalar(c as u32).len(),
{
    proof {
        char_is_scalar(c);
    }
    let v = c as u32;
    if v <= 0x7F {
        1
    } else if v <= 0x7FF {
        2
    } else if v <= 0xFFFF {
        3
    } else {
        4
    }
}

/// Encoding distributes over concatenation.
pub proof fn lemma_encode_utf8_concat(a: Seq<char>, b: Seq<char>)
    ensures
        encode_utf8(a + b) == encode_utf8(a) + encode_utf8(b),
    decreases a.len(),
{
    if a.len() == 0 {
        assert(a + b =~= b);
        assert(encode_utf8(a) + encode_utf8(b) =~= encode_utf8(b));
    } else {
        lemma_encode_utf8_concat(a.drop_first(), b);
        assert((a + b).drop_first() =~= a.drop_first() + b);
        assert((a + b)[0] == a[0]);
        assert(encode_utf8(a + b) =~= encode_utf8(a) + encode_utf8(b));
    }
}

/// Encoding a sequence with one more character appends that character's
/// encoding.
pub proof fn lemma_encode_utf8_push(s: Seq<char>, c: char)
    ensures
        encode_utf8(s.push(c)) == encode_utf8(s) + encode_scalar(c as u32),
{
    lemma_encode_utf8_concat(s, seq![c]);
    assert(s.push(c) =~= s + seq![c]);
    assert(seq![c].drop_first() =~= Seq::<char>::empty());
    assert(encode_utf8(Seq::<char>::empty()) == Seq::<u8>::empty());
    assert(seq![c][0] == c);
    assert(encode_utf8(seq![c]) =~= encode_scalar(c as u32) + Seq::<u8>::empty());
}

/// The encoding of a prefix of the characters ends on a character boundary.
pub proof fn lemma_prefix_ends_on_boundary(s: Seq<char>, k: int)
    requires
        0 <= k <= s.len(),
    ensures
        is_char_boundary(encode_utf8(s), encode_utf8(s.subrange(0, k)).len() as int),
    decreases s.len(),
{
    let bytes = encode_utf8(s);
    encode_utf8_valid_utf8(s);
    if k == 0 {
        assert(s.subrange(0, 0) =~= Seq::<char>::empty());
    } else {
        encode_utf8_first_scalar(s);
        assert(pop_first_scalar(bytes) =~= encode_utf8(s.drop_first()));
        lemma_prefix_ends_on_boundary(s.drop_first(), k - 1);
        assert(s.subrange(0, k).drop_first() =~= s.drop_first().subrange(0, k - 1));
        assert(s =~= s.subrange(0, k) + s.subrange(k, s.len() as int));
        lemma_encode_utf8_concat(s.subrange(0, k), s.subrange(k, s.len() as int));
    }
}

/// Equal encodings come from equal characters.
pub proof fn lemma_encode_utf8_injective(a: Seq<char>, b: Seq<char>)
    requires
        encode_utf8(a) == encode_utf8(b),
    ensures
        a == b,
{
    encode_utf8_decode_utf8(a);
    encode_utf8_decode_utf8(b);
}

/// The part of `s` between character positions `start` and `end`, where
/// `byte_start` and `byte_end` are the lengths in bytes of the characters
/// before those positions.
pub fn char_range<'a>(s: &'a str, start: usize, end: usize, byte_start: usize, byte_end: usize) -> (r: &'a str)
    requires
        start <= end <= s@.len(),
        byte_start == encode_utf8(s@.subrange(0, start as int)).len(),
        byte_end == encode_utf8(s@.subrange(0, end as int)).len(),
    ensures
        r@ == s@.subrange(start as int, end as int),
{
    let ghost upto_end = s@.subrange(0, end as int);
    let ghost upto_start = s@.subrange(0, start as int);
    let ghost middle = s@.subrange(start as int, end as int);
    proof {
        lemma_prefix_ends_on_boundary(s@, end as int);
        assert(s@ =~= upto_end + s@.subrange(end as int, s@.len() as int));
        lemma_encode_utf8_concat(upto_end, s@.subrange(end as int, s@.len() as int));
    }
    let (head, _) = s.split_at(byte_end);
    proof {
        assert(encode_utf8(head@) =~= encode_utf8(upto_end));
        lemma_encode_utf8_injective(head@, upto_end);
        assert(upto_end.subrange(0, start as int) =~= upto_start);
        lemma_prefix_ends_on_boundary(upto_end, start as int);
        assert(upto_end =~= upto_start + middle);
        lemma_encode_utf8_concat(upto_start, middle);
    }
    let (_, part) = head.split_at(byte_start);
    proof {
        assert(encode_utf8(part@) =~= encode_utf8(middle));
        lemma_encode_utf8_injective(part@, middle);
    }
    part
}

} // verus!
