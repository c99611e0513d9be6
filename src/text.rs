//! Characters, their UTF-8 bytes, and slices of the input.
use vstd::prelude::*;
use vstd::utf8::*;
use vstd::string::StringSliceAdditionalSpecFns;
use crate::model::{is_ws, width};

verus! {

broadcast use {vstd::utf8::encode_utf8_valid_utf8, vstd::utf8::encode_utf8_decode_utf8};

/// Whether `c` is white space in the sense of `char::is_whitespace`.
pub fn is_whitespace(c: char) -> (r: bool)
    ensures
        r == is_ws(c),
{
    ('\u{9}' <= c && c <= '\u{d}') || c == ' ' || c == '\u{85}' || c == '\u{a0}' || c
        == '\u{1680}' || ('\u{2000}' <= c && c <= '\u{200a}') || c == '\u{2028}' || c
        == '\u{2029}' || c == '\u{202f}' || c == '\u{205f}' || c == '\u{3000}'
}

/// Number of bytes of `c` in UTF-8.
pub fn utf8_width(c: char) -> (r: usize)
    ensures
        r == width(c),
        1 <= r <= 4,
{
    let u = c as u32;
    proof {
        char_is_scalar(c);
    }
    if u <= 0x7F {
        1
    } else if u <= 0x7FF {
        2
    } else if u <= 0xFFFF {
        3
    } else {
        4
    }
}

/// The encoding of a concatenation is the concatenation of the encodings.
pub proof fn lemma_encode_concat(a: Seq<char>, b: Seq<char>)
    ensures
        encode_utf8(a + b) == encode_utf8(a) + encode_utf8(b),
    decreases a.len(),
{
    if a.len() == 0 {
        assert(a + b =~= b);
        assert(encode_utf8(a) =~= Seq::<u8>::empty());
        assert(encode_utf8(a) + encode_utf8(b) =~= encode_utf8(b));
    } else {
        assert((a + b).drop_first() =~= a.drop_first() + b);
        lemma_encode_concat(a.drop_first(), b);
        assert((a + b)[0] == a[0]);
        assert(encode_utf8(a + b) =~= encode_scalar(a[0] as u32) + encode_utf8(a.drop_first() + b));
        assert(encode_utf8(a) =~= encode_scalar(a[0] as u32) + encode_utf8(a.drop_first()));
    }
}

/// The encoding of one character.
pub proof fn lemma_encode_one(c: char)
    ensures
        encode_utf8(seq![c]) == encode_scalar(c as u32),
        encode_utf8(seq![c]).len() == width(c),
{
    assert(seq![c].drop_first() =~= Seq::<char>::empty());
    assert(encode_utf8(seq![c]) =~= encode_scalar(c as u32) + encode_utf8(Seq::<char>::empty()));
}

/// The end of an encoded prefix is a character boundary.
pub proof fn lemma_boundary_concat(a: Seq<char>, b: Seq<char>)
    ensures
        is_char_boundary(encode_utf8(a + b), encode_utf8(a).len() as int),
    decreases a.len(),
{
    lemma_encode_concat(a, b);
    if a.len() == 0 {
    } else {
        let bytes = encode_utf8(a + b);
        encode_utf8_first_scalar(a + b);
        assert((a + b)[0] == a[0]);
        assert((a + b).drop_first() =~= a.drop_first() + b);
        lemma_boundary_concat(a.drop_first(), b);
        lemma_encode_concat(a.drop_first(), b);
        assert(pop_first_scalar(bytes) =~= encode_utf8(a.drop_first() + b));
        assert(encode_utf8(a).len() == encode_scalar(a[0] as u32).len() + encode_utf8(
            a.drop_first(),
        ).len());
    }
}

/// The byte offset of the character at index `i` of `s`.
pub open spec fn offset(s: Seq<char>, i: int) -> nat {
    encode_utf8(s.take(i)).len()
}

/// Facts on the character at index `i` of `s` and the bytes around it.
pub proof fn lemma_char_at(s: Seq<char>, i: int)
    requires
        0 <= i < s.len(),
    ensures
        offset(s, i + 1) == offset(s, i) + width(s[i]),
        offset(s, i + 1) <= encode_utf8(s).len(),
        is_char_boundary(encode_utf8(s), offset(s, i) as int),
        is_char_boundary(encode_utf8(s), offset(s, i + 1) as int),
        encode_utf8(s).subrange(offset(s, i) as int, offset(s, i + 1) as int) == encode_scalar(
            s[i] as u32,
        ),
{
    let bytes = encode_utf8(s);
    assert(s.take(i + 1) =~= s.take(i) + seq![s[i]]);
    lemma_encode_concat(s.take(i), seq![s[i]]);
    lemma_encode_one(s[i]);
    assert(s =~= s.take(i) + s.skip(i));
    assert(s =~= s.take(i + 1) + s.skip(i + 1));
    lemma_boundary_concat(s.take(i), s.skip(i));
    lemma_boundary_concat(s.take(i + 1), s.skip(i + 1));
    lemma_encode_concat(s.take(i + 1), s.skip(i + 1));
    let p = encode_utf8(s.take(i));
    let q = encode_utf8(s.take(i + 1));
    assert(bytes.subrange(0, q.len() as int) =~= q);
    assert(bytes.subrange(offset(s, i) as int, offset(s, i + 1) as int) =~= q.subrange(
        p.len() as int,
        q.len() as int,
    ));
    assert(q.subrange(p.len() as int, q.len() as int) =~= encode_scalar(s[i] as u32));
}

/// The whole input ends at its byte length.
pub proof fn lemma_offset_end(s: Seq<char>)
    ensures
        offset(s, s.len() as int) == encode_utf8(s).len(),
{
    assert(s.take(s.len() as int) =~= s);
}

/// A boundary of `bytes` at or after `from` is a boundary of what follows `from`.
proof fn lemma_boundary_after(bytes: Seq<u8>, from: int, to: int)
    requires
        valid_utf8(bytes),
        0 <= from <= to <= bytes.len(),
        is_char_boundary(bytes, from),
        is_char_boundary(bytes, to),
    ensures
        is_char_boundary(bytes.subrange(from, bytes.len() as int), to - from),
{
    let rest = bytes.subrange(from, bytes.len() as int);
    valid_utf8_split(bytes, from);
    if to < bytes.len() {
        is_char_boundary_iff_not_is_continuation_byte(bytes, to);
        is_char_boundary_iff_not_is_continuation_byte(rest, to - from);
    } else {
        is_char_boundary_start_end_of_seq(rest);
    }
}

/// The part of `on` between two byte offsets, as a borrowed slice.
pub fn cut<'a>(on: &'a str, from: usize, to: usize, Ghost(text): Ghost<Seq<char>>) -> (r: &'a str)
    requires
        from <= to <= on.spec_bytes().len(),
        is_char_boundary(on.spec_bytes(), from as int),
        is_char_boundary(on.spec_bytes(), to as int),
        on.spec_bytes().subrange(from as int, to as int) == encode_utf8(text),
    ensures
        r@ == text,
{
    let bytes = Ghost(on.spec_bytes());
    let (_, rest) = on.split_at(from);
    proof {
        lemma_boundary_after(bytes@, from as int, to as int);
    }
    let (mid, _) = rest.split_at(to - from);
    proof {
        assert(mid.spec_bytes() =~= encode_utf8(text));
        assert(decode_utf8(encode_utf8(mid@)) == mid@);
    }
    mid
}

} // verus!
