//! Finding line feeds in a `&str` and cutting it there, without copying.
//!
//! A `&str` is UTF-8, in which the byte `0x0A` occurs only as the encoding of
//! the line feed. So the search runs over the bytes, and the lemmas of this
//! module carry what it finds back to the characters.

use crate::lines::{
    body, ends_with_lf, first_line_len, lemma_first_line_len_unique, lemma_split_at_lf, lf_free,
};
use vstd::prelude::*;
use vstd::string::*;
use vstd::utf8::*;

verus! {

/// The byte that encodes the line feed.
pub(crate) const LF_BYTE: u8 = 0x0A;

/// Valid UTF-8 that begins with the line-feed byte decodes to a line feed
/// and then what the remaining bytes decode to.
proof fn lemma_decode_leading_lf(bytes: Seq<u8>)
    requires
        valid_utf8(bytes),
        bytes.len() > 0,
        bytes[0] == LF_BYTE,
    ensures
        is_char_boundary(bytes, 1),
        valid_utf8(bytes.subrange(1, bytes.len() as int)),
        decode_utf8(bytes) == seq!['\n'] + decode_utf8(bytes.subrange(1, bytes.len() as int)),
{
    reveal_with_fuel(is_char_boundary, 2);
    assert(0x0Au8 & 0x7F == 0x0Au8) by (bit_vector);
}

/// Where a text holds a line feed, its encoding holds the line-feed byte.
proof fn lemma_lf_char_gives_lf_byte(chars: Seq<char>, i: int) -> (j: int)
    requires
        0 <= i < chars.len(),
        chars[i] == '\n',
    ensures
        0 <= j < encode_utf8(chars).len(),
        encode_utf8(chars)[j] == LF_BYTE,
    decreases i,
{
    if i == 0 {
        assert(0x0Au32 & 0x7F == 0x0Au32) by (bit_vector);
        0
    } else {
        let j = lemma_lf_char_gives_lf_byte(chars.drop_first(), i - 1);
        encode_scalar(chars[0] as u32).len() + j
    }
}

/// A text whose encoding holds no line-feed byte holds no line feed.
proof fn lemma_no_lf_byte(chars: Seq<char>)
    requires
        forall|j: int| 0 <= j < encode_utf8(chars).len() ==> encode_utf8(chars)[j] != LF_BYTE,
    ensures
        lf_free(chars),
{
    assert forall|i: int| 0 <= i < chars.len() implies chars[i] != '\n' by {
        if chars[i] == '\n' {
            lemma_lf_char_gives_lf_byte(chars, i);
        }
    }
}

/// A text that ends with a line feed has an encoding that ends with the
/// line-feed byte.
proof fn lemma_final_lf_byte(chars: Seq<char>)
    requires
        ends_with_lf(chars),
    ensures
        encode_utf8(chars).len() > 0,
        encode_utf8(chars).last() == LF_BYTE,
    decreases chars.len(),
{
    if chars.len() == 1 {
        lemma_lf_char_gives_lf_byte(chars, 0);
        assert(encode_utf8(chars.drop_first()).len() == 0);
    } else {
        lemma_final_lf_byte(chars.drop_first());
    }
}

/// A line-feed byte in the encoding of a text stands for a line feed of the
/// text: the bytes before it and the bytes after it are texts of their own,
/// and the text is the first, a line feed, and the second.
proof fn lemma_cut_at_lf_byte(chars: Seq<char>, j: int)
    requires
        0 <= j < encode_utf8(chars).len(),
        encode_utf8(chars)[j] == LF_BYTE,
    ensures
        is_char_boundary(encode_utf8(chars), j),
        is_char_boundary(encode_utf8(chars).subrange(j, encode_utf8(chars).len() as int), 1),
        valid_utf8(encode_utf8(chars).subrange(0, j)),
        valid_utf8(encode_utf8(chars).subrange(j + 1, encode_utf8(chars).len() as int)),
        chars == decode_utf8(encode_utf8(chars).subrange(0, j)) + seq!['\n'] + decode_utf8(
            encode_utf8(chars).subrange(j + 1, encode_utf8(chars).len() as int),
        ),
{
    let bytes = encode_utf8(chars);
    let n = bytes.len() as int;
    encode_utf8_valid_utf8(chars);
    encode_utf8_decode_utf8(chars);
    is_char_boundary_iff_not_is_continuation_byte(bytes, j);
    valid_utf8_split(bytes, j);
    decode_utf8_split(bytes, j);
    let tail = bytes.subrange(j, n);
    lemma_decode_leading_lf(tail);
    assert(tail.subrange(1, tail.len() as int) == bytes.subrange(j + 1, n));
}

/// What a `&str` holds is what its bytes decode to.
proof fn lemma_view_of_bytes(s: &str, bytes: Seq<u8>)
    requires
        s.spec_bytes() == bytes,
    ensures
        s@ == decode_utf8(bytes),
{
    encode_utf8_decode_utf8(s@);
}

/// Whether `s` ends with a line feed.
pub(crate) fn ends_in_lf(s: &str) -> (b: bool)
    ensures
        b == ends_with_lf(s@),
{
    let bytes = s.as_bytes();
    let n = bytes.len();
    let b = n > 0 && bytes[n - 1] == LF_BYTE;
    proof {
        if b {
            lemma_cut_at_lf_byte(s@, n - 1);
        } else if ends_with_lf(s@) {
            lemma_final_lf_byte(s@);
        }
    }
    b
}

/// `s` without the line feed that ends it, if one does.
pub(crate) fn strip_final_lf<'a>(s: &'a str) -> (r: &'a str)
    ensures
        r@ == body(s@),
{
    if ends_in_lf(s) {
        let n = s.as_bytes().len();
        proof {
            lemma_final_lf_byte(s@);
            lemma_cut_at_lf_byte(s@, n - 1);
        }
        let (head, _) = s.split_at(n - 1);
        proof {
            lemma_view_of_bytes(head, s.spec_bytes().subrange(0, n - 1));
        }
        head
    } else {
        s
    }
}

/// Cuts `s` at its first line feed: the first line, and what follows the line
/// feed. Where `s` holds no line feed, the first line is `s` and nothing
/// follows.
pub(crate) fn split_first_line<'a>(s: &'a str) -> (r: (&'a str, Option<&'a str>))
    ensures
        r.0@ == s@.take(first_line_len(s@) as int),
        r.1 is Some <==> first_line_len(s@) < s@.len(),
        r.1 matches Some(rest) ==> rest@ == s@.skip(first_line_len(s@) as int + 1),
{
    let bytes = s.as_bytes();
    let n = bytes.len();
    let mut j: usize = 0;
    while j < n && bytes[j] != LF_BYTE
        invariant
            j <= n,
            n == bytes@.len(),
            forall|i: int| 0 <= i < j ==> bytes@[i] != LF_BYTE,
        decreases n - j,
    {
        j += 1;
    }
    if j < n {
        proof {
            lemma_cut_at_lf_byte(s@, j as int);
        }
        let (head, tail) = s.split_at(j);
        let (_, rest) = tail.split_at(1);
        proof {
            let head_bytes = bytes@.subrange(0, j as int);
            let rest_bytes = bytes@.subrange(j + 1, n as int);
            assert(tail.spec_bytes().subrange(1, tail.spec_bytes().len() as int) == rest_bytes);
            lemma_view_of_bytes(head, head_bytes);
            lemma_view_of_bytes(rest, rest_bytes);
            lemma_no_lf_byte(head@);
            lemma_split_at_lf(head@, rest@);
        }
        (head, Some(rest))
    } else {
        proof {
            lemma_no_lf_byte(s@);
            lemma_first_line_len_unique(s@, s@.len() as int);
        }
        (s, None)
    }
}

} // verus!
