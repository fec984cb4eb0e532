//! The mathematical model: a text is a sequence of characters, cut into
//! line segments at each line feed.

use vstd::prelude::*;

verus! {

/// Whether the last character of `text` is a line feed.
pub open spec fn ends_with_lf(text: Seq<char>) -> bool {
    text.len() > 0 && text.last() == '\n'
}

/// `text` without its last character, where that is a line feed; else `text`.
pub open spec fn body(text: Seq<char>) -> Seq<char> {
    if ends_with_lf(text) {
        text.drop_last()
    } else {
        text
    }
}

/// The single line feed that [`body`] took off `text`, or nothing.
pub open spec fn trailing_lf(text: Seq<char>) -> Seq<char> {
    if ends_with_lf(text) {
        seq!['\n']
    } else {
        Seq::empty()
    }
}

/// The number of characters of `text` that stand before its first line feed;
/// the length of `text` where it holds none.
pub open spec fn first_line_len(text: Seq<char>) -> nat
    decreases text.len(),
{
    if text.len() == 0 || text[0] == '\n' {
        0
    } else {
        1 + first_line_len(text.drop_first())
    }
}

/// The line segments of `text`: what stands between its line feeds, in order.
/// A text with `n` line feeds has `n + 1` segments, any of which may be empty.
pub open spec fn split_lines(text: Seq<char>) -> Seq<Seq<char>>
    decreases text.len(),
{
    let k = first_line_len(text) as int;
    if k >= text.len() {
        seq![text]
    } else {
        seq![text.take(k)] + split_lines(text.skip(k + 1))
    }
}

/// Each of `lines` with `pad` in front of it, and one line feed between
/// every two of them.
pub open spec fn join_padded(lines: Seq<Seq<char>>, pad: Seq<char>) -> Seq<char>
    decreases lines.len(),
{
    if lines.len() == 0 {
        Seq::empty()
    } else if lines.len() == 1 {
        pad + lines[0]
    } else {
        pad + lines[0] + seq!['\n'] + join_padded(lines.drop_first(), pad)
    }
}

/// `base` with `pad` in front of each of its lines. A line feed that ends
/// `base` ends the result too, and no padding follows it.
pub open spec fn padded(base: Seq<char>, pad: Seq<char>) -> Seq<char> {
    join_padded(split_lines(body(base)), pad) + trailing_lf(base)
}

/// The number of lines of `base`: of line segments that padding puts a pad
/// string in front of. It is at least one.
pub open spec fn line_count(base: Seq<char>) -> nat {
    split_lines(body(base)).len()
}

/// The number of line feeds in `text`.
pub open spec fn count_lf(text: Seq<char>) -> nat
    decreases text.len(),
{
    if text.len() == 0 {
        0
    } else {
        count_lf(text.drop_last()) + if text.last() == '\n' { 1nat } else { 0nat }
    }
}

/// Whether `text` holds no line feed.
pub open spec fn lf_free(text: Seq<char>) -> bool {
    forall|i: int| 0 <= i < text.len() ==> text[i] != '\n'
}

/// The first line of `text` ends at its first line feed, or at its end.
pub proof fn lemma_first_line_len(text: Seq<char>)
    ensures
        first_line_len(text) <= text.len(),
        lf_free(text.take(first_line_len(text) as int)),
        first_line_len(text) < text.len() ==> text[first_line_len(text) as int] == '\n',
    decreases text.len(),
{
    if text.len() > 0 && text[0] != '\n' {
        let rest = text.drop_first();
        lemma_first_line_len(rest);
        let k = first_line_len(rest) as int;
        let first = text.take(k + 1);
        assert forall|i: int| 0 <= i < first.len() implies first[i] != '\n' by {
            if i > 0 {
                assert(rest.take(k)[i - 1] == text[i]);
            }
        }
    }
}

/// A position that no line feed precedes, and that is the end of `text` or
/// holds a line feed, is where the first line of `text` ends.
pub proof fn lemma_first_line_len_unique(text: Seq<char>, k: int)
    requires
        0 <= k <= text.len(),
        lf_free(text.take(k)),
        k < text.len() ==> text[k] == '\n',
    ensures
        first_line_len(text) == k,
{
    lemma_first_line_len(text);
    let f = first_line_len(text) as int;
    if f < k {
        assert(text.take(k)[f] == '\n');
    } else if k < f {
        assert(text.take(f)[k] == '\n');
    }
}

/// A text without a line feed is its own single line.
pub proof fn lemma_split_lf_free(text: Seq<char>)
    requires
        lf_free(text),
    ensures
        split_lines(text) == seq![text],
{
    lemma_first_line_len_unique(text, text.len() as int);
}

/// The lines of `head`, a line feed and `tail`, where `head` holds no line
/// feed, are `head` and then the lines of `tail`.
pub proof fn lemma_split_at_lf(head: Seq<char>, tail: Seq<char>)
    requires
        lf_free(head),
    ensures
        first_line_len(head + seq!['\n'] + tail) == head.len(),
        split_lines(head + seq!['\n'] + tail) == seq![head] + split_lines(tail),
{
    let text = head + seq!['\n'] + tail;
    let k = head.len() as int;
    assert(text.take(k) == head);
    assert(text.skip(k + 1) == tail);
    lemma_first_line_len_unique(text, k);
}

/// A text has at least one line, and no line holds a line feed.
pub proof fn lemma_split_lines_lf_free(text: Seq<char>)
    ensures
        split_lines(text).len() >= 1,
        forall|i: int| 0 <= i < split_lines(text).len() ==> lf_free(#[trigger] split_lines(text)[i]),
    decreases text.len(),
{
    lemma_first_line_len(text);
    let k = first_line_len(text) as int;
    if k >= text.len() {
        assert(text.take(k) == text);
    } else {
        lemma_split_lines_lf_free(text.skip(k + 1));
    }
}

/// How a text and its padded lines unfold at the first line feed: a text
/// without one is its own single line; else the first line, the line feed
/// and the rest make up the text, and their padded lines make up the whole.
pub proof fn lemma_unfold_at_first_lf(text: Seq<char>, pad: Seq<char>)
    ensures
        first_line_len(text) <= text.len(),
        first_line_len(text) == text.len() ==> {
            &&& split_lines(text) == seq![text]
            &&& join_padded(split_lines(text), pad) == pad + text
        },
        first_line_len(text) < text.len() ==> {
            let k = first_line_len(text) as int;
            &&& text == text.take(k) + seq!['\n'] + text.skip(k + 1)
            &&& split_lines(text) == seq![text.take(k)] + split_lines(text.skip(k + 1))
            &&& join_padded(split_lines(text), pad) == pad + text.take(k) + seq!['\n']
                + join_padded(split_lines(text.skip(k + 1)), pad)
        },
{
    lemma_first_line_len(text);
    let k = first_line_len(text) as int;
    if k < text.len() {
        let rest = text.skip(k + 1);
        lemma_split_lines_lf_free(rest);
        assert(split_lines(text).drop_first() == split_lines(rest));
    }
}

/// The line feeds of two texts add up in their concatenation.
pub proof fn lemma_count_lf_add(a: Seq<char>, b: Seq<char>)
    ensures
        count_lf(a + b) == count_lf(a) + count_lf(b),
    decreases b.len(),
{
    if b.len() > 0 {
        lemma_count_lf_add(a, b.drop_last());
        assert((a + b).drop_last() == a + b.drop_last());
    }
}

/// A text holds no line feed exactly when it counts none.
pub proof fn lemma_count_lf_zero(text: Seq<char>)
    ensures
        lf_free(text) <==> count_lf(text) == 0,
    decreases text.len(),
{
    if text.len() > 0 {
        let front = text.drop_last();
        lemma_count_lf_zero(front);
        if lf_free(text) {
            assert(lf_free(front));
        }
        if count_lf(text) == 0 {
            assert forall|i: int| 0 <= i < text.len() implies text[i] != '\n' by {
                if i < front.len() {
                    assert(front[i] == text[i]);
                }
            }
        }
    }
}

} // verus!
