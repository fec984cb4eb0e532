//! What holds of padding, for every base text and every pad string.
//!
//! The laws speak of [`padded`], which is what [`crate::lpad`] returns.

use crate::lines::{
    body, count_lf, ends_with_lf, first_line_len, join_padded, lemma_count_lf_add,
    lemma_count_lf_zero, lemma_first_line_len, lemma_split_at_lf, lemma_split_lf_free,
    lemma_split_lines_lf_free, lemma_unfold_at_first_lf, lf_free, line_count, padded, split_lines,
    trailing_lf,
};
use vstd::prelude::*;

verus! {

/// Where the first line of `text` ends, as an `int`.
spec fn first_len(text: Seq<char>) -> int {
    first_line_len(text) as int
}

/// Splitting loses nothing: the lines of a text, joined by line feeds with
/// nothing in front of them, are the text.
pub proof fn lemma_split_is_lossless(text: Seq<char>)
    ensures
        join_padded(split_lines(text), Seq::empty()) == text,
    decreases text.len(),
{
    lemma_unfold_at_first_lf(text, Seq::empty());
    let k = first_len(text);
    if k < text.len() {
        lemma_split_is_lossless(text.skip(k + 1));
    }
}

/// A text has one line more than it has line feeds.
pub proof fn lemma_line_count(text: Seq<char>)
    ensures
        split_lines(text).len() == count_lf(text) + 1,
    decreases text.len(),
{
    lemma_unfold_at_first_lf(text, Seq::empty());
    lemma_first_line_len(text);
    let k = first_len(text);
    lemma_count_lf_zero(text.take(k));
    if k < text.len() {
        let rest = text.skip(k + 1);
        lemma_line_count(rest);
        lemma_count_lf_add(text.take(k), seq!['\n']);
        lemma_count_lf_add(text.take(k) + seq!['\n'], rest);
        assert(count_lf(seq!['\n']) == 1) by {
            reveal_with_fuel(count_lf, 2);
        }
    } else {
        assert(text.take(k) == text);
    }
}

/// Padding with the empty string changes nothing.
pub proof fn lemma_empty_pad_is_identity(base: Seq<char>, pad: Seq<char>)
    requires
        pad.len() == 0,
    ensures
        padded(base, pad) == base,
{
    lemma_split_is_lossless(body(base));
    assert(pad == Seq::<char>::empty());
}

/// The empty text is one empty line: padded, it is the pad string.
pub proof fn lemma_empty_base(pad: Seq<char>)
    ensures
        padded(Seq::empty(), pad) == pad,
{
    lemma_unfold_at_first_lf(Seq::empty(), pad);
}

/// The padded lines of a text are as long as the text and one pad string
/// for each line.
proof fn lemma_join_len(text: Seq<char>, pad: Seq<char>)
    ensures
        join_padded(split_lines(text), pad).len() == text.len() + split_lines(text).len()
            * pad.len(),
    decreases text.len(),
{
    lemma_unfold_at_first_lf(text, pad);
    let k = first_len(text);
    if k < text.len() {
        let rest = text.skip(k + 1);
        lemma_join_len(rest, pad);
        assert((1 + split_lines(rest).len()) * pad.len() == pad.len() + split_lines(rest).len()
            * pad.len()) by (nonlinear_arith);
    }
}

/// The padded text is as long as the base text and one pad string for each
/// of its lines.
pub proof fn lemma_padded_len(base: Seq<char>, pad: Seq<char>)
    ensures
        padded(base, pad).len() == base.len() + line_count(base) * pad.len(),
{
    lemma_join_len(body(base), pad);
}

/// A pad string that is not empty makes the text longer, whatever the text:
/// no text is its own padding, and padding twice is not padding once.
pub proof fn lemma_nonempty_pad_lengthens(base: Seq<char>, pad: Seq<char>)
    requires
        pad.len() > 0,
    ensures
        padded(base, pad).len() > base.len(),
        padded(base, pad) != base,
        padded(padded(base, pad), pad) != padded(base, pad),
{
    let once = padded(base, pad);
    lemma_padded_len(base, pad);
    lemma_padded_len(once, pad);
    lemma_split_lines_lf_free(body(base));
    lemma_split_lines_lf_free(body(once));
    assert(line_count(base) * pad.len() >= pad.len()) by (nonlinear_arith)
        requires
            line_count(base) >= 1,
    ;
    assert(line_count(once) * pad.len() >= pad.len()) by (nonlinear_arith)
        requires
            line_count(once) >= 1,
    ;
}

/// The padded lines of a text hold the line feeds of the text and those of
/// one pad string for each line.
proof fn lemma_join_count_lf(text: Seq<char>, pad: Seq<char>)
    ensures
        count_lf(join_padded(split_lines(text), pad)) == count_lf(text) + split_lines(text).len()
            * count_lf(pad),
    decreases text.len(),
{
    lemma_unfold_at_first_lf(text, pad);
    let k = first_len(text);
    if k < text.len() {
        let first = text.take(k);
        let rest = text.skip(k + 1);
        let joined = join_padded(split_lines(rest), pad);
        lemma_join_count_lf(rest, pad);
        lemma_count_lf_add(first, seq!['\n']);
        lemma_count_lf_add(first + seq!['\n'], rest);
        lemma_count_lf_add(pad, first);
        lemma_count_lf_add(pad + first, seq!['\n']);
        lemma_count_lf_add(pad + first + seq!['\n'], joined);
        assert((1 + split_lines(rest).len()) * count_lf(pad) == count_lf(pad) + split_lines(
            rest,
        ).len() * count_lf(pad)) by (nonlinear_arith);
    } else {
        lemma_count_lf_add(pad, text);
    }
}

/// The padded text holds the line feeds of the base text and those of one
/// pad string for each of its lines.
pub proof fn lemma_padded_count_lf(base: Seq<char>, pad: Seq<char>)
    ensures
        count_lf(padded(base, pad)) == count_lf(base) + line_count(base) * count_lf(pad),
{
    lemma_join_count_lf(body(base), pad);
    lemma_count_lf_add(join_padded(split_lines(body(base)), pad), trailing_lf(base));
    lemma_count_lf_add(body(base), trailing_lf(base));
    assert(body(base) + trailing_lf(base) == base);
}

/// Padding with a string that holds no line feed neither adds a line feed
/// nor takes one away.
pub proof fn lemma_lf_count_preserved(base: Seq<char>, pad: Seq<char>)
    requires
        lf_free(pad),
    ensures
        count_lf(padded(base, pad)) == count_lf(base),
{
    lemma_padded_count_lf(base, pad);
    lemma_count_lf_zero(pad);
}

/// Each of `lines` with `pad` in front of it.
pub open spec fn pad_each(lines: Seq<Seq<char>>, pad: Seq<char>) -> Seq<Seq<char>> {
    lines.map_values(|line: Seq<char>| pad + line)
}

/// Whether none of `lines` holds a line feed.
spec fn all_lf_free(lines: Seq<Seq<char>>) -> bool {
    forall|i: int| 0 <= i < lines.len() ==> lf_free(#[trigger] lines[i])
}

/// Lines without a line feed, padded with a string without one and joined,
/// split again into those lines, each with the pad string in front.
proof fn lemma_split_join(lines: Seq<Seq<char>>, pad: Seq<char>)
    requires
        lines.len() >= 1,
        lf_free(pad),
        all_lf_free(lines),
    ensures
        split_lines(join_padded(lines, pad)) == pad_each(lines, pad),
    decreases lines.len(),
{
    let first = pad + lines[0];
    if lines.len() == 1 {
        lemma_split_lf_free(first);
    } else {
        let rest = lines.drop_first();
        assert(all_lf_free(rest));
        lemma_split_join(rest, pad);
        lemma_split_at_lf(first, join_padded(rest, pad));
    }
}

/// Lines padded with a string that is not empty and holds no line feed, and
/// joined, do not end with a line feed.
proof fn lemma_join_has_no_final_lf(lines: Seq<Seq<char>>, pad: Seq<char>)
    requires
        lines.len() >= 1,
        pad.len() > 0,
        lf_free(pad),
        all_lf_free(lines),
    ensures
        !ends_with_lf(join_padded(lines, pad)),
    decreases lines.len(),
{
    if lines.len() > 1 {
        let rest = lines.drop_first();
        assert(all_lf_free(rest));
        lemma_join_has_no_final_lf(rest, pad);
    }
}

/// Every line of the padded text is the pad string and then the line of the
/// base text in its place, as long as the pad string holds no line feed; and
/// the padded text ends with a line feed exactly when the base text does.
pub proof fn lemma_padded_lines(base: Seq<char>, pad: Seq<char>)
    requires
        lf_free(pad),
    ensures
        ends_with_lf(padded(base, pad)) == ends_with_lf(base),
        split_lines(body(padded(base, pad))) == pad_each(split_lines(body(base)), pad),
        line_count(padded(base, pad)) == line_count(base),
{
    let lines = split_lines(body(base));
    let joined = join_padded(lines, pad);
    lemma_split_lines_lf_free(body(base));
    lemma_split_join(lines, pad);
    if ends_with_lf(base) {
        assert((joined + seq!['\n']).drop_last() == joined);
    } else if pad.len() == 0 {
        lemma_empty_pad_is_identity(base, pad);
    } else {
        lemma_join_has_no_final_lf(lines, pad);
    }
}

/// Joining padded lines with a second pad string is joining the lines with
/// the second and the first pad string in one.
proof fn lemma_join_pad_each(lines: Seq<Seq<char>>, first: Seq<char>, second: Seq<char>)
    ensures
        join_padded(pad_each(lines, first), second) == join_padded(lines, second + first),
    decreases lines.len(),
{
    if lines.len() > 1 {
        lemma_join_pad_each(lines.drop_first(), first, second);
        assert(pad_each(lines, first).drop_first() == pad_each(lines.drop_first(), first));
    }
}

/// Padding a padded text puts the second pad string in front of the first
/// on every line, as long as the first holds no line feed or the second is
/// empty.
pub proof fn lemma_pad_after_pad(base: Seq<char>, first: Seq<char>, second: Seq<char>)
    requires
        lf_free(first) || second.len() == 0,
    ensures
        padded(padded(base, first), second) == padded(base, second + first),
{
    if lf_free(first) {
        lemma_padded_lines(base, first);
        lemma_join_pad_each(split_lines(body(base)), first, second);
    } else {
        lemma_empty_pad_is_identity(padded(base, first), second);
    }
}

/// Padding twice with one string that holds no line feed puts it twice in
/// front of every line.
pub proof fn lemma_pad_twice(base: Seq<char>, pad: Seq<char>)
    requires
        lf_free(pad),
    ensures
        padded(padded(base, pad), pad) == padded(base, pad + pad),
{
    lemma_pad_after_pad(base, pad, pad);
}

/// `text` with `pad` after each of its line feeds, but for a line feed that
/// is the last character of `text`.
pub open spec fn pad_after_line_feeds(text: Seq<char>, pad: Seq<char>) -> Seq<char>
    decreases text.len(),
{
    if text.len() == 0 {
        Seq::empty()
    } else if text[0] == '\n' && text.len() > 1 {
        seq!['\n'] + pad + pad_after_line_feeds(text.drop_first(), pad)
    } else {
        seq![text[0]] + pad_after_line_feeds(text.drop_first(), pad)
    }
}

/// Characters before the first line feed of a text stay as they are.
proof fn lemma_pad_after_line_feeds_skips(head: Seq<char>, tail: Seq<char>, pad: Seq<char>)
    requires
        lf_free(head),
    ensures
        pad_after_line_feeds(head + tail, pad) == head + pad_after_line_feeds(tail, pad),
    decreases head.len(),
{
    if head.len() > 0 {
        let rest = head.drop_first();
        assert(lf_free(rest));
        lemma_pad_after_line_feeds_skips(rest, tail, pad);
        assert((head + tail).drop_first() == rest + tail);
    }
}

/// Padding read character by character: the pad string stands at the start
/// of the text and after every line feed that is not its last character, and
/// nothing else is added or taken away.
pub proof fn lemma_padded_char_by_char(base: Seq<char>, pad: Seq<char>)
    ensures
        padded(base, pad) == pad + pad_after_line_feeds(base, pad),
    decreases base.len(),
{
    lemma_first_line_len(base);
    let k = first_len(base);
    let first = base.take(k);
    if k == base.len() {
        assert(first == base);
        lemma_split_lf_free(base);
        lemma_pad_after_line_feeds_skips(base, Seq::empty(), pad);
    } else {
        let rest = base.skip(k + 1);
        let tail = seq!['\n'] + rest;
        assert(base == first + tail);
        assert(tail.drop_first() == rest);
        lemma_pad_after_line_feeds_skips(first, tail, pad);
        if rest.len() == 0 {
            lemma_split_lf_free(first);
            assert(pad_after_line_feeds(tail, pad) == seq!['\n']) by {
                reveal_with_fuel(pad_after_line_feeds, 2);
            }
        } else {
            lemma_padded_char_by_char(rest, pad);
            assert(body(base) == first + seq!['\n'] + body(rest));
            lemma_split_at_lf(first, body(rest));
            lemma_split_lines_lf_free(body(rest));
            assert(split_lines(body(base)).drop_first() == split_lines(body(rest)));
            assert(padded(base, pad) == pad + first + seq!['\n'] + padded(rest, pad));
        }
    }
}

} // verus!
