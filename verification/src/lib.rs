//! Left-pads every line of a block of text with a prefix.
//!
//! A line is delimited by the line feed alone; a carriage return is ordinary
//! content of the line it stands on. What padding means is said by
//! [`lines::padded`], a function on sequences of characters; [`lpad`] computes
//! it, and [`laws`] holds what follows from it.

mod intersperse;
pub mod laws;
pub mod lines;
mod scan;

use crate::intersperse::{Emission, Intersperse};
use crate::laws::{lemma_empty_base, lemma_empty_pad_is_identity, lemma_lf_count_preserved};
use crate::lines::{count_lf, lf_free, padded};
use std::borrow::Cow;
use vstd::prelude::*;
use vstd::string::*;

verus! {

/// Puts `pad_string` in front of every line of `base`.
///
/// With an empty `pad_string` the result is `base` itself, borrowed. Otherwise
/// it is a new text: each line of `base` with `pad_string` before it, the line
/// feeds of `base` between them, and after the last line a line feed if one
/// ends `base`.
pub fn lpad<'a>(base: &'a str, pad_string: &str) -> (r: Cow<'a, str>)
    ensures
        r@ == padded(base@, pad_string@),
        pad_string@.len() == 0 ==> r == Cow::<'a, str>::Borrowed(base),
        pad_string@.len() > 0 ==> r is Owned,
        base@.len() == 0 ==> r@ == pad_string@,
        lf_free(pad_string@) ==> count_lf(r@) == count_lf(base@),
{
    proof {
        if base@.len() == 0 {
            lemma_empty_base(pad_string@);
        }
        if lf_free(pad_string@) {
            lemma_lf_count_preserved(base@, pad_string@);
        }
    }
    if pad_string.is_empty() {
        proof {
            lemma_empty_pad_is_identity(base@, pad_string@);
        }
        Cow::Borrowed(base)
    } else {
        let mut fragments = Intersperse::new(base, pad_string);
        let mut out = String::new();
        proof {
            Emission::lemma_start(base@, pad_string@);
        }
        loop
            invariant
                fragments@.wf(),
                out@ + fragments@.output() == padded(base@, pad_string@),
            ensures
                out@ == padded(base@, pad_string@),
            decreases fragments@.fragments_left(),
        {
            proof {
                fragments@.lemma_step();
            }
            match fragments.next() {
                Some(fragment) => {
                    out.append(fragment);
                },
                None => {
                    break;
                },
            }
        }
        Cow::Owned(out)
    }
}

} // verus!
