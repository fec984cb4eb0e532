//! The padded text as a sequence of fragments, handed out one at a time.
//!
//! Every fragment is the pad string, a slice of the base text, or a single
//! line feed, so that nothing of the base text is copied before the caller
//! does so.

use crate::lines::{
    body, ends_with_lf, join_padded, lemma_first_line_len, lemma_split_lines_lf_free, padded,
    split_lines,
};
use crate::scan::{ends_in_lf, split_first_line, strip_final_lf};
use vstd::prelude::*;

verus! {

/// What the emission is about to hand out.
#[derive(Clone, Copy)]
pub(crate) enum Stage {
    /// The pad string that precedes the next line.
    Pad,
    /// The next line segment.
    Content,
    /// The line feed that separates the last line handed out from the next.
    Separator,
}

/// The state of an emission: a stage, the line segments that are still to
/// come, the pad string, and whether a closing line feed is still owed.
pub(crate) struct Emission {
    pub(crate) stage: Stage,
    pub(crate) lines: Seq<Seq<char>>,
    pub(crate) pad: Seq<char>,
    pub(crate) trailing_lf: bool,
}

impl Emission {
    /// The state in which the emission of `base` padded with `pad` begins.
    pub(crate) open spec fn start(base: Seq<char>, pad: Seq<char>) -> Emission {
        Emission {
            stage: Stage::Pad,
            lines: split_lines(body(base)),
            pad,
            trailing_lf: ends_with_lf(base),
        }
    }

    /// A line is at hand whenever content is due.
    pub(crate) open spec fn wf(self) -> bool {
        self.stage is Content ==> self.lines.len() > 0
    }

    /// The end of the emission: the closing line feed, once, if it is owed.
    pub(crate) open spec fn finish(self) -> Option<(Seq<char>, Emission)> {
        if self.trailing_lf {
            Some((seq!['\n'], Emission { trailing_lf: false, ..self }))
        } else {
            None
        }
    }

    /// The next fragment and the state that follows it; `None` when the
    /// emission is over.
    pub(crate) open spec fn step(self) -> Option<(Seq<char>, Emission)> {
        match self.stage {
            Stage::Pad => if self.lines.len() > 0 {
                Some((self.pad, Emission { stage: Stage::Content, ..self }))
            } else {
                self.finish()
            },
            Stage::Content => Some(
                (
                    self.lines[0],
                    Emission { stage: Stage::Separator, lines: self.lines.drop_first(), ..self },
                ),
            ),
            Stage::Separator => if self.lines.len() > 0 {
                Some((seq!['\n'], Emission { stage: Stage::Pad, ..self }))
            } else {
                self.finish()
            },
        }
    }

    /// The closing line feed, as long as it is owed.
    pub(crate) open spec fn tail(self) -> Seq<char> {
        if self.trailing_lf {
            seq!['\n']
        } else {
            Seq::empty()
        }
    }

    /// The padded `lines` with a line feed before them; nothing for no lines.
    pub(crate) open spec fn separated(lines: Seq<Seq<char>>, pad: Seq<char>) -> Seq<char> {
        if lines.len() > 0 {
            seq!['\n'] + join_padded(lines, pad)
        } else {
            Seq::empty()
        }
    }

    /// All the text that is still to be handed out.
    pub(crate) open spec fn output(self) -> Seq<char> {
        match self.stage {
            Stage::Pad => join_padded(self.lines, self.pad) + self.tail(),
            Stage::Content => self.lines[0] + Self::separated(self.lines.drop_first(), self.pad)
                + self.tail(),
            Stage::Separator => Self::separated(self.lines, self.pad) + self.tail(),
        }
    }

    /// The number of fragments that are still to be handed out.
    pub(crate) open spec fn fragments_left(self) -> nat {
        let n = self.lines.len();
        let closing: nat = if self.trailing_lf { 1 } else { 0 };
        match self.stage {
            Stage::Pad => if n > 0 { (3 * n - 1) as nat + closing } else { closing },
            Stage::Content => (3 * n - 2) as nat + closing,
            Stage::Separator => 3 * n + closing,
        }
    }

    /// The emission of `base` padded with `pad` hands out, in all, `base`
    /// padded with `pad`.
    pub(crate) proof fn lemma_start(base: Seq<char>, pad: Seq<char>)
        ensures
            Self::start(base, pad).wf(),
            Self::start(base, pad).output() == padded(base, pad),
    {
    }

    /// One step hands out the front of the output and leaves the rest; the
    /// emission is over exactly when no fragment is left.
    pub(crate) proof fn lemma_step(self)
        requires
            self.wf(),
        ensures
            match self.step() {
                Some((fragment, state)) => {
                    &&& state.wf()
                    &&& self.output() == fragment + state.output()
                    &&& self.fragments_left() == state.fragments_left() + 1
                },
                None => {
                    &&& self.output() == Seq::<char>::empty()
                    &&& self.fragments_left() == 0
                },
            },
    {
    }
}

/// An emission over a base text and a pad string: [`Intersperse::next`] hands
/// out the fragments of the padded text in order.
pub(crate) struct Intersperse<'a> {
    /// The part of the base text that is not yet cut into lines.
    rest: &'a str,
    /// Whether `rest` still holds lines to hand out.
    more: bool,
    pad: &'a str,
    stage: Stage,
    end_with_lb: bool,
}

impl<'a> View for Intersperse<'a> {
    type V = Emission;

    closed spec fn view(&self) -> Emission {
        Emission {
            stage: self.stage,
            lines: if self.more {
                split_lines(self.rest@)
            } else {
                Seq::empty()
            },
            pad: self.pad@,
            trailing_lf: self.end_with_lb,
        }
    }
}

impl<'a> Intersperse<'a> {
    #[verifier::type_invariant]
    spec fn inv(self) -> bool {
        self.stage is Content ==> self.more
    }

    /// Begins the emission of `base` padded with `pad`.
    pub(crate) fn new(base: &'a str, pad: &'a str) -> (r: Self)
        ensures
            r@ == Emission::start(base@, pad@),
    {
        Intersperse {
            rest: strip_final_lf(base),
            more: true,
            pad,
            stage: Stage::Pad,
            end_with_lb: ends_in_lf(base),
        }
    }

    /// Hands out the closing line feed if it is owed, and then no more.
    fn finish(&mut self) -> (r: Option<&'a str>)
        ensures
            match old(self)@.finish() {
                Some((fragment, state)) => r matches Some(s) && s@ == fragment && final(self)@
                    == state,
                None => r is None && final(self)@ == old(self)@,
            },
    {
        proof {
            use_type_invariant(&*self);
        }
        if self.end_with_lb {
            self.end_with_lb = false;
            proof {
                reveal_strlit("\n");
            }
            Some("\n")
        } else {
            None
        }
    }

    /// Hands out the next fragment of the padded text; `None` when all of it
    /// has been handed out, and from then on.
    pub(crate) fn next(&mut self) -> (r: Option<&'a str>)
        ensures
            match old(self)@.step() {
                Some((fragment, state)) => r matches Some(s) && s@ == fragment && final(self)@
                    == state,
                None => r is None && final(self)@ == old(self)@,
            },
    {
        proof {
            use_type_invariant(&*self);
            lemma_split_lines_lf_free(self.rest@);
        }
        match self.stage {
            Stage::Pad => {
                if self.more {
                    self.stage = Stage::Content;
                    Some(self.pad)
                } else {
                    self.finish()
                }
            },
            Stage::Content => {
                let (line, rest) = split_first_line(self.rest);
                self.stage = Stage::Separator;
                match rest {
                    Some(rest) => {
                        self.rest = rest;
                    },
                    None => {
                        self.more = false;
                    },
                }
                proof {
                    lemma_first_line_len(old(self).rest@);
                }
                assert(self@.lines =~= old(self)@.lines.drop_first());
                Some(line)
            },
            Stage::Separator => {
                if self.more {
                    self.stage = Stage::Pad;
                    proof {
                        reveal_strlit("\n");
                    }
                    Some("\n")
                } else {
                    self.finish()
                }
            },
        }
    }
}

} // verus!
