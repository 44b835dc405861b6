//! A tokenizer that keeps the tokens of the last line read as owned strings.
use crate::words::{
    all_runs, is_space, is_whitespace, lemma_tokens_are_runs, space_sep, split_from, words,
};
use vstd::prelude::*;

verus! {

/// Relies on `String::push`: appends the character to the end of the string.
#[verifier::external_body]
fn push_char(s: &mut String, c: char)
    ensures
        final(s)@ == old(s)@.push(c),
{
    s.push(c)
}

/// Reads white-space separated tokens one at a time.
///
/// The tokens of the most recently read line wait in a stack, last token at
/// the bottom, so that the next one to hand out is popped from the end.
pub struct Scanner {
    buffer: Vec<String>,
}

/// The texts of a list of strings.
pub open spec fn texts(v: Seq<String>) -> Seq<Seq<char>> {
    v.map_values(|t: String| t@)
}

impl Scanner {
    /// The tokens still to be handed out, next one first.
    pub closed spec fn pending(&self) -> Seq<Seq<char>> {
        Seq::new(self.buffer@.len(), |i: int| self.buffer@[self.buffer@.len() - 1 - i]@)
    }

    /// Every pending token is non-empty and holds no whitespace.
    pub closed spec fn wf(&self) -> bool {
        all_runs(self.pending(), space_sep())
    }

    /// A tokenizer with no token pending.
    pub fn new() -> (r: Scanner)
        ensures
            r.wf(),
            r.pending() == Seq::<Seq<char>>::empty(),
    {
        let r = Scanner { buffer: Vec::new() };
        assert(r.pending() =~= Seq::<Seq<char>>::empty());
        r
    }

    /// Hands out the next pending token, or `None` when none is pending and a
    /// line has to be read and passed to `refill`. A token handed out is never
    /// empty and holds no whitespace.
    pub fn token(&mut self) -> (r: Option<String>)
        requires
            old(self).wf(),
        ensures
            final(self).wf(),
            match r {
                Some(t) => {
                    &&& old(self).pending().len() > 0
                    &&& t@ == old(self).pending()[0]
                    &&& t@.len() > 0
                    &&& forall|k: int| 0 <= k < t@.len() ==> !is_space(#[trigger] t@[k])
                    &&& final(self).pending() == old(self).pending().drop_first()
                },
                None => old(self).pending().len() == 0 && final(self).pending() == old(
                    self,
                ).pending(),
            },
    {
        let r = self.buffer.pop();
        if r.is_some() {
            assert(self.pending() =~= old(self).pending().drop_first());
            assert(old(self).pending()[0] == old(self).pending()[0]);
        }
        r
    }

    /// Makes the tokens of `line`, in order, the pending tokens. Called only
    /// once every pending token has been handed out.
    pub fn refill(&mut self, line: &str)
        requires
            old(self).pending().len() == 0,
        ensures
            final(self).wf(),
            final(self).pending() == words(line@),
    {
        let ghost text = line@;
        let mut found: Vec<String> = Vec::new();
        let mut cur = String::new();
        assert(text.subrange(0, text.len() as int) =~= text);
        assert(texts(found@) + words(text) =~= words(text));
        for c in it: line.chars()
            invariant
                it.seq() == text,
                texts(found@) + split_from(
                    text.subrange(it.index() as int, text.len() as int),
                    space_sep(),
                    cur@,
                ) == words(text),
        {
            let ghost i = it.index() as int;
            let ghost rest = text.subrange(i, text.len() as int);
            assert(rest.drop_first() =~= text.subrange(i + 1, text.len() as int));
            assert(rest[0] == c);
            if is_whitespace(c) {
                if !cur.as_str().is_empty() {
                    found.push(cur);
                }
                cur = String::new();
            } else {
                push_char(&mut cur, c);
            }
        }
        assert(text.subrange(text.len() as int, text.len() as int) =~= Seq::<char>::empty());
        if !cur.as_str().is_empty() {
            found.push(cur);
        }
        assert(texts(found@) =~= words(text));
        let ghost all = found@;
        let n = found.len();
        self.buffer = Vec::new();
        while found.len() > 0
            invariant
                found@.len() + self.buffer@.len() == n,
                n == all.len(),
                found@ == all.subrange(0, found@.len() as int),
                forall|j: int| 0 <= j < self.buffer@.len() ==> self.buffer@[j] == all[n - 1 - j],
            decreases found.len(),
        {
            let w = found.pop().unwrap();
            self.buffer.push(w);
        }
        assert(self.pending() =~= words(text));
        proof {
            lemma_tokens_are_runs(text, space_sep());
        }
    }
}

} // verus!
