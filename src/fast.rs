//! A tokenizer that reuses one byte buffer and hands out views into it.
use crate::words::{
    all_runs, is_space, is_whitespace_code, lemma_encode_push, lemma_skip_separators,
    lemma_take_run, lemma_tokens_are_runs, space_sep, words,
};
use vstd::prelude::*;
use vstd::slice::slice_subrange;
use vstd::string::StringSliceAdditionalSpecFns;
use vstd::utf8::{encode_scalar, encode_utf8, encode_utf8_first_scalar};

verus! {

/// The first character that `buf` encodes from byte `i` on, as a code point,
/// and the number of bytes its UTF-8 encoding takes.
fn decode_at(buf: &Vec<u8>, i: usize, Ghost(text): Ghost<Seq<char>>) -> (r: (u32, usize))
    requires
        i <= buf@.len(),
        text.len() > 0,
        buf@.subrange(i as int, buf@.len() as int) == encode_utf8(text),
    ensures
        r.0 == text[0] as u32,
        r.1 == encode_scalar(text[0] as u32).len(),
        i + r.1 <= buf@.len(),
{
    let n = buf.len();
    let ghost bytes = buf@.subrange(i as int, buf@.len() as int);
    proof {
        encode_utf8_first_scalar(text);
        assert(encode_utf8(text) == encode_scalar(text[0] as u32) + encode_utf8(
            text.drop_first(),
        ));
        assert(bytes == encode_utf8(text));
        assert(bytes.len() > 0);
    }
    let b0 = buf[i];
    assert(b0 == bytes[0]);
    if b0 <= 0x7F {
        ((b0 & 0x7F) as u32, 1)
    } else if 0xC0 <= b0 && b0 <= 0xDF {
        assert(bytes.len() >= 2);
        let b1 = buf[i + 1];
        ((((b0 & 0x1F) as u32) << 6) | ((b1 & 0x3F) as u32), 2)
    } else if 0xE0 <= b0 && b0 <= 0xEF {
        assert(bytes.len() >= 3);
        let b1 = buf[i + 1];
        let b2 = buf[i + 2];
        (
            (((b0 & 0x0F) as u32) << 12) | (((b1 & 0x3F) as u32) << 6) | ((b2 & 0x3F) as u32),
            3,
        )
    } else {
        assert(bytes.len() >= 4);
        let b1 = buf[i + 1];
        let b2 = buf[i + 2];
        let b3 = buf[i + 3];
        (
            (((b0 & 0x07) as u32) << 18) | (((b1 & 0x3F) as u32) << 12) | (((b2 & 0x3F) as u32)
                << 6) | ((b3 & 0x3F) as u32),
            4,
        )
    }
}

/// Splits the encoding of a non-empty text into its first character's bytes and the rest.
proof fn lemma_step(buf: Seq<u8>, i: int, text: Seq<char>, w: int)
    requires
        0 <= i <= buf.len(),
        text.len() > 0,
        buf.subrange(i, buf.len() as int) == encode_utf8(text),
        w == encode_scalar(text[0] as u32).len(),
    ensures
        i + w <= buf.len(),
        buf.subrange(i, i + w) == encode_scalar(text[0] as u32),
        buf.subrange(i + w, buf.len() as int) == encode_utf8(text.drop_first()),
{
    let e = encode_scalar(text[0] as u32);
    let tail = encode_utf8(text.drop_first());
    assert(encode_utf8(text) == e + tail);
    assert(buf.subrange(i, i + w) =~= (e + tail).subrange(0, w));
    assert(buf.subrange(i, i + w) =~= e);
    assert(buf.subrange(i + w, buf.len() as int) =~= (e + tail).subrange(w, (e + tail).len() as int));
    assert(buf.subrange(i + w, buf.len() as int) =~= tail);
}

/// Reads white-space separated tokens one at a time, without copying them.
///
/// The UTF-8 bytes of the most recently read line stay in one buffer that is
/// cleared and filled again on each refill; a cursor marks where the text
/// still to be split begins. A token is handed out as a view into the buffer,
/// borrowed from the tokenizer, so no token can be kept across the next
/// refill.
pub struct UnsafeScanner {
    buf: Vec<u8>,
    pos: usize,
    rest: Ghost<Seq<char>>,
}

impl UnsafeScanner {
    /// The cursor stands inside the buffer, and the bytes from the cursor on
    /// are the UTF-8 encoding of the text still to be split.
    pub closed spec fn wf(&self) -> bool {
        &&& self.pos <= self.buf@.len()
        &&& self.buf@.subrange(self.pos as int, self.buf@.len() as int) == encode_utf8(
            self.rest@,
        )
    }

    /// The tokens still to be handed out, next one first, as text.
    pub closed spec fn pending(&self) -> Seq<Seq<char>> {
        words(self.rest@)
    }

    /// A tokenizer with an empty buffer and so no token pending.
    pub fn new() -> (r: UnsafeScanner)
        ensures
            r.wf(),
            r.pending() == Seq::<Seq<char>>::empty(),
    {
        let r = UnsafeScanner { buf: Vec::new(), pos: 0, rest: Ghost(Seq::empty()) };
        assert(r.buf@.subrange(0, 0) =~= Seq::<u8>::empty());
        assert(encode_utf8(Seq::<char>::empty()) =~= Seq::<u8>::empty());
        assert(r.pending() =~= Seq::<Seq<char>>::empty());
        r
    }

    /// Hands out the UTF-8 bytes of the next pending token as a view into the
    /// buffer, or `None` when none is pending and a line has to be read and
    /// passed to `refill`. A token handed out is never empty and holds no
    /// whitespace.
    pub fn token(&mut self) -> (r: Option<&[u8]>)
        requires
            old(self).wf(),
        ensures
            final(self).wf(),
            match r {
                Some(t) => {
                    &&& old(self).pending().len() > 0
                    &&& t@ == encode_utf8(old(self).pending()[0])
                    &&& old(self).pending()[0].len() > 0
                    &&& forall|k: int|
                        0 <= k < old(self).pending()[0].len() ==> !is_space(
                            #[trigger] old(self).pending()[0][k],
                        )
                    &&& final(self).pending() == old(self).pending().drop_first()
                },
                None => old(self).pending().len() == 0 && final(self).pending() == old(
                    self,
                ).pending(),
            },
    {
        let n = self.buf.len();
        let ghost text = self.rest@;
        let ghost tl = text.len() as int;
        proof {
            lemma_tokens_are_runs(text, space_sep());
        }
        assert(text.subrange(0, tl) =~= text);
        // Skip the whitespace before the next token.
        let mut i = self.pos;
        let ghost mut k: int = 0;
        let mut at_token = false;
        while !at_token && i < n
            invariant
                self.pos <= i <= n,
                n == self.buf@.len(),
                tl == text.len(),
                0 <= k <= tl,
                self.buf@.subrange(i as int, n as int) == encode_utf8(text.subrange(k, tl)),
                forall|m: int| 0 <= m < k ==> space_sep()(text[m]),
                at_token ==> i < n && k < tl && !is_space(text[k]),
            decreases n - i + if at_token { 0int } else { 1int },
        {
            let ghost t = text.subrange(k, tl);
            assert(t.len() > 0) by {
                if t.len() == 0 {
                    assert(encode_utf8(t) =~= Seq::<u8>::empty());
                }
            }
            let (c, w) = decode_at(&self.buf, i, Ghost(t));
            if is_whitespace_code(c) {
                proof {
                    lemma_step(self.buf@, i as int, t, w as int);
                    assert(t.drop_first() =~= text.subrange(k + 1, tl));
                    assert(encode_scalar(t[0] as u32).len() > 0);
                    k = k + 1;
                }
                i = i + w;
            } else {
                at_token = true;
            }
        }
        proof {
            lemma_skip_separators(text, space_sep(), k);
        }
        if !at_token {
            proof {
                let t = text.subrange(k, tl);
                if t.len() > 0 {
                    assert(encode_utf8(t) == encode_scalar(t[0] as u32) + encode_utf8(
                        t.drop_first(),
                    ));
                    assert(encode_utf8(t).len() > 0);
                }
                assert(t =~= Seq::<char>::empty());
                assert(words(t) =~= Seq::<Seq<char>>::empty());
            }
            self.pos = i;
            self.rest = Ghost(text.subrange(k, tl));
            return None;
        }
        // Take the run of non-whitespace characters that forms the token.
        let start = i;
        let ghost k0 = k;
        let mut j = i;
        let ghost mut m: int = k;
        let mut at_end = false;
        assert(self.buf@.subrange(start as int, j as int) =~= encode_utf8(
            text.subrange(k0, m),
        )) by {
            assert(text.subrange(k0, m) =~= Seq::<char>::empty());
            assert(encode_utf8(Seq::<char>::empty()) =~= Seq::<u8>::empty());
        }
        while !at_end && j < n
            invariant
                start <= j <= n,
                n == self.buf@.len(),
                tl == text.len(),
                0 <= k0 <= m <= tl,
                k0 < tl,
                !is_space(text[k0]),
                self.buf@.subrange(j as int, n as int) == encode_utf8(text.subrange(m, tl)),
                self.buf@.subrange(start as int, j as int) == encode_utf8(text.subrange(k0, m)),
                forall|x: int| k0 <= x < m ==> !space_sep()(text[x]),
                at_end ==> m < tl && space_sep()(text[m]),
            decreases n - j + if at_end { 0int } else { 1int },
        {
            let ghost t = text.subrange(m, tl);
            assert(t.len() > 0) by {
                if t.len() == 0 {
                    assert(encode_utf8(t) =~= Seq::<u8>::empty());
                }
            }
            let (c, w) = decode_at(&self.buf, j, Ghost(t));
            if is_whitespace_code(c) {
                at_end = true;
            } else {
                proof {
                    lemma_step(self.buf@, j as int, t, w as int);
                    assert(t.drop_first() =~= text.subrange(m + 1, tl));
                    lemma_encode_push(text.subrange(k0, m), text[m]);
                    assert(text.subrange(k0, m).push(text[m]) =~= text.subrange(k0, m + 1));
                    assert(self.buf@.subrange(start as int, j + w) =~= self.buf@.subrange(
                        start as int,
                        j as int,
                    ) + self.buf@.subrange(j as int, j + w));
                    assert(encode_scalar(text[m] as u32).len() > 0);
                    m = m + 1;
                }
                j = j + w;
            }
        }
        proof {
            let t = text.subrange(m, tl);
            if !at_end && t.len() > 0 {
                assert(encode_utf8(t) == encode_scalar(t[0] as u32) + encode_utf8(
                    t.drop_first(),
                ));
                assert(encode_utf8(t).len() > 0);
            }
            let u = text.subrange(k0, tl);
            assert forall|x: int| 0 <= x < m - k0 implies !space_sep()(u[x]) by {
                assert(u[x] == text[k0 + x]);
            }
            assert(m < tl ==> u[m - k0] == text[m]);
            lemma_take_run(u, space_sep(), Seq::<char>::empty(), m - k0);
            assert(Seq::<char>::empty() + u.subrange(0, m - k0) =~= text.subrange(k0, m));
            assert(u.subrange(m - k0, u.len() as int) =~= t);
            assert(m > k0) by {
                if m == k0 {
                    assert(at_end);
                }
            }
            assert(words(text) == seq![text.subrange(k0, m)] + words(t));
            assert(words(t) =~= words(text).drop_first());
        }
        self.pos = j;
        self.rest = Ghost(text.subrange(m, tl));
        Some(slice_subrange(self.buf.as_slice(), start, j))
    }

    /// Clears the buffer and fills it with the UTF-8 bytes of `line`; the
    /// pending tokens become the tokens of `line`, in order. Called only once
    /// every pending token has been handed out.
    pub fn refill(&mut self, line: &str)
        requires
            old(self).wf(),
            old(self).pending().len() == 0,
        ensures
            final(self).wf(),
            final(self).pending() == words(line@),
    {
        self.buf.clear();
        self.buf.extend_from_slice(line.as_bytes());
        self.pos = 0;
        self.rest = Ghost(line@);
        assert(self.buf@ =~= line.spec_bytes());
        assert(self.buf@.subrange(0, self.buf@.len() as int) =~= self.buf@);
    }
}

} // verus!
