//! What a token is: a maximal run of elements that are not separators.
use vstd::prelude::*;
use vstd::utf8::{decode_utf8, encode_scalar, encode_utf8};

verus! {

/// Whitespace as `char::is_whitespace` defines it (the Unicode `White_Space` property).
pub open spec fn is_space(c: char) -> bool {
    is_space_code(c as u32)
}

/// The code points of the Unicode `White_Space` property.
pub open spec fn is_space_code(u: u32) -> bool {
    ||| 0x09 <= u <= 0x0D
    ||| u == 0x20
    ||| u == 0x85
    ||| u == 0xA0
    ||| u == 0x1680
    ||| 0x2000 <= u <= 0x200A
    ||| u == 0x2028
    ||| u == 0x2029
    ||| u == 0x202F
    ||| u == 0x205F
    ||| u == 0x3000
}

/// The run collected so far, as a list of at most one token.
pub open spec fn flush<A>(cur: Seq<A>) -> Seq<Seq<A>> {
    if cur.len() == 0 {
        seq![]
    } else {
        seq![cur]
    }
}

/// The tokens of `s` when a run `cur` has already been read before it.
pub open spec fn split_from<A>(s: Seq<A>, sep: spec_fn(A) -> bool, cur: Seq<A>) -> Seq<Seq<A>>
    decreases s.len(),
{
    if s.len() == 0 {
        flush(cur)
    } else if sep(s[0]) {
        flush(cur) + split_from(s.drop_first(), sep, seq![])
    } else {
        split_from(s.drop_first(), sep, cur.push(s[0]))
    }
}

/// The maximal runs of non-separators in `s`, left to right.
pub open spec fn split_words<A>(s: Seq<A>, sep: spec_fn(A) -> bool) -> Seq<Seq<A>> {
    split_from(s, sep, seq![])
}

/// Unicode whitespace, as a separator.
pub open spec fn space_sep() -> spec_fn(char) -> bool {
    |c: char| is_space(c)
}

/// The tokens of a line of text, split on Unicode whitespace.
pub open spec fn words(s: Seq<char>) -> Seq<Seq<char>> {
    split_words(s, space_sep())
}

/// Separators before the first token are skipped: they produce no token.
pub proof fn lemma_skip_separators<A>(s: Seq<A>, sep: spec_fn(A) -> bool, i: int)
    requires
        0 <= i <= s.len(),
        forall|k: int| 0 <= k < i ==> sep(s[k]),
    ensures
        split_words(s, sep) == split_words(s.subrange(i, s.len() as int), sep),
    decreases i,
{
    if i > 0 {
        let t = s.drop_first();
        assert(flush(Seq::<A>::empty()) =~= seq![]);
        assert(split_words(s, sep) =~= split_words(t, sep));
        lemma_skip_separators(t, sep, i - 1);
        assert(t.subrange(i - 1, t.len() as int) =~= s.subrange(i, s.len() as int));
    } else {
        assert(s.subrange(0, s.len() as int) =~= s);
    }
}

/// A run of `j` non-separators that ends at a separator or at the end is one token,
/// joined to the run `cur` read before it.
pub proof fn lemma_take_run<A>(s: Seq<A>, sep: spec_fn(A) -> bool, cur: Seq<A>, j: int)
    requires
        0 <= j <= s.len(),
        forall|k: int| 0 <= k < j ==> !sep(s[k]),
        j == s.len() || sep(s[j]),
    ensures
        split_from(s, sep, cur) == flush(cur + s.subrange(0, j)) + split_words(
            s.subrange(j, s.len() as int),
            sep,
        ),
    decreases j,
{
    let rest = s.subrange(j, s.len() as int);
    if j > 0 {
        let t = s.drop_first();
        lemma_take_run(t, sep, cur.push(s[0]), j - 1);
        assert(cur.push(s[0]) + t.subrange(0, j - 1) =~= cur + s.subrange(0, j));
        assert(t.subrange(j - 1, t.len() as int) =~= rest);
    } else {
        assert(cur + s.subrange(0, 0) =~= cur);
        if s.len() == 0 {
            assert(rest =~= Seq::<A>::empty());
            assert(flush(cur) + split_words(rest, sep) =~= flush(cur));
        } else {
            assert(rest =~= s);
            assert(split_words(rest, sep) =~= flush(Seq::<A>::empty()) + split_from(
                s.drop_first(),
                sep,
                seq![],
            ));
            assert(flush(Seq::<A>::empty()) =~= seq![]);
            assert(split_words(rest, sep) =~= split_from(s.drop_first(), sep, seq![]));
        }
    }
}

proof fn lemma_split_from_concat<A>(a: Seq<A>, b: Seq<A>, sep: spec_fn(A) -> bool, cur: Seq<A>)
    requires
        a.len() > 0,
        sep(a.last()),
    ensures
        split_from(a + b, sep, cur) == split_from(a, sep, cur) + split_words(b, sep),
    decreases a.len(),
{
    let ab = a + b;
    assert(ab.drop_first() =~= a.drop_first() + b);
    if a.len() == 1 {
        assert(a.drop_first() =~= Seq::<A>::empty());
        assert(ab.drop_first() =~= b);
        assert(split_from(a.drop_first(), sep, seq![]) =~= seq![]);
    } else if sep(a[0]) {
        lemma_split_from_concat(a.drop_first(), b, sep, seq![]);
        assert(split_from(ab, sep, cur) =~= split_from(a, sep, cur) + split_words(b, sep));
    } else {
        lemma_split_from_concat(a.drop_first(), b, sep, cur.push(a[0]));
    }
}

/// Splitting text that ends in a separator, then the text after it, gives the
/// tokens of the two put together: no token crosses that boundary.
pub proof fn lemma_split_concat<A>(a: Seq<A>, b: Seq<A>, sep: spec_fn(A) -> bool)
    requires
        a.len() == 0 || sep(a.last()),
    ensures
        split_words(a + b, sep) == split_words(a, sep) + split_words(b, sep),
{
    if a.len() == 0 {
        assert(a + b =~= b);
        assert(split_words(a, sep) =~= seq![]);
        assert(split_words(a, sep) + split_words(b, sep) =~= split_words(b, sep));
    } else {
        lemma_split_from_concat(a, b, sep, seq![]);
    }
}

/// Each token is non-empty and holds no separator.
pub open spec fn all_runs<A>(ws: Seq<Seq<A>>, sep: spec_fn(A) -> bool) -> bool {
    forall|i: int|
        0 <= i < ws.len() ==> #[trigger] ws[i].len() > 0 && forall|k: int|
            0 <= k < ws[i].len() ==> !sep(ws[i][k])
}

proof fn lemma_split_from_runs<A>(s: Seq<A>, sep: spec_fn(A) -> bool, cur: Seq<A>)
    requires
        forall|k: int| 0 <= k < cur.len() ==> !sep(cur[k]),
    ensures
        all_runs(split_from(s, sep, cur), sep),
    decreases s.len(),
{
    if s.len() == 0 {
        if cur.len() > 0 {
            assert(split_from(s, sep, cur)[0] == cur);
        }
    } else if sep(s[0]) {
        lemma_split_from_runs(s.drop_first(), sep, seq![]);
        let r = split_from(s, sep, cur);
        let tail = split_from(s.drop_first(), sep, seq![]);
        assert(r == flush(cur) + tail);
        assert forall|i: int| 0 <= i < r.len() implies #[trigger] r[i].len() > 0 && forall|k: int|
            0 <= k < r[i].len() ==> !sep(r[i][k]) by {
            if i >= flush(cur).len() {
                assert(r[i] == tail[i - flush(cur).len()]);
            } else {
                assert(r[i] == cur);
            }
        }
    } else {
        let c2 = cur.push(s[0]);
        assert forall|k: int| 0 <= k < c2.len() implies !sep(c2[k]) by {
            if k < cur.len() {
                assert(c2[k] == cur[k]);
            }
        }
        lemma_split_from_runs(s.drop_first(), sep, c2);
        assert(split_from(s, sep, cur) == split_from(s.drop_first(), sep, c2));
    }
}

/// Every token is non-empty and holds no separator: runs of separators leave
/// no empty tokens behind.
pub proof fn lemma_tokens_are_runs<A>(s: Seq<A>, sep: spec_fn(A) -> bool)
    ensures
        all_runs(split_words(s, sep), sep),
{
    lemma_split_from_runs(s, sep, seq![]);
}

/// Input made of separators alone, of any length and over any number of
/// lines, has no tokens.
pub proof fn lemma_blank_has_no_tokens<A>(s: Seq<A>, sep: spec_fn(A) -> bool)
    requires
        forall|k: int| 0 <= k < s.len() ==> sep(s[k]),
    ensures
        split_words(s, sep) == Seq::<Seq<A>>::empty(),
{
    lemma_skip_separators(s, sep, s.len() as int);
    assert(s.subrange(s.len() as int, s.len() as int) =~= Seq::<A>::empty());
}

/// The tokens of each line in turn, as a line-by-line reader hands them out.
pub open spec fn tokens_by_line<A>(lines: Seq<Seq<A>>, sep: spec_fn(A) -> bool) -> Seq<Seq<A>>
    decreases lines.len(),
{
    if lines.len() == 0 {
        seq![]
    } else {
        split_words(lines[0], sep) + tokens_by_line(lines.drop_first(), sep)
    }
}

/// Every line but the last is empty (the end of input) or ends in a separator
/// (its line feed).
pub open spec fn lines_end_in_separator<A>(lines: Seq<Seq<A>>, sep: spec_fn(A) -> bool) -> bool {
    forall|i: int|
        0 <= i < lines.len() - 1 ==> #[trigger] lines[i].len() == 0 || sep(lines[i].last())
}

/// Reading the input line by line and splitting each line on its own hands out
/// exactly the tokens of the whole input, left to right: the refill boundary
/// between lines is never inside a token.
pub proof fn lemma_lines_tokens<A>(lines: Seq<Seq<A>>, sep: spec_fn(A) -> bool)
    requires
        lines_end_in_separator(lines, sep),
    ensures
        tokens_by_line(lines, sep) == split_words(lines.flatten(), sep),
    decreases lines.len(),
{
    if lines.len() == 0 {
        assert(split_words(Seq::<A>::empty(), sep) =~= seq![]);
    } else if lines.len() == 1 {
        assert(lines.drop_first() =~= Seq::<Seq<A>>::empty());
        lines.lemma_flatten_one_element();
        assert(tokens_by_line(lines.drop_first(), sep) == Seq::<Seq<A>>::empty());
        assert(tokens_by_line(lines, sep) =~= split_words(lines[0], sep));
    } else {
        let rest = lines.drop_first();
        assert(lines_end_in_separator(rest, sep)) by {
            assert forall|i: int| 0 <= i < rest.len() - 1 implies #[trigger] rest[i].len() == 0
                || sep(rest[i].last()) by {
                assert(rest[i] == lines[i + 1]);
            }
        }
        lemma_lines_tokens(rest, sep);
        assert(lines[0].len() == 0 || sep(lines[0].last()));
        lemma_split_concat(lines[0], rest.flatten(), sep);
    }
}

/// Lines of text handed one by one to a `Scanner` give the tokens of the
/// whole text.
pub proof fn lemma_lines_words(lines: Seq<Seq<char>>)
    requires
        lines_end_in_separator(lines, space_sep()),
    ensures
        tokens_by_line(lines, space_sep()) == words(lines.flatten()),
{
    lemma_lines_tokens(lines, space_sep());
}

/// The UTF-8 bytes of each token.
pub open spec fn encode_tokens(ws: Seq<Seq<char>>) -> Seq<Seq<u8>> {
    ws.map_values(|w: Seq<char>| encode_utf8(w))
}

/// The tokens of UTF-8 text, each as its bytes.
pub open spec fn utf8_words(b: Seq<u8>) -> Seq<Seq<u8>> {
    encode_tokens(words(decode_utf8(b)))
}

/// Encoding a text with one more character appends that character's bytes.
pub proof fn lemma_encode_push(x: Seq<char>, c: char)
    ensures
        encode_utf8(x.push(c)) == encode_utf8(x) + encode_scalar(c as u32),
    decreases x.len(),
{
    if x.len() == 0 {
        assert(x.push(c).drop_first() =~= Seq::<char>::empty());
        assert(x.push(c)[0] == c);
        assert(encode_utf8(Seq::<char>::empty()) =~= Seq::<u8>::empty());
        assert(encode_utf8(x.push(c)) =~= encode_utf8(x) + encode_scalar(c as u32));
    } else {
        assert(x.push(c).drop_first() =~= x.drop_first().push(c));
        lemma_encode_push(x.drop_first(), c);
        assert(x.push(c)[0] == x[0]);
        assert(encode_utf8(x.push(c)) =~= encode_utf8(x) + encode_scalar(c as u32));
    }
}

/// The two tokenizers agree on every text: the bytes that an `UnsafeScanner`
/// hands out for the UTF-8 encoding of a text, read back as UTF-8, are the
/// tokens that a `Scanner` hands out for the text, in the same order.
pub proof fn lemma_variants_agree(s: Seq<char>)
    ensures
        utf8_words(encode_utf8(s)).len() == words(s).len(),
        forall|i: int|
            0 <= i < words(s).len() ==> #[trigger] decode_utf8(utf8_words(encode_utf8(s))[i])
                == words(s)[i],
{
    broadcast use vstd::utf8::encode_utf8_decode_utf8;

    assert(decode_utf8(encode_utf8(s)) == s);
}

/// Lines of UTF-8 text handed one by one to an `UnsafeScanner` give the bytes
/// of the tokens of the whole text.
pub proof fn lemma_lines_utf8_words(lines: Seq<Seq<char>>)
    requires
        lines_end_in_separator(lines, space_sep()),
    ensures
        encode_tokens(tokens_by_line(lines, space_sep())) == utf8_words(
            encode_utf8(lines.flatten()),
        ),
{
    broadcast use vstd::utf8::encode_utf8_decode_utf8;

    lemma_lines_tokens(lines, space_sep());
    assert(decode_utf8(encode_utf8(lines.flatten())) == lines.flatten());
}

/// Whether `c` is whitespace, as `char::is_whitespace` decides it.
pub fn is_whitespace(c: char) -> (r: bool)
    ensures
        r == is_space(c),
{
    is_whitespace_code(c as u32)
}

/// Whether the code point `u` has the Unicode `White_Space` property.
pub fn is_whitespace_code(u: u32) -> (r: bool)
    ensures
        r == is_space_code(u),
{
    (0x09 <= u && u <= 0x0D) || u == 0x20 || u == 0x85 || u == 0xA0 || u == 0x1680 || (0x2000
        <= u && u <= 0x200A) || u == 0x2028 || u == 0x2029 || u == 0x202F || u == 0x205F || u
        == 0x3000
}

} // verus!
