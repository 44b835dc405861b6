//! What a caller that asks for tokens one at a time receives, over many calls.
//!
//! A caller holds a tokenizer and a source of lines. For each token it asks
//! for, it calls `token`; while that reports that nothing is pending it reads
//! the next line and passes it to `refill`. Both `Scanner` and `UnsafeScanner`
//! promise exactly this behaviour of their pending tokens, so the laws below
//! hold of either.
use crate::words::{
    lemma_blank_has_no_tokens, lemma_lines_tokens, lines_end_in_separator, space_sep,
    tokens_by_line, words,
};
use vstd::prelude::*;

verus! {

/// The tokens handed out by `k` requests, starting with `pending` and the
/// unread `lines`, and how many lines were read to serve them. Requests stop
/// being served when the lines run out.
pub open spec fn deliver(pending: Seq<Seq<char>>, lines: Seq<Seq<char>>, k: nat) -> (Seq<
    Seq<char>,
>, nat)
    decreases k, lines.len(),
{
    if k == 0 {
        (seq![], 0)
    } else if pending.len() > 0 {
        let r = deliver(pending.drop_first(), lines, (k - 1) as nat);
        (seq![pending[0]] + r.0, r.1)
    } else if lines.len() == 0 {
        (seq![], 0)
    } else {
        let r = deliver(words(lines[0]), lines.drop_first(), k);
        (r.0, r.1 + 1)
    }
}

proof fn lemma_deliver_prefix(pending: Seq<Seq<char>>, lines: Seq<Seq<char>>, k: nat)
    requires
        k <= (pending + tokens_by_line(lines, space_sep())).len(),
    ensures
        deliver(pending, lines, k).0 == (pending + tokens_by_line(lines, space_sep())).subrange(
            0,
            k as int,
        ),
    decreases k, lines.len(),
{
    let all = pending + tokens_by_line(lines, space_sep());
    if k == 0 {
        assert(all.subrange(0, 0) =~= Seq::<Seq<char>>::empty());
    } else if pending.len() > 0 {
        let rest = pending.drop_first() + tokens_by_line(lines, space_sep());
        assert(rest =~= all.drop_first());
        lemma_deliver_prefix(pending.drop_first(), lines, (k - 1) as nat);
        assert(seq![pending[0]] + rest.subrange(0, k - 1) =~= all.subrange(0, k as int));
    } else if lines.len() == 0 {
        assert(tokens_by_line(lines, space_sep()) =~= Seq::<Seq<char>>::empty());
    } else {
        assert(all =~= words(lines[0]) + tokens_by_line(lines.drop_first(), space_sep()));
        lemma_deliver_prefix(words(lines[0]), lines.drop_first(), k);
    }
}

/// Asking for `k` tokens, with nothing pending, of input read line by line
/// gives the first `k` tokens of the whole input split on whitespace runs,
/// left to right, none skipped, repeated or merged.
pub proof fn lemma_tokens_in_order(lines: Seq<Seq<char>>, k: nat)
    requires
        lines_end_in_separator(lines, space_sep()),
        k <= words(lines.flatten()).len(),
    ensures
        deliver(seq![], lines, k).0 == words(lines.flatten()).subrange(0, k as int),
{
    lemma_lines_tokens(lines, space_sep());
    assert(Seq::<Seq<char>>::empty() + tokens_by_line(lines, space_sep()) =~= tokens_by_line(
        lines,
        space_sep(),
    ));
    lemma_deliver_prefix(seq![], lines, k);
}

proof fn lemma_deliver_from_pending(pending: Seq<Seq<char>>, lines: Seq<Seq<char>>, k: nat)
    requires
        k <= pending.len(),
    ensures
        deliver(pending, lines, k) == (pending.subrange(0, k as int), 0nat),
    decreases k,
{
    if k == 0 {
        assert(pending.subrange(0, 0) =~= Seq::<Seq<char>>::empty());
    } else {
        lemma_deliver_from_pending(pending.drop_first(), lines, (k - 1) as nat);
        assert(seq![pending[0]] + pending.drop_first().subrange(0, k - 1) =~= pending.subrange(
            0,
            k as int,
        ));
    }
}

/// With nothing pending, lines made of whitespace alone give no token and
/// are read past; the first line that holds tokens serves up to all of them
/// with no further read. So `k` requests, `k` at most the number of tokens on
/// that line, read exactly the blank lines and that line, and receive that
/// line's first `k` tokens.
pub proof fn lemma_one_line_serves_its_tokens(lines: Seq<Seq<char>>, n: nat, k: nat)
    requires
        n < lines.len(),
        forall|i: int, j: int|
            0 <= i < n && 0 <= j < lines[i].len() ==> is_space_at(lines, i, j),
        1 <= k <= words(lines[n as int]).len(),
    ensures
        deliver(seq![], lines, k) == (words(lines[n as int]).subrange(0, k as int), n + 1),
    decreases n,
{
    if n == 0 {
        lemma_deliver_from_pending(words(lines[0]), lines.drop_first(), k);
    } else {
        assert forall|j: int| 0 <= j < lines[0].len() implies space_sep()(lines[0][j]) by {
            assert(is_space_at(lines, 0, j));
        }
        lemma_blank_has_no_tokens(lines[0], space_sep());
        let rest = lines.drop_first();
        assert forall|i: int, j: int|
            0 <= i < n - 1 && 0 <= j < rest[i].len() implies is_space_at(rest, i, j) by {
            assert(is_space_at(lines, i + 1, j));
        }
        assert(rest[n - 1] == lines[n as int]);
        lemma_one_line_serves_its_tokens(rest, (n - 1) as nat, k);
    }
}

/// Character `j` of line `i` is whitespace.
pub open spec fn is_space_at(lines: Seq<Seq<char>>, i: int, j: int) -> bool {
    space_sep()(lines[i][j])
}

} // verus!
