//! The word-wrap stage: a raw document (paragraphs separated by newline) is
//! turned into an ordered sequence of display lines, each packed greedily
//! against the pixel budget of one book line.
//!
//! A paragraph is split after every space character, so a word token keeps
//! its trailing space. Tokens are placed on the current line while they fit;
//! a token that would overflow a non-empty line wraps to a fresh line, and
//! the flushed line loses its trailing spaces. A token that alone reaches
//! the budget while the line is empty is packed character by character, the
//! unconsumed remainder re-queued at the front (such a token is also
//! reported, so a diagnostic can be surfaced).

use vstd::prelude::*;

use crate::glyph::char_width;
use crate::glyph::lemma_char_width_max;
use crate::glyph::lemma_line_width_bound;
use crate::glyph::lemma_line_width_take_step;
use crate::glyph::line_width;
use crate::glyph::mcbook_len;
use crate::glyph::trim_spaces;
use crate::glyph::trim_trailing_spaces;
use crate::views;

verus! {

/// Pixel budget of one display line: a line's measured width must stay
/// strictly below it.
pub const MAX_LINE_LENGTH: u128 = 113;

/// All the sequences of a list, glued in order.
pub open spec fn concat_all(ts: Seq<Seq<char>>) -> Seq<char>
    decreases ts.len(),
{
    if ts.len() == 0 {
        Seq::<char>::empty()
    } else {
        ts.first() + concat_all(ts.drop_first())
    }
}

pub proof fn lemma_concat_all_push(ts: Seq<Seq<char>>, x: Seq<char>)
    ensures
        concat_all(ts.push(x)) == concat_all(ts) + x,
    decreases ts.len(),
{
    if ts.len() == 0 {
        assert(ts.push(x).first() == x);
        assert(ts.push(x).drop_first() =~= Seq::<Seq<char>>::empty());
        assert(concat_all(ts.push(x)) == x + concat_all(Seq::<Seq<char>>::empty()));
        assert(concat_all(ts.push(x)) =~= concat_all(ts) + x);
    } else {
        assert(ts.push(x).drop_first() =~= ts.drop_first().push(x));
        lemma_concat_all_push(ts.drop_first(), x);
        assert(concat_all(ts.push(x)) =~= concat_all(ts) + x);
    }
}

/// The word tokens of a paragraph: the paragraph is cut after every space,
/// so every token except possibly the last carries its trailing space.
pub open spec fn tokenize(s: Seq<char>) -> Seq<Seq<char>>
    decreases s.len(),
{
    if s.len() == 0 {
        Seq::<Seq<char>>::empty()
    } else {
        let t = tokenize(s.drop_last());
        let c = s.last();
        if t.len() == 0 || t.last().last() == ' ' {
            t.push(seq![c])
        } else {
            t.update(t.len() - 1, t.last().push(c))
        }
    }
}

/// Every word token holds at least one character.
pub proof fn lemma_tokenize_nonempty(s: Seq<char>)
    ensures
        forall|k: int| 0 <= k < tokenize(s).len() ==> (#[trigger] tokenize(s)[k]).len() > 0,
    decreases s.len(),
{
    if s.len() > 0 {
        lemma_tokenize_nonempty(s.drop_last());
        let t = tokenize(s.drop_last());
        let c = s.last();
        assert forall|k: int| 0 <= k < tokenize(s).len() implies (#[trigger] tokenize(s)[
            k
        ]).len() > 0 by {
            if t.len() == 0 || t.last().last() == ' ' {
                if k < t.len() {
                    assert(tokenize(s)[k] == t[k]);
                } else {
                    assert(tokenize(s)[k] == seq![c]);
                }
            } else {
                if k == t.len() - 1 {
                    assert(tokenize(s)[k] == t.last().push(c));
                } else {
                    assert(tokenize(s)[k] == t[k]);
                }
            }
        }
    }
}

/// Tokenizing loses nothing: the tokens glued back together are the
/// paragraph.
pub proof fn lemma_tokenize_concat(s: Seq<char>)
    ensures
        concat_all(tokenize(s)) == s,
    decreases s.len(),
{
    if s.len() == 0 {
        assert(concat_all(tokenize(s)) =~= s);
    } else {
        lemma_tokenize_concat(s.drop_last());
        let t = tokenize(s.drop_last());
        let c = s.last();
        if t.len() == 0 || t.last().last() == ' ' {
            lemma_concat_all_push(t, seq![c]);
            assert(concat_all(t) + seq![c] =~= s);
        } else {
            let t2 = t.update(t.len() - 1, t.last().push(c));
            assert(t2 =~= t.drop_last().push(t.last().push(c)));
            lemma_concat_all_push(t.drop_last(), t.last().push(c));
            assert(t =~= t.drop_last().push(t.last()));
            lemma_concat_all_push(t.drop_last(), t.last());
            assert(concat_all(t.drop_last()) + t.last().push(c) =~= (concat_all(t.drop_last())
                + t.last()).push(c));
            assert(concat_all(t2) =~= s);
        }
    }
}

/// The paragraphs of a raw document: the text split at every newline. An
/// empty document is one empty paragraph.
pub open spec fn split_paras(s: Seq<char>) -> Seq<Seq<char>>
    decreases s.len(),
{
    if s.len() == 0 {
        seq![Seq::<char>::empty()]
    } else {
        let t = split_paras(s.drop_last());
        let c = s.last();
        if c == '\n' {
            t.push(Seq::<char>::empty())
        } else {
            t.update(t.len() - 1, t.last().push(c))
        }
    }
}

/// Total character count of a token list.
pub open spec fn sum_len(ts: Seq<Seq<char>>) -> nat
    decreases ts.len(),
{
    if ts.len() == 0 {
        0
    } else {
        ts.first().len() + sum_len(ts.drop_first())
    }
}

pub proof fn lemma_sum_len_cons(x: Seq<char>, rest: Seq<Seq<char>>)
    ensures
        sum_len(seq![x] + rest) == x.len() + sum_len(rest),
{
    assert((seq![x] + rest).first() == x);
    assert((seq![x] + rest).drop_first() =~= rest);
}

/// How many leading characters of an over-long token forced packing takes
/// before the line must be flushed: characters are accepted from position
/// `j` on while the accumulated width plus the next glyph's width stays
/// below the budget.
pub open spec fn pack_len_from(w: Seq<char>, j: nat) -> nat
    decreases w.len() - j,
{
    if j >= w.len() {
        w.len()
    } else if line_width(w.take(j as int)) + char_width(w[j as int]) < MAX_LINE_LENGTH {
        pack_len_from(w, j + 1)
    } else {
        j
    }
}

pub open spec fn pack_len(w: Seq<char>) -> nat {
    pack_len_from(w, 0)
}

pub proof fn lemma_pack_len_bounds(w: Seq<char>, j: nat)
    requires
        j <= w.len(),
    ensures
        j <= pack_len_from(w, j) <= w.len(),
    decreases w.len() - j,
{
    if j < w.len() && line_width(w.take(j as int)) + char_width(w[j as int])
        < MAX_LINE_LENGTH {
        lemma_pack_len_bounds(w, j + 1);
    }
}

/// Forced packing always makes progress: whatever the first character is
/// (the fallback width 16 included), it fits an empty line, because every
/// glyph is narrower than the budget.
pub proof fn lemma_pack_progress(w: Seq<char>)
    requires
        w.len() > 0,
    ensures
        1 <= pack_len(w) <= w.len(),
{
    assert(w.take(0) =~= Seq::<char>::empty());
    lemma_char_width_max(w[0]);
    lemma_pack_len_bounds(w, 1);
}

/// One step at a time, the wrapper turns the queued tokens plus the current
/// line buffer into display lines. The result is the pair of the emitted
/// lines and the over-long tokens met on an empty line (those are packed
/// character by character and reported).
///
/// - An empty queue flushes the buffer as the paragraph's final line, even
///   when the buffer is empty.
/// - A token that fits the budget on its own is placed on an empty line.
/// - A token at or above the budget on an empty line is reported and force
///   packed: its longest acceptable prefix becomes a line and the remainder
///   returns to the front of the queue (if every character is accepted, the
///   whole token simply becomes the buffer).
/// - A token whose width added to a non-empty buffer's width stays below
///   the budget is appended to the buffer.
/// - Otherwise the buffer is flushed, without its trailing spaces, and the
///   token starts the next line.
pub open spec fn wrap_from(toks: Seq<Seq<char>>, cur: Seq<char>) -> (Seq<Seq<char>>, Seq<
    Seq<char>,
>)
    decreases sum_len(toks), toks.len(),
    via wrap_from_decreases
{
    if toks.len() == 0 {
        (seq![cur], Seq::<Seq<char>>::empty())
    } else {
        let w = toks.first();
        let rest = toks.drop_first();
        if cur.len() == 0 {
            if line_width(w) < MAX_LINE_LENGTH {
                wrap_from(rest, w)
            } else {
                let k = pack_len(w);
                if k == 0 || k >= w.len() {
                    let r = wrap_from(rest, w);
                    (r.0, seq![w] + r.1)
                } else {
                    let r = wrap_from(seq![w.skip(k as int)] + rest, Seq::<char>::empty());
                    (seq![w.take(k as int)] + r.0, seq![w] + r.1)
                }
            }
        } else {
            if line_width(cur) + line_width(w) < MAX_LINE_LENGTH {
                wrap_from(rest, cur + w)
            } else {
                let r = wrap_from(rest, w);
                (seq![trim_spaces(cur)] + r.0, r.1)
            }
        }
    }
}

#[via_fn]
proof fn wrap_from_decreases(toks: Seq<Seq<char>>, cur: Seq<char>) {
    if toks.len() > 0 {
        let w = toks.first();
        let rest = toks.drop_first();
        assert(toks =~= seq![w] + rest);
        lemma_sum_len_cons(w, rest);
        if cur.len() == 0 && !(line_width(w) < MAX_LINE_LENGTH) {
            let k = pack_len(w);
            if !(k == 0 || k >= w.len()) {
                lemma_sum_len_cons(w.skip(k as int), rest);
            }
        }
    }
}

/// The wrapper on one paragraph: its tokens, processed from an empty line
/// buffer. Yields the paragraph's display lines and the reported over-long
/// tokens.
pub open spec fn wrap_para(p: Seq<char>) -> (Seq<Seq<char>>, Seq<Seq<char>>) {
    wrap_from(tokenize(p), Seq::<char>::empty())
}

/// The wrapper over a whole document: each paragraph's lines in document
/// order, one paragraph's lines contiguous and in order before the next's.
pub open spec fn wrap_paras(ps: Seq<Seq<char>>) -> (Seq<Seq<char>>, Seq<Seq<char>>)
    decreases ps.len(),
{
    if ps.len() == 0 {
        (Seq::<Seq<char>>::empty(), Seq::<Seq<char>>::empty())
    } else {
        let h = wrap_para(ps.first());
        let t = wrap_paras(ps.drop_first());
        (h.0 + t.0, h.1 + t.1)
    }
}

pub open spec fn wrap_doc(s: Seq<char>) -> (Seq<Seq<char>>, Seq<Seq<char>>) {
    wrap_paras(split_paras(s))
}

/// The wrapper's lines before the flush-time trim: the same decisions as
/// [`wrap_from`], but a line flushed on overflow keeps its trailing spaces.
pub open spec fn wrap_raw_from(toks: Seq<Seq<char>>, cur: Seq<char>) -> Seq<Seq<char>>
    decreases sum_len(toks), toks.len(),
    via wrap_raw_from_decreases
{
    if toks.len() == 0 {
        seq![cur]
    } else {
        let w = toks.first();
        let rest = toks.drop_first();
        if cur.len() == 0 {
            if line_width(w) < MAX_LINE_LENGTH {
                wrap_raw_from(rest, w)
            } else {
                let k = pack_len(w);
                if k == 0 || k >= w.len() {
                    wrap_raw_from(rest, w)
                } else {
                    seq![w.take(k as int)] + wrap_raw_from(
                        seq![w.skip(k as int)] + rest,
                        Seq::<char>::empty(),
                    )
                }
            }
        } else {
            if line_width(cur) + line_width(w) < MAX_LINE_LENGTH {
                wrap_raw_from(rest, cur + w)
            } else {
                seq![cur] + wrap_raw_from(rest, w)
            }
        }
    }
}

#[via_fn]
proof fn wrap_raw_from_decreases(toks: Seq<Seq<char>>, cur: Seq<char>) {
    if toks.len() > 0 {
        let w = toks.first();
        let rest = toks.drop_first();
        assert(toks =~= seq![w] + rest);
        lemma_sum_len_cons(w, rest);
        if cur.len() == 0 && !(line_width(w) < MAX_LINE_LENGTH) {
            let k = pack_len(w);
            if !(k == 0 || k >= w.len()) {
                lemma_sum_len_cons(w.skip(k as int), rest);
            }
        }
    }
}

/// The wrapper's untrimmed lines for one paragraph.
pub open spec fn wrap_raw_para(p: Seq<char>) -> Seq<Seq<char>> {
    wrap_raw_from(tokenize(p), Seq::<char>::empty())
}

/// The untrimmed lines concatenate back to the buffer plus every queued
/// token: the wrapper neither drops, reorders nor alters a character.
pub proof fn lemma_wrap_raw_concat(toks: Seq<Seq<char>>, cur: Seq<char>)
    ensures
        concat_all(wrap_raw_from(toks, cur)) == cur + concat_all(toks),
    decreases sum_len(toks), toks.len(),
{
    if toks.len() == 0 {
        assert(seq![cur].first() == cur);
        assert(seq![cur].drop_first() =~= Seq::<Seq<char>>::empty());
        assert(concat_all(seq![cur]) == cur + concat_all(Seq::<Seq<char>>::empty()));
        assert(concat_all(wrap_raw_from(toks, cur)) =~= cur + concat_all(toks));
    } else {
        let w = toks.first();
        let rest = toks.drop_first();
        assert(toks =~= seq![w] + rest);
        lemma_sum_len_cons(w, rest);
        if cur.len() == 0 {
            if line_width(w) < MAX_LINE_LENGTH {
                lemma_wrap_raw_concat(rest, w);
                assert(w + concat_all(rest) =~= cur + concat_all(toks));
            } else {
                let k = pack_len(w);
                if k == 0 || k >= w.len() {
                    lemma_wrap_raw_concat(rest, w);
                    assert(w + concat_all(rest) =~= cur + concat_all(toks));
                } else {
                    let q = seq![w.skip(k as int)] + rest;
                    lemma_sum_len_cons(w.skip(k as int), rest);
                    lemma_wrap_raw_concat(q, Seq::<char>::empty());
                    assert(q.first() == w.skip(k as int));
                    assert(q.drop_first() =~= rest);
                    let out = seq![w.take(k as int)] + wrap_raw_from(q, Seq::<char>::empty());
                    assert(out.first() == w.take(k as int));
                    assert(out.drop_first() =~= wrap_raw_from(q, Seq::<char>::empty()));
                    assert(concat_all(out) == w.take(k as int) + concat_all(out.drop_first()));
                    assert(w.take(k as int) + (Seq::<char>::empty() + (w.skip(k as int)
                        + concat_all(rest))) =~= cur + concat_all(toks));
                }
            }
        } else {
            if line_width(cur) + line_width(w) < MAX_LINE_LENGTH {
                lemma_wrap_raw_concat(rest, cur + w);
                assert((cur + w) + concat_all(rest) =~= cur + concat_all(toks));
            } else {
                lemma_wrap_raw_concat(rest, w);
                let out = seq![cur] + wrap_raw_from(rest, w);
                assert(out.first() == cur);
                assert(out.drop_first() =~= wrap_raw_from(rest, w));
                assert(concat_all(out) == cur + concat_all(out.drop_first()));
                assert(cur + (w + concat_all(rest)) =~= cur + concat_all(toks));
            }
        }
    }
}

/// The emitted lines match the untrimmed lines one for one; a line differs
/// at most by the trailing spaces the flush removed.
pub proof fn lemma_wrap_trim_vs_raw(toks: Seq<Seq<char>>, cur: Seq<char>)
    ensures
        wrap_from(toks, cur).0.len() == wrap_raw_from(toks, cur).len(),
        forall|i: int|
            0 <= i < wrap_from(toks, cur).0.len() ==> #[trigger] wrap_from(toks, cur).0[i]
                == wrap_raw_from(toks, cur)[i] || wrap_from(toks, cur).0[i] == trim_spaces(
                wrap_raw_from(toks, cur)[i],
            ),
    decreases sum_len(toks), toks.len(),
{
    if toks.len() == 0 {
    } else {
        let w = toks.first();
        let rest = toks.drop_first();
        assert(toks =~= seq![w] + rest);
        lemma_sum_len_cons(w, rest);
        if cur.len() == 0 {
            if line_width(w) < MAX_LINE_LENGTH {
                lemma_wrap_trim_vs_raw(rest, w);
            } else {
                let k = pack_len(w);
                if k == 0 || k >= w.len() {
                    lemma_wrap_trim_vs_raw(rest, w);
                } else {
                    let q = seq![w.skip(k as int)] + rest;
                    lemma_sum_len_cons(w.skip(k as int), rest);
                    lemma_wrap_trim_vs_raw(q, Seq::<char>::empty());
                    let a = wrap_from(toks, cur).0;
                    let b = wrap_raw_from(toks, cur);
                    assert forall|i: int| 0 <= i < a.len() implies #[trigger] a[i] == b[i] || a[i]
                        == trim_spaces(b[i]) by {
                        if i > 0 {
                            assert(a[i] == wrap_from(q, Seq::<char>::empty()).0[i - 1]);
                            assert(b[i] == wrap_raw_from(q, Seq::<char>::empty())[i - 1]);
                        }
                    }
                }
            }
        } else {
            if line_width(cur) + line_width(w) < MAX_LINE_LENGTH {
                lemma_wrap_trim_vs_raw(rest, cur + w);
            } else {
                lemma_wrap_trim_vs_raw(rest, w);
                let a = wrap_from(toks, cur).0;
                let b = wrap_raw_from(toks, cur);
                assert forall|i: int| 0 <= i < a.len() implies #[trigger] a[i] == b[i] || a[i]
                    == trim_spaces(b[i]) by {
                    if i > 0 {
                        assert(a[i] == wrap_from(rest, w).0[i - 1]);
                        assert(b[i] == wrap_raw_from(rest, w)[i - 1]);
                    }
                }
            }
        }
    }
}

/// No token is dropped, reordered or altered by wrapping a paragraph: the
/// lines as they stood before the flush-time trim concatenate back to the
/// paragraph exactly, and each emitted line differs from its untrimmed form
/// at most by trailing spaces.
pub proof fn lemma_wrap_reconstructs(p: Seq<char>)
    ensures
        concat_all(wrap_raw_para(p)) == p,
        wrap_para(p).0.len() == wrap_raw_para(p).len(),
        forall|i: int|
            0 <= i < wrap_para(p).0.len() ==> #[trigger] wrap_para(p).0[i] == wrap_raw_para(p)[i]
                || wrap_para(p).0[i] == trim_spaces(wrap_raw_para(p)[i]),
{
    lemma_tokenize_concat(p);
    lemma_wrap_raw_concat(tokenize(p), Seq::<char>::empty());
    assert(Seq::<char>::empty() + concat_all(tokenize(p)) =~= p);
    lemma_wrap_trim_vs_raw(tokenize(p), Seq::<char>::empty());
}

/// Any prefix that forced packing accepts measures within the budget;
/// when every character is accepted, the whole token fits it.
pub proof fn lemma_pack_prefix_fits(w: Seq<char>, j: nat)
    requires
        j <= w.len(),
        line_width(w.take(j as int)) <= MAX_LINE_LENGTH,
    ensures
        line_width(w.take(pack_len_from(w, j) as int)) <= MAX_LINE_LENGTH,
    decreases w.len() - j,
{
    if j < w.len() && line_width(w.take(j as int)) + char_width(w[j as int])
        < MAX_LINE_LENGTH {
        lemma_line_width_take_step(w, j as int);
        lemma_pack_prefix_fits(w, j + 1);
    }
}

/// Every line the wrapper emits measures within the budget, except possibly
/// one equal to a token of the set `e`, or to such a token less its
/// trailing spaces: `e` names the tokens the preconditions allow to
/// overflow. The queue's head needs no constraint while the buffer is
/// empty, because forced packing splits it before it can overflow a line.
proof fn lemma_wrap_width_cases(toks: Seq<Seq<char>>, cur: Seq<char>, e: Set<Seq<char>>)
    requires
        forall|k: int|
            1 <= k < toks.len() ==> line_width(#[trigger] toks[k]) < MAX_LINE_LENGTH
                || e.contains(toks[k]),
        toks.len() > 0 && cur.len() > 0 ==> line_width(toks[0]) < MAX_LINE_LENGTH
            || e.contains(toks[0]),
        line_width(cur) <= MAX_LINE_LENGTH || e.contains(cur),
    ensures
        forall|i: int|
            0 <= i < wrap_from(toks, cur).0.len() ==> line_width(
                #[trigger] wrap_from(toks, cur).0[i],
            ) <= MAX_LINE_LENGTH || e.contains(wrap_from(toks, cur).0[i]) || exists|t: Seq<char>|
                e.contains(t) && wrap_from(toks, cur).0[i] == #[trigger] trim_spaces(t),
    decreases sum_len(toks), toks.len(),
{
    let a = wrap_from(toks, cur).0;
    if toks.len() == 0 {
        assert forall|i: int| 0 <= i < a.len() implies line_width(#[trigger] a[i])
            <= MAX_LINE_LENGTH || e.contains(a[i]) || exists|t: Seq<char>|
            e.contains(t) && a[i] == #[trigger] trim_spaces(t) by {
            assert(a[i] == cur);
        }
    } else {
        let w = toks.first();
        let rest = toks.drop_first();
        assert(toks =~= seq![w] + rest);
        lemma_sum_len_cons(w, rest);
        assert(forall|k: int|
            1 <= k < rest.len() ==> line_width(#[trigger] rest[k]) < MAX_LINE_LENGTH
                || e.contains(rest[k])) by {
            assert(forall|k: int| 0 <= k < rest.len() ==> rest[k] == toks[k + 1]);
        }
        if rest.len() > 0 {
            assert(rest[0] == toks[1]);
        }
        if cur.len() == 0 {
            if line_width(w) < MAX_LINE_LENGTH {
                lemma_wrap_width_cases(rest, w, e);
                assert forall|i: int| 0 <= i < a.len() implies line_width(#[trigger] a[i])
                    <= MAX_LINE_LENGTH || e.contains(a[i]) || exists|t: Seq<char>|
                    e.contains(t) && a[i] == #[trigger] trim_spaces(t) by {
                    assert(a[i] == wrap_from(rest, w).0[i]);
                    assert(line_width(wrap_from(rest, w).0[i]) <= MAX_LINE_LENGTH
                        || e.contains(wrap_from(rest, w).0[i]) || exists|t: Seq<char>|
                        e.contains(t) && wrap_from(rest, w).0[i] == #[trigger] trim_spaces(t));
                }
            } else {
                let k = pack_len(w);
                assert(w.len() > 0);
                lemma_pack_progress(w);
                assert(line_width(w.take(0)) == 0);
                lemma_pack_prefix_fits(w, 0);
                if k == 0 || k >= w.len() {
                    assert(k == w.len());
                    assert(w.take(k as int) =~= w);
                    assert(line_width(w) <= MAX_LINE_LENGTH);
                    lemma_wrap_width_cases(rest, w, e);
                    assert forall|i: int| 0 <= i < a.len() implies line_width(#[trigger] a[i])
                        <= MAX_LINE_LENGTH || e.contains(a[i]) || exists|t: Seq<char>|
                        e.contains(t) && a[i] == #[trigger] trim_spaces(t) by {
                        assert(a[i] == wrap_from(rest, w).0[i]);
                        assert(line_width(wrap_from(rest, w).0[i]) <= MAX_LINE_LENGTH
                            || e.contains(wrap_from(rest, w).0[i]) || exists|t: Seq<char>|
                            e.contains(t) && wrap_from(rest, w).0[i] == #[trigger] trim_spaces(
                            t,
                        ));
                    }
                } else {
                    let q = seq![w.skip(k as int)] + rest;
                    lemma_sum_len_cons(w.skip(k as int), rest);
                    assert(forall|m: int|
                        1 <= m < q.len() ==> #[trigger] q[m] == rest[m - 1] && q[m] == toks[m]);
                    lemma_wrap_width_cases(q, Seq::<char>::empty(), e);
                    assert forall|i: int| 0 <= i < a.len() implies line_width(#[trigger] a[i])
                        <= MAX_LINE_LENGTH || e.contains(a[i]) || exists|t: Seq<char>|
                        e.contains(t) && a[i] == #[trigger] trim_spaces(t) by {
                        if i == 0 {
                            assert(a[0] == w.take(k as int));
                        } else {
                            assert(a[i] == wrap_from(q, Seq::<char>::empty()).0[i - 1]);
                            assert(line_width(wrap_from(q, Seq::<char>::empty()).0[i - 1])
                                <= MAX_LINE_LENGTH || e.contains(wrap_from(
                                q,
                                Seq::<char>::empty(),
                            ).0[i - 1]) || exists|t: Seq<char>|
                                e.contains(t) && wrap_from(q, Seq::<char>::empty()).0[i - 1]
                                    == #[trigger] trim_spaces(t));
                        }
                    }
                }
            }
        } else {
            if line_width(cur) + line_width(w) < MAX_LINE_LENGTH {
                crate::glyph::lemma_line_width_concat(cur, w);
                lemma_wrap_width_cases(rest, cur + w, e);
                assert forall|i: int| 0 <= i < a.len() implies line_width(#[trigger] a[i])
                    <= MAX_LINE_LENGTH || e.contains(a[i]) || exists|t: Seq<char>|
                    e.contains(t) && a[i] == #[trigger] trim_spaces(t) by {
                    assert(a[i] == wrap_from(rest, cur + w).0[i]);
                    assert(line_width(wrap_from(rest, cur + w).0[i]) <= MAX_LINE_LENGTH
                        || e.contains(wrap_from(rest, cur + w).0[i]) || exists|t: Seq<char>|
                        e.contains(t) && wrap_from(rest, cur + w).0[i] == #[trigger] trim_spaces(
                        t,
                    ));
                }
            } else {
                crate::glyph::lemma_trim_spaces_width(cur);
                lemma_wrap_width_cases(rest, w, e);
                assert forall|i: int| 0 <= i < a.len() implies line_width(#[trigger] a[i])
                    <= MAX_LINE_LENGTH || e.contains(a[i]) || exists|t: Seq<char>|
                    e.contains(t) && a[i] == #[trigger] trim_spaces(t) by {
                    if i == 0 {
                        assert(a[0] == trim_spaces(cur));
                        if !(line_width(cur) <= MAX_LINE_LENGTH) {
                            assert(e.contains(cur) && a[0] == trim_spaces(cur));
                        }
                    } else {
                        assert(a[i] == wrap_from(rest, w).0[i - 1]);
                        assert(line_width(wrap_from(rest, w).0[i - 1]) <= MAX_LINE_LENGTH
                            || e.contains(wrap_from(rest, w).0[i - 1]) || exists|t: Seq<char>|
                            e.contains(t) && wrap_from(rest, w).0[i - 1] == #[trigger] trim_spaces(
                            t,
                        ));
                    }
                }
            }
        }
    }
}

/// The word tokens of the paragraph whose own width alone reaches the pixel
/// budget.
pub open spec fn overwide_tokens(p: Seq<char>) -> Set<Seq<char>> {
    Set::new(|t: Seq<char>| tokenize(p).contains(t) && line_width(t) >= MAX_LINE_LENGTH)
}

/// Every line the wrapper emits for a paragraph measures at most the pixel
/// budget, unless the line is exactly one token that alone reaches the
/// budget (or such a token less its trailing spaces): a token at or above
/// the budget that arrives at a non-empty line is carried whole to a line
/// of its own. A forced-packed fragment stays within the budget, and can
/// reach it exactly, because the wrapper's fit tests leave out the kerning
/// unit in front of the arriving character or token.
pub proof fn lemma_wrapped_lines_fit(p: Seq<char>)
    ensures
        forall|i: int|
            0 <= i < wrap_para(p).0.len() ==> line_width(#[trigger] wrap_para(p).0[i])
                <= MAX_LINE_LENGTH || overwide_tokens(p).contains(wrap_para(p).0[i]) || exists|
                t: Seq<char>,
            |
                overwide_tokens(p).contains(t) && wrap_para(p).0[i] == #[trigger] trim_spaces(t),
{
    let e = overwide_tokens(p);
    assert(forall|k: int|
        0 <= k < tokenize(p).len() ==> line_width(#[trigger] tokenize(p)[k]) < MAX_LINE_LENGTH
            || e.contains(tokenize(p)[k])) by {
        assert(forall|k: int|
            0 <= k < tokenize(p).len() ==> tokenize(p).contains(#[trigger] tokenize(p)[k]));
    }
    lemma_wrap_width_cases(tokenize(p), Seq::<char>::empty(), e);
}

/// A non-empty buffer whose content plus every remaining token fits within
/// the budget comes out as one single line, with nothing reported.
proof fn lemma_wrap_fits_from(toks: Seq<Seq<char>>, cur: Seq<char>)
    requires
        forall|k: int| 0 <= k < toks.len() ==> (#[trigger] toks[k]).len() > 0,
        cur.len() > 0,
        line_width(cur + concat_all(toks)) <= MAX_LINE_LENGTH,
    ensures
        wrap_from(toks, cur) == (seq![cur + concat_all(toks)], Seq::<Seq<char>>::empty()),
    decreases toks.len(),
{
    if toks.len() == 0 {
        assert(cur + concat_all(toks) =~= cur);
    } else {
        let w = toks.first();
        let rest = toks.drop_first();
        assert((#[trigger] toks[0]).len() > 0);
        assert((cur + w) + concat_all(rest) =~= cur + concat_all(toks));
        crate::glyph::lemma_line_width_concat(cur + w, concat_all(rest));
        crate::glyph::lemma_line_width_concat(cur, w);
        assert(line_width(cur) + line_width(w) < MAX_LINE_LENGTH);
        assert(forall|k: int| 0 <= k < rest.len() ==> (#[trigger] rest[k]).len() > 0) by {
            assert(forall|k: int| 0 <= k < rest.len() ==> rest[k] == toks[k + 1]);
        }
        lemma_wrap_fits_from(rest, cur + w);
    }
}

/// Re-wrapping one of its own lines, the wrapper returns it unchanged as a
/// single line: a line that already fits the budget strictly is neither
/// shortened nor split, and nothing is reported.
pub proof fn lemma_wrap_idempotent(l: Seq<char>)
    requires
        line_width(l) < MAX_LINE_LENGTH,
    ensures
        wrap_para(l) == (seq![l], Seq::<Seq<char>>::empty()),
{
    lemma_tokenize_concat(l);
    lemma_tokenize_nonempty(l);
    let ts = tokenize(l);
    if ts.len() == 0 {
        assert(concat_all(ts) =~= Seq::<char>::empty());
        assert(l =~= Seq::<char>::empty());
        assert(wrap_from(ts, Seq::<char>::empty()) == (
            seq![Seq::<char>::empty()],
            Seq::<Seq<char>>::empty(),
        ));
        assert(seq![l] =~= seq![Seq::<char>::empty()]);
    } else {
        let w = ts.first();
        let rest = ts.drop_first();
        assert(l == w + concat_all(rest));
        crate::glyph::lemma_line_width_concat(w, concat_all(rest));
        if rest.len() == 0 {
            assert(concat_all(rest) =~= Seq::<char>::empty());
            assert(w + concat_all(rest) =~= w);
            assert(w == l);
            assert(line_width(w) < MAX_LINE_LENGTH);
            assert(wrap_from(ts, Seq::<char>::empty()) == wrap_from(rest, w));
            assert(wrap_from(rest, w) == (seq![w], Seq::<Seq<char>>::empty()));
        } else {
            assert((#[trigger] ts[0]).len() > 0);
            assert(forall|k: int| 0 <= k < rest.len() ==> (#[trigger] rest[k]).len() > 0) by {
                assert(forall|k: int| 0 <= k < rest.len() ==> rest[k] == ts[k + 1]);
            }
            assert(line_width(w) <= line_width(l));
            assert(line_width(w) < MAX_LINE_LENGTH);
            lemma_wrap_fits_from(rest, w);
            assert(w + concat_all(rest) =~= l);
            assert(wrap_from(ts, Seq::<char>::empty()) == wrap_from(rest, w));
        }
    }
}

/// An empty paragraph yields exactly one empty display line, preserving the
/// blank line from the source, and nothing is reported.
pub proof fn lemma_empty_paragraph()
    ensures
        wrap_para(Seq::<char>::empty()) == (
            seq![Seq::<char>::empty()],
            Seq::<Seq<char>>::empty(),
        ),
{
}

/// The token still being gathered by the exec tokenizer, as a (possibly
/// empty) token list.
spec fn partial_token(s: Seq<char>, start: int, j: int) -> Seq<Seq<char>> {
    if start < j {
        seq![s.subrange(start, j)]
    } else {
        Seq::<Seq<char>>::empty()
    }
}

/// The word tokens of one paragraph, split after every space character.
pub fn split_words(para: &str) -> (toks: Vec<String>)
    ensures
        views(toks@) == tokenize(para@),
{
    let n = para.unicode_len();
    let mut toks: Vec<String> = Vec::new();
    let mut start: usize = 0;
    let mut j: usize = 0;
    proof {
        assert(para@.take(0) =~= Seq::<char>::empty());
        assert(views(toks@) =~= Seq::<Seq<char>>::empty());
        assert(views(toks@) + partial_token(para@, 0, 0) =~= Seq::<Seq<char>>::empty());
    }
    while j < n
        invariant
            n == para@.len(),
            start <= j <= n,
            start < j ==> para@[j - 1] != ' ',
            forall|k: int|
                0 <= k < toks@.len() ==> (#[trigger] toks@[k])@.len() > 0 && toks@[k]@.last()
                    == ' ',
            tokenize(para@.take(j as int)) == views(toks@) + partial_token(
                para@,
                start as int,
                j as int,
            ),
        decreases n - j,
    {
        let c = para.get_char(j);
        proof {
            assert(para@.take(j + 1).drop_last() =~= para@.take(j as int));
            assert(para@.take(j + 1).last() == para@[j as int]);
            if start < j {
                assert((views(toks@) + partial_token(para@, start as int, j as int)).last()
                    == para@.subrange(start as int, j as int));
                assert(para@.subrange(start as int, j as int).push(para@[j as int])
                    =~= para@.subrange(start as int, j + 1));
                assert((views(toks@) + partial_token(para@, start as int, j as int)).update(
                    toks@.len() as int,
                    para@.subrange(start as int, j + 1),
                ) =~= views(toks@) + partial_token(para@, start as int, j + 1));
            } else {
                assert(para@.subrange(start as int, j + 1) =~= seq![para@[j as int]]);
                assert((views(toks@) + partial_token(para@, start as int, j as int)).push(
                    para@.subrange(start as int, j + 1),
                ) =~= views(toks@) + partial_token(para@, start as int, j + 1));
                if toks@.len() > 0 {
                    assert((views(toks@) + partial_token(para@, start as int, j as int)).last()
                        == toks@[toks@.len() - 1]@);
                }
            }
        }
        if c == ' ' {
            let t = para.substring_char(start, j + 1).to_owned();
            proof {
                crate::lemma_views_push(toks@, t);
                assert(views(toks@).push(t@) + partial_token(para@, j + 1, j + 1) =~= views(
                    toks@,
                ) + partial_token(para@, start as int, j + 1));
            }
            toks.push(t);
            start = j + 1;
        }
        j = j + 1;
    }
    proof {
        assert(para@.take(n as int) =~= para@);
    }
    if start < n {
        let t = para.substring_char(start, n).to_owned();
        proof {
            crate::lemma_views_push(toks@, t);
            assert(views(toks@).push(t@) =~= views(toks@) + partial_token(
                para@,
                start as int,
                n as int,
            ));
        }
        toks.push(t);
    } else {
        proof {
            assert(views(toks@) =~= views(toks@) + partial_token(para@, start as int, n as int));
        }
    }
    toks
}

/// The paragraphs of the document, split at every newline; an empty
/// document is one empty paragraph.
pub fn split_paragraphs(text: &str) -> (paras: Vec<String>)
    ensures
        views(paras@) == split_paras(text@),
{
    let n = text.unicode_len();
    let mut paras: Vec<String> = Vec::new();
    let mut start: usize = 0;
    let mut j: usize = 0;
    proof {
        assert(text@.take(0) =~= Seq::<char>::empty());
        assert(text@.subrange(0, 0) =~= Seq::<char>::empty());
        assert(views(paras@).push(text@.subrange(0, 0)) =~= seq![Seq::<char>::empty()]);
    }
    while j < n
        invariant
            n == text@.len(),
            start <= j <= n,
            split_paras(text@.take(j as int)) == views(paras@).push(
                text@.subrange(start as int, j as int),
            ),
        decreases n - j,
    {
        let c = text.get_char(j);
        proof {
            assert(text@.take(j + 1).drop_last() =~= text@.take(j as int));
            assert(text@.take(j + 1).last() == text@[j as int]);
            assert(views(paras@).push(text@.subrange(start as int, j as int)).last()
                == text@.subrange(start as int, j as int));
        }
        if c == '\n' {
            let p = text.substring_char(start, j).to_owned();
            proof {
                crate::lemma_views_push(paras@, p);
                assert(text@.subrange(j + 1, j + 1) =~= Seq::<char>::empty());
                assert(views(paras@).push(text@.subrange(start as int, j as int)).push(
                    Seq::<char>::empty(),
                ) =~= views(paras@.push(p)).push(text@.subrange(j + 1, j + 1)));
            }
            paras.push(p);
            start = j + 1;
        } else {
            proof {
                assert(text@.subrange(start as int, j as int).push(text@[j as int])
                    =~= text@.subrange(start as int, j + 1));
                assert(views(paras@).push(text@.subrange(start as int, j as int)).update(
                    views(paras@).len() as int,
                    text@.subrange(start as int, j + 1),
                ) =~= views(paras@).push(text@.subrange(start as int, j + 1)));
            }
        }
        j = j + 1;
    }
    let p = text.substring_char(start, n).to_owned();
    proof {
        assert(text@.take(n as int) =~= text@);
        crate::lemma_views_push(paras@, p);
    }
    paras.push(p);
    paras
}

/// How many leading characters of the token forced packing accepts before
/// the line must be flushed.
fn pack_prefix(w: &str) -> (k: usize)
    ensures
        k as nat == pack_len(w@),
        k <= w@.len(),
{
    let n = w.unicode_len();
    let mut acc: u128 = 0;
    let mut j: usize = 0;
    proof {
        assert(w@.take(0) =~= Seq::<char>::empty());
    }
    while j < n
        invariant
            n == w@.len(),
            j <= n,
            acc as nat == line_width(w@.take(j as int)),
            pack_len(w@) == pack_len_from(w@, j as nat),
        decreases n - j,
    {
        let c = w.get_char(j);
        let cw = crate::glyph::mc_char_len(c);
        proof {
            lemma_line_width_bound(w@.take(j as int));
        }
        if acc + (cw as u128) < MAX_LINE_LENGTH {
            proof {
                lemma_line_width_take_step(w@, j as int);
            }
            if j > 0 {
                acc = acc + (cw as u128) + 1;
            } else {
                acc = acc + (cw as u128);
            }
            j = j + 1;
        } else {
            return j;
        }
    }
    n
}

/// The tokens the wrapper still has to place: a re-queued remainder, if one
/// is pending, in front of the unread tokens.
spec fn token_queue(pending: Option<String>, toks: Seq<String>, i: int) -> Seq<Seq<char>> {
    (match pending {
        Some(p) => seq![p@],
        None => Seq::<Seq<char>>::empty(),
    }) + views(toks).skip(i)
}

/// Wraps one paragraph into display lines. Returns the lines in order and
/// the over-long tokens that had to be force packed (each deserves a
/// diagnostic).
pub fn wrap_paragraph(para: &str) -> (r: (Vec<String>, Vec<String>))
    ensures
        views(r.0@) == wrap_para(para@).0,
        views(r.1@) == wrap_para(para@).1,
{
    let toks = split_words(para);
    proof {
        lemma_tokenize_nonempty(para@);
        assert forall|k: int| 0 <= k < toks@.len() implies (#[trigger] toks@[k])@.len() > 0 by {
            assert(views(toks@)[k] == toks@[k]@);
            assert(tokenize(para@)[k].len() > 0);
        }
    }
    let n = toks.len();
    let mut out: Vec<String> = Vec::new();
    let mut warns: Vec<String> = Vec::new();
    let mut cur: String = String::new();
    let mut pending: Option<String> = None;
    let mut i: usize = 0;
    proof {
        assert(token_queue(pending, toks@, 0) =~= tokenize(para@));
        assert(views(out@) =~= Seq::<Seq<char>>::empty());
        assert(views(out@) + wrap_para(para@).0 =~= wrap_para(para@).0);
        assert(views(warns@) + wrap_para(para@).1 =~= wrap_para(para@).1);
    }
    while pending.is_some() || i < n
        invariant
            n == toks@.len(),
            views(toks@) == tokenize(para@),
            i <= n,
            forall|k: int| 0 <= k < toks@.len() ==> (#[trigger] toks@[k])@.len() > 0,
            match pending {
                Some(p) => p@.len() > 0,
                None => true,
            },
            views(out@) + wrap_from(token_queue(pending, toks@, i as int), cur@).0 == wrap_para(
                para@,
            ).0,
            views(warns@) + wrap_from(token_queue(pending, toks@, i as int), cur@).1 == wrap_para(
                para@,
            ).1,
        decreases sum_len(token_queue(pending, toks@, i as int)),
    {
        let ghost q_pre = token_queue(pending, toks@, i as int);
        let w: String = match pending {
            Some(p) => {
                pending = None;
                p
            },
            None => {
                let t = toks[i].clone();
                i = i + 1;
                t
            },
        };
        let ghost q_rest = token_queue(pending, toks@, i as int);
        proof {
            if i >= 1 {
                assert(views(toks@).skip(i - 1) =~= seq![views(toks@)[i - 1]] + views(
                    toks@,
                ).skip(i as int));
            }
            assert(q_pre =~= seq![w@] + q_rest);
            assert(q_pre.first() == w@);
            assert(q_pre.drop_first() =~= q_rest);
            assert(w@.len() > 0);
            lemma_sum_len_cons(w@, q_rest);
        }
        let wlen = mcbook_len(w.as_str());
        if cur.as_str().is_empty() {
            proof {
                assert(cur@.len() == 0);
                assert(cur@ =~= Seq::<char>::empty());
            }
            if wlen < MAX_LINE_LENGTH {
                cur = w;
            } else {
                warns.push(w.clone());
                let k = pack_prefix(w.as_str());
                proof {
                    lemma_pack_progress(w@);
                }
                let wn = w.as_str().unicode_len();
                if k == wn {
                    proof {
                        assert(views(warns@) =~= views(warns@.drop_last()).push(w@));
                        assert(views(warns@.drop_last()).push(w@) + wrap_from(q_rest, w@).1
                            =~= views(warns@.drop_last()) + (seq![w@] + wrap_from(q_rest, w@).1));
                    }
                    cur = w;
                } else {
                    let frag = w.as_str().substring_char(0, k).to_owned();
                    let rem = w.as_str().substring_char(k, wn).to_owned();
                    proof {
                        assert(frag@ =~= w@.take(k as int));
                        assert(rem@ =~= w@.skip(k as int));
                        assert(rem@.len() > 0);
                    }
                    out.push(frag);
                    pending = Some(rem);
                    proof {
                        let q_new = token_queue(pending, toks@, i as int);
                        assert(q_new =~= seq![w@.skip(k as int)] + q_rest);
                        lemma_sum_len_cons(w@.skip(k as int), q_rest);
                        assert(views(out@) =~= views(out@.drop_last()).push(w@.take(k as int)));
                        assert(views(out@.drop_last()).push(w@.take(k as int)) + wrap_from(
                            q_new,
                            Seq::<char>::empty(),
                        ).0 =~= views(out@.drop_last()) + (seq![w@.take(k as int)] + wrap_from(
                            q_new,
                            Seq::<char>::empty(),
                        ).0));
                        assert(views(warns@) =~= views(warns@.drop_last()).push(w@));
                        assert(views(warns@.drop_last()).push(w@) + wrap_from(
                            q_new,
                            Seq::<char>::empty(),
                        ).1 =~= views(warns@.drop_last()) + (seq![w@] + wrap_from(
                            q_new,
                            Seq::<char>::empty(),
                        ).1));
                    }
                }
            }
        } else {
            let clen = mcbook_len(cur.as_str());
            proof {
                lemma_line_width_bound(w@);
                lemma_line_width_bound(cur@);
            }
            if wlen + clen < MAX_LINE_LENGTH {
                cur.append(w.as_str());
            } else {
                let t = trim_trailing_spaces(cur.as_str());
                out.push(t);
                proof {
                    assert(views(out@) =~= views(out@.drop_last()).push(trim_spaces(cur@)));
                    assert(views(out@.drop_last()).push(trim_spaces(cur@)) + wrap_from(
                        q_rest,
                        w@,
                    ).0 =~= views(out@.drop_last()) + (seq![trim_spaces(cur@)] + wrap_from(
                        q_rest,
                        w@,
                    ).0));
                }
                cur = w;
            }
        }
    }
    proof {
        assert(token_queue(pending, toks@, i as int) =~= Seq::<Seq<char>>::empty());
        assert(wrap_from(Seq::<Seq<char>>::empty(), cur@) == (
            seq![cur@],
            Seq::<Seq<char>>::empty(),
        ));
        assert(views(warns@) + Seq::<Seq<char>>::empty() =~= views(warns@));
    }
    let ghost final_cur = cur@;
    out.push(cur);
    proof {
        assert(views(out@) =~= views(out@.drop_last()).push(final_cur));
        assert(views(out@.drop_last()).push(final_cur) =~= views(out@.drop_last()) + seq![
            final_cur
        ]);
    }
    (out, warns)
}

/// Wraps a whole document: every paragraph independently and in order.
/// Returns all display lines and all reported over-long tokens.
pub fn wrap_document(text: &str) -> (r: (Vec<String>, Vec<String>))
    ensures
        views(r.0@) == wrap_doc(text@).0,
        views(r.1@) == wrap_doc(text@).1,
{
    let paras = split_paragraphs(text);
    let mut out: Vec<String> = Vec::new();
    let mut warns: Vec<String> = Vec::new();
    let mut i: usize = 0;
    let ghost ps = split_paras(text@);
    proof {
        assert(views(paras@).skip(0) =~= views(paras@));
        assert(views(out@) + wrap_paras(ps).0 =~= wrap_paras(ps).0);
        assert(views(warns@) + wrap_paras(ps).1 =~= wrap_paras(ps).1);
    }
    while i < paras.len()
        invariant
            views(paras@) == ps,
            ps == split_paras(text@),
            i <= paras@.len(),
            views(out@) + wrap_paras(ps.skip(i as int)).0 == wrap_paras(ps).0,
            views(warns@) + wrap_paras(ps.skip(i as int)).1 == wrap_paras(ps).1,
        decreases paras@.len() - i,
    {
        let (mut ls, mut ws) = wrap_paragraph(paras[i].as_str());
        proof {
            assert(ps.skip(i as int).first() == ps[i as int]);
            assert(ps.skip(i as int).drop_first() =~= ps.skip(i + 1));
            assert(views(out@ + ls@) =~= views(out@) + views(ls@));
            assert(views(warns@ + ws@) =~= views(warns@) + views(ws@));
            assert(views(out@) + (views(ls@) + wrap_paras(ps.skip(i + 1)).0) =~= (views(out@)
                + views(ls@)) + wrap_paras(ps.skip(i + 1)).0);
            assert(views(warns@) + (views(ws@) + wrap_paras(ps.skip(i + 1)).1) =~= (views(warns@)
                + views(ws@)) + wrap_paras(ps.skip(i + 1)).1);
        }
        out.append(&mut ls);
        warns.append(&mut ws);
        i = i + 1;
    }
    proof {
        assert(ps.skip(i as int) =~= Seq::<Seq<char>>::empty());
        assert(views(out@) + Seq::<Seq<char>>::empty() =~= views(out@));
        assert(views(warns@) + Seq::<Seq<char>>::empty() =~= views(warns@));
    }
    (out, warns)
}

} // verus!

