//! How a text on display is shared out over clauses, and how clauses are
//! merged, told by lengths and places.

use vstd::arithmetic::div_mod::lemma_fundamental_div_mod;
use vstd::prelude::*;
use crate::spans::SpanView;
use crate::spans;

verus! {

/// The number of characters in the first `k` pieces.
pub open spec fn shown_chars(pieces: Seq<Option<Seq<char>>>, k: int) -> int
    decreases k,
{
    if k <= 0 {
        0
    } else {
        shown_chars(pieces, k - 1) + match pieces[k - 1] {
            Some(text) => text.len() as int,
            None => 0,
        }
    }
}

/// The number of characters in the readings of the first `k` spans.
pub open spec fn read_chars(spans: Seq<SpanView>, k: int) -> int
    decreases k,
{
    if k <= 0 {
        0
    } else {
        read_chars(spans, k - 1) + spans[k - 1].reading.len()
    }
}

proof fn lemma_read_chars(spans: Seq<SpanView>, k: int)
    ensures
        read_chars(spans, k) == spans::reading_len(spans, k),
    decreases k,
{
    if k > 0 {
        lemma_read_chars(spans, k - 1);
    }
}

proof fn lemma_shown_chars(surface: Seq<char>, spans: Seq<SpanView>, k: int)
    requires
        0 <= k <= spans.len(),
        surface.len() > 0,
        spans::reading_len(spans, spans.len() as int) > 0,
    ensures
        shown_chars(spans::shared_out(surface, spans), k) == spans::cut(
            spans,
            surface.len() as int,
            k,
        ),
    decreases k,
{
    if k > 0 {
        lemma_shown_chars(surface, spans, k - 1);
        spans::lemma_cut_bounds(spans, surface.len() as int, k - 1);
        spans::lemma_cut_bounds(spans, surface.len() as int, k);
    }
}

proof fn lemma_rounded_up(a: int, b: int)
    requires
        b > 0,
    ensures
        spans::ceil_div(a, b) * b >= a,
        (spans::ceil_div(a, b) - 1) * b < a,
{
    let q = spans::ceil_div(a, b);
    lemma_fundamental_div_mod(a + b - 1, b);
    assert(q * b == b * q) by (nonlinear_arith);
    assert((q - 1) * b == q * b - b) by (nonlinear_arith);
}

/// A surface with a character for each span is shared out without a gap: a
/// piece is the text between the pieces before and behind it, and it ends at
/// the smallest place that gives the readings so far their share, but for a
/// piece that would be empty, which gets one character, and one that would
/// leave too little for those behind it, which leaves one for each.
pub proof fn law_shares_are_in_proportion(surface: Seq<char>, spans: Seq<SpanView>, k: int)
    requires
        surface.len() >= spans.len(),
        read_chars(spans, spans.len() as int) > 0,
        0 <= k < spans.len(),
    ensures
        ({
            let pieces = spans::shared_out(surface, spans);
            let n = surface.len() as int;
            let start = shown_chars(pieces, k);
            let end = shown_chars(pieces, k + 1);
            let so_far = read_chars(spans, k + 1);
            let total = read_chars(spans, spans.len() as int);
            let behind = spans.len() - k - 1;
            &&& pieces.len() == spans.len()
            &&& 0 <= start < end <= n
            &&& pieces[k] == Some(surface.subrange(start, end))
            &&& behind == 0 ==> end == n
            &&& behind > 0 ==> end * total >= so_far * n || end == n - behind
            &&& behind > 0 ==> (end - 1) * total < so_far * n || end == start + 1
        }),
{
    let pieces = spans::shared_out(surface, spans);
    let n = surface.len() as int;
    lemma_read_chars(spans, k + 1);
    lemma_read_chars(spans, spans.len() as int);
    lemma_shown_chars(surface, spans, k);
    lemma_shown_chars(surface, spans, k + 1);
    spans::lemma_cut_bounds(spans, n, k);
    spans::lemma_cut_bounds(spans, n, k + 1);
    let start = shown_chars(pieces, k);
    let end = shown_chars(pieces, k + 1);
    let so_far = read_chars(spans, k + 1);
    let total = read_chars(spans, spans.len() as int);
    let behind = spans.len() - k - 1;
    if behind > 0 {
        let share = spans::ceil_div(so_far * n, total);
        lemma_rounded_up(so_far * n, total);
        if end > share {
            assert(end == start + 1);
            assert(end * total >= share * total) by (nonlinear_arith)
                requires
                    end > share,
                    total > 0,
            ;
        } else if end < share {
            assert(end == n - behind);
            assert((end - 1) * total <= (share - 1) * total) by (nonlinear_arith)
                requires
                    end < share,
                    total > 0,
            ;
        }
    }
}

/// Nothing is shared out where there is no text or no reading.
pub proof fn law_nothing_to_share(surface: Seq<char>, spans: Seq<SpanView>)
    requires
        surface.len() == 0 || read_chars(spans, spans.len() as int) == 0,
    ensures
        spans::shared_out(surface, spans).len() == spans.len(),
        forall|k: int|
            0 <= k < spans.len() ==> (#[trigger] spans::shared_out(surface, spans)[k]) is None,
{
    lemma_read_chars(spans, spans.len() as int);
}

/// A word is looked for from a place on, and found at the first place where
/// it stands.
pub proof fn law_the_first_occurrence(s: Seq<char>, word: Seq<char>, from: int)
    requires
        0 <= from,
    ensures
        match spans::first_occurrence(s, word, from) {
            Some(at) => {
                &&& from <= at <= s.len() - word.len()
                &&& s.subrange(at, at + word.len()) == word
                &&& forall|k: int|
                    from <= k < at ==> #[trigger] s.subrange(k, k + word.len()) != word
            },
            None => forall|k: int|
                from <= k <= s.len() - word.len() ==> #[trigger] s.subrange(k, k + word.len())
                    != word,
        },
    decreases s.len() - from,
{
    if from + word.len() <= s.len() && !spans::occurs_at(s, word, from) && from < s.len() {
        law_the_first_occurrence(s, word, from + 1);
    }
}

/// No span is pinned to a surface.
pub open spec fn none_pinned(spans: Seq<SpanView>) -> bool {
    forall|i: int| 0 <= i < spans.len() ==> (#[trigger] spans[i]).fixed is None
}

/// The first pinned span is at `p`, and its word first stands in the surface
/// at `at`.
pub open spec fn first_anchor(surface: Seq<char>, spans: Seq<SpanView>, p: int, at: int) -> bool {
    &&& 0 <= p < spans.len()
    &&& none_pinned(spans.take(p))
    &&& spans[p].fixed matches Some(word)
    &&& word.len() > 0
    &&& 0 <= at <= surface.len() - word.len()
    &&& surface.subrange(at, at + word.len()) == word
    &&& forall|k: int| 0 <= k < at ==> #[trigger] surface.subrange(k, k + word.len()) != word
}

/// A surface is laid over spans: each pinned word takes its place, the first
/// one where it stands behind the words before it, and the text between two
/// words is shared out over the spans between them.
pub open spec fn laid(
    surface: Seq<char>,
    spans: Seq<SpanView>,
    pieces: Seq<Option<Seq<char>>>,
) -> bool
    decreases spans.len(),
{
    &&& pieces.len() == spans.len()
    &&& if none_pinned(spans) {
        pieces == spans::shared_out(surface, spans)
    } else {
        exists|p: int, at: int|
            {
                &&& #[trigger] first_anchor(surface, spans, p, at)
                &&& 0 <= p < spans.len()
                &&& pieces.take(p) == spans::shared_out(surface.take(at), spans.take(p))
                &&& pieces[p] == spans[p].fixed
                &&& laid(
                    surface.skip(at + spans[p].fixed->0.len()),
                    spans.skip(p + 1),
                    pieces.skip(p + 1),
                )
            }
    }
}

proof fn lemma_shared_len(surface: Seq<char>, spans: Seq<SpanView>)
    ensures
        spans::shared_out(surface, spans).len() == spans.len(),
{
}

proof fn lemma_one_first_anchor(
    surface: Seq<char>,
    spans: Seq<SpanView>,
    p: int,
    at: int,
    q: int,
    there: int,
)
    requires
        first_anchor(surface, spans, p, at),
        first_anchor(surface, spans, q, there),
    ensures
        p == q,
        at == there,
{
    if p < q {
        assert(spans.take(q)[p] == spans[p]);
    } else if q < p {
        assert(spans.take(p)[q] == spans[q]);
    }
    let word = spans[p].fixed->0;
    if at < there {
        assert(surface.subrange(at, at + word.len()) != word);
    } else if there < at {
        assert(surface.subrange(there, there + word.len()) != word);
    }
}

#[verifier::spinoff_prover]
proof fn lemma_anchored(
    surface: Seq<char>,
    spans: Seq<SpanView>,
    idx: int,
    open: int,
    from: int,
)
    requires
        0 <= open <= idx <= spans.len(),
        0 <= from <= surface.len(),
        forall|i: int| open <= i < idx ==> (#[trigger] spans[i]).fixed is None,
    ensures
        match spans::anchored(surface, spans, idx, open, from) {
            Some(pieces) => laid(surface.skip(from), spans.skip(open), pieces),
            None => forall|pieces: Seq<Option<Seq<char>>>|
                !#[trigger] laid(surface.skip(from), spans.skip(open), pieces),
        },
    decreases spans.len() - idx,
{
    let left = surface.skip(from);
    let part = spans.skip(open);
    if idx >= spans.len() {
        assert(surface.subrange(from, surface.len() as int) =~= left);
        assert(spans.subrange(open, spans.len() as int) =~= part);
        assert(none_pinned(part)) by {
            assert forall|i: int| 0 <= i < part.len() implies (#[trigger] part[i]).fixed is None by {
                assert(part[i] == spans[open + i]);
            }
        }
    } else {
        match spans[idx].fixed {
            None => {
                lemma_anchored(surface, spans, idx + 1, open, from);
            },
            Some(word) => {
                let p = idx - open;
                assert(part[p] == spans[idx]);
                assert(!none_pinned(part));
                assert(none_pinned(part.take(p))) by {
                    assert forall|i: int| 0 <= i < part.take(p).len() implies (
                    #[trigger] part.take(p)[i]).fixed is None by {
                        assert(part.take(p)[i] == spans[open + i]);
                    }
                }
                law_the_first_occurrence(surface, word, from);
                match spans::first_occurrence(surface, word, from) {
                    Some(found) if word.len() > 0 => {
                        let at = found - from;
                        assert(first_anchor(left, part, p, at)) by {
                            assert(left.subrange(at, at + word.len()) =~= surface.subrange(
                                found,
                                found + word.len(),
                            ));
                            assert forall|k: int| 0 <= k < at implies #[trigger] left.subrange(
                                k,
                                k + word.len(),
                            ) != word by {
                                assert(left.subrange(k, k + word.len()) =~= surface.subrange(
                                    from + k,
                                    from + k + word.len(),
                                ));
                            }
                        }
                        let next = found + word.len();
                        lemma_anchored(surface, spans, idx + 1, idx + 1, next);
                        assert(left.skip(at + word.len()) =~= surface.skip(next));
                        assert(part.skip(p + 1) =~= spans.skip(idx + 1));
                        assert(left.take(at) =~= surface.subrange(from, found));
                        assert(part.take(p) =~= spans.subrange(open, idx));
                        let head = spans::shared_out(left.take(at), part.take(p));
                        lemma_shared_len(left.take(at), part.take(p));
                        match spans::anchored(surface, spans, idx + 1, idx + 1, next) {
                            Some(rest) => {
                                let pieces = head + seq![Some(word)] + rest;
                                assert(pieces.take(p) =~= head);
                                assert(pieces.skip(p + 1) =~= rest);
                                assert(pieces[p] == Some(word));
                                assert(laid(left, part, pieces));
                            },
                            None => {
                                assert forall|pieces: Seq<Option<Seq<char>>>| !#[trigger] laid(
                                    left,
                                    part,
                                    pieces,
                                ) by {
                                    if laid(left, part, pieces) {
                                        let (q, there) = choose|q: int, there: int|
                                            {
                                                &&& #[trigger] first_anchor(left, part, q, there)
                                                &&& 0 <= q < part.len()
                                                &&& pieces.take(q) == spans::shared_out(
                                                    left.take(there),
                                                    part.take(q),
                                                )
                                                &&& pieces[q] == part[q].fixed
                                                &&& laid(
                                                    left.skip(there + part[q].fixed->0.len()),
                                                    part.skip(q + 1),
                                                    pieces.skip(q + 1),
                                                )
                                            };
                                        lemma_one_first_anchor(left, part, p, at, q, there);
                                    }
                                }
                            },
                        }
                    },
                    _ => {
                        assert forall|pieces: Seq<Option<Seq<char>>>| !#[trigger] laid(
                            left,
                            part,
                            pieces,
                        ) by {
                            if laid(left, part, pieces) {
                                let (q, there) = choose|q: int, there: int|
                                    {
                                        &&& #[trigger] first_anchor(left, part, q, there)
                                        &&& 0 <= q < part.len()
                                        &&& pieces.take(q) == spans::shared_out(
                                            left.take(there),
                                            part.take(q),
                                        )
                                        &&& pieces[q] == part[q].fixed
                                        &&& laid(
                                            left.skip(there + part[q].fixed->0.len()),
                                            part.skip(q + 1),
                                            pieces.skip(q + 1),
                                        )
                                    };
                                if p < q {
                                    assert(part.take(q)[p] == part[p]);
                                } else if q < p {
                                    assert(part.take(p)[q] == part[q]);
                                }
                                assert(left.subrange(there, there + word.len())
                                    =~= surface.subrange(
                                    from + there,
                                    from + there + word.len(),
                                ));
                            }
                        }
                    },
                }
            },
        }
    }
}

/// A surface is laid over spans with their pinned words as anchors, wherever
/// that can be done; else it is shared out over all of them.
pub proof fn law_how_a_surface_is_laid_over_spans(surface: Seq<char>, spans: Seq<SpanView>)
    ensures
        laid(surface, spans, spans::laid_out(surface, spans)) || {
            &&& spans::laid_out(surface, spans) == spans::shared_out(surface, spans)
            &&& forall|pieces: Seq<Option<Seq<char>>>| !#[trigger] laid(surface, spans, pieces)
        },
{
    lemma_anchored(surface, spans, 0, 0, 0);
    assert(surface.skip(0) =~= surface);
    assert(spans.skip(0) =~= spans);
}

/// Two neighbours are both without a pinned surface.
pub open spec fn both_free(spans: Seq<SpanView>, i: int) -> bool {
    0 <= i && i + 1 < spans.len() && spans[i].fixed is None && spans[i + 1].fixed is None
}

/// The characters in the readings of two neighbours.
pub open spec fn together(spans: Seq<SpanView>, i: int) -> nat {
    spans[i].reading.len() + spans[i + 1].reading.len()
}

/// The spans with those at `i` and behind it as one, pinned only where both
/// were.
pub open spec fn merges(spans: Seq<SpanView>, i: int, after: Seq<SpanView>) -> bool {
    &&& 0 <= i && i + 1 < spans.len()
    &&& after.len() == spans.len() - 1
    &&& forall|k: int| 0 <= k < i ==> #[trigger] after[k] == spans[k]
    &&& forall|k: int| i < k < after.len() ==> #[trigger] after[k] == spans[k + 1]
    &&& after[i].reading == spans[i].reading + spans[i + 1].reading
    &&& after[i].fixed == if spans[i].fixed is Some && spans[i + 1].fixed is Some {
        Some(spans[i].fixed->0 + spans[i + 1].fixed->0)
    } else {
        None
    }
}

/// The neighbours that are merged first: of those without pinned surfaces the
/// ones with the shortest readings, and the first of these; where there are
/// none, the last two.
pub open spec fn merged_first(spans: Seq<SpanView>, i: int) -> bool {
    ||| {
        &&& both_free(spans, i)
        &&& forall|j: int| #[trigger] both_free(spans, j) ==> together(spans, i) <= together(
            spans,
            j,
        )
        &&& forall|j: int|
            j < i && #[trigger] both_free(spans, j) ==> together(spans, i) < together(spans, j)
    }
    ||| {
        &&& forall|j: int| !#[trigger] both_free(spans, j)
        &&& i == spans.len() - 2
    }
}

proof fn lemma_shortest(spans: Seq<SpanView>, k: int)
    requires
        k <= spans.len() - 1,
    ensures
        match spans::shortest_free_pair(spans, k) {
            Some(i) => {
                &&& i < k
                &&& both_free(spans, i)
                &&& forall|j: int|
                    j < k && #[trigger] both_free(spans, j) ==> together(spans, i) <= together(
                        spans,
                        j,
                    )
                &&& forall|j: int|
                    j < i && #[trigger] both_free(spans, j) ==> together(spans, i) < together(
                        spans,
                        j,
                    )
            },
            None => forall|j: int| j < k ==> !#[trigger] both_free(spans, j),
        },
    decreases k,
{
    if k > 0 {
        lemma_shortest(spans, k - 1);
        assert(both_free(spans, k - 1) == spans::free_pair(spans, k - 1));
    }
}

/// Clauses are merged until there are no more of them than wanted, two
/// neighbours at a time; where there are not too many, they stay.
pub proof fn law_how_spans_are_merged(spans: Seq<SpanView>, limit: int)
    ensures
        limit <= 0 || spans.len() <= limit ==> spans::coalesced(spans, limit) == spans,
        1 <= limit < spans.len() ==> exists|i: int, after: Seq<SpanView>|
            #[trigger] merges(spans, i, after) && merged_first(spans, i) && spans::coalesced(
                spans,
                limit,
            ) == spans::coalesced(after, limit),
        1 <= limit < spans.len() ==> spans::coalesced(spans, limit).len() == limit,
    decreases spans.len(),
{
    if 1 <= limit < spans.len() {
        let i = spans::merge_position(spans);
        lemma_shortest(spans, spans.len() - 1);
        let after = spans::merged_at(spans, i);
        assert(merged_first(spans, i));
        assert(merges(spans, i, after));
        law_how_spans_are_merged(after, limit);
    }
}

} // verus!
