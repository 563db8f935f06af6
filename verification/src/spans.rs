//! Reading spans: a reading cut into clauses, some of them pinned to a fixed
//! surface, and the ways to lay a displayed surface over them.

use vstd::prelude::*;
use crate::lists::{add_item, add_items};
use crate::text::{chars_of, char_count, joined, text_of_range};

verus! {

/// A stretch of a reading, pinned to a surface where a registered word
/// decides it.
pub struct ReadingSpan {
    pub reading: String,
    pub fixed_surface: Option<String>,
}

/// What a span holds, as sequences of characters.
#[verifier::ext_equal]
pub struct SpanView {
    pub reading: Seq<char>,
    pub fixed: Option<Seq<char>>,
}

impl DeepView for ReadingSpan {
    type V = SpanView;

    open spec fn deep_view(&self) -> SpanView {
        SpanView { reading: self.reading@, fixed: self.fixed_surface.deep_view() }
    }
}

impl Clone for ReadingSpan {
    fn clone(&self) -> (r: Self)
        ensures
            r.deep_view() == self.deep_view(),
    {
        ReadingSpan { reading: self.reading.clone(), fixed_surface: self.fixed_surface.clone() }
    }
}

/// A span without a fixed surface.
pub open spec fn free_span(reading: Seq<char>) -> SpanView {
    SpanView { reading, fixed: None }
}

/// The readings of the spans, one after the other.
pub open spec fn spans_reading(spans: Seq<SpanView>) -> Seq<char>
    decreases spans.len(),
{
    if spans.len() == 0 {
        Seq::empty()
    } else {
        spans_reading(spans.drop_last()) + spans.last().reading
    }
}

/// The number of reading characters in the first `k` spans.
pub open spec fn reading_len(spans: Seq<SpanView>, k: int) -> nat
    decreases k,
{
    if k <= 0 {
        0
    } else {
        reading_len(spans, k - 1) + spans[k - 1].reading.len()
    }
}

/// `a / b`, rounded up.
pub open spec fn ceil_div(a: int, b: int) -> int {
    (a + b - 1) / b
}

/// Where the `k`th piece of a surface of `n` characters ends when the surface
/// is shared out over `spans` in proportion to their readings: at the rounded
/// up share of the readings so far, moved so that this piece is not empty and
/// each later piece can still have a character, as far as `n` allows.
pub open spec fn cut(spans: Seq<SpanView>, n: int, k: int) -> int
    decreases k,
{
    if k <= 0 {
        0
    } else {
        let start = cut(spans, n, k - 1);
        let later = spans.len() - k;
        let share = if k == spans.len() {
            n
        } else {
            ceil_div(reading_len(spans, k) * n, reading_len(spans, spans.len() as int) as int)
        };
        let low = if n - start > later {
            start + 1
        } else {
            start
        };
        let high = if n > later {
            n - later
        } else {
            0
        };
        if share < low {
            low
        } else if share > high {
            high
        } else {
            share
        }
    }
}

/// The part `start..end` of a surface; none where it is empty.
pub open spec fn piece(surface: Seq<char>, start: int, end: int) -> Option<Seq<char>> {
    if start < end {
        Some(surface.subrange(start, end))
    } else {
        None
    }
}

/// A surface shared out over spans in proportion to their readings. No span
/// gets a piece when there is nothing to share or nothing to measure by.
pub open spec fn shared_out(surface: Seq<char>, spans: Seq<SpanView>) -> Seq<Option<Seq<char>>> {
    let n = surface.len() as int;
    if n == 0 || reading_len(spans, spans.len() as int) == 0 {
        Seq::new(spans.len(), |i: int| None)
    } else {
        Seq::new(spans.len(), |i: int| piece(surface, cut(spans, n, i), cut(spans, n, i + 1)))
    }
}

pub proof fn lemma_reading_len_monotone(spans: Seq<SpanView>, i: int, j: int)
    requires
        i <= j,
    ensures
        reading_len(spans, i) <= reading_len(spans, j),
    decreases j - i,
{
    if 0 < j && i < j {
        lemma_reading_len_monotone(spans, i, j - 1);
    }
}

/// Each cut leaves room for the pieces after it, so that the bounds on the
/// next cut never cross.
pub proof fn lemma_cut_bounds(spans: Seq<SpanView>, n: int, k: int)
    requires
        0 <= k <= spans.len(),
        n >= 0,
    ensures
        k == 0 ==> cut(spans, n, k) == 0,
        0 <= cut(spans, n, k) <= n,
        k < spans.len() && n > spans.len() - k - 1 ==> cut(spans, n, k) <= n - (spans.len() - k),
        k < spans.len() && n <= spans.len() - k - 1 ==> cut(spans, n, k) == 0,
        k > 0 ==> cut(spans, n, k - 1) <= cut(spans, n, k),
        k > 0 && n >= spans.len() ==> cut(spans, n, k - 1) < cut(spans, n, k),
        k > 0 && k == spans.len() ==> cut(spans, n, k) == n,
    decreases k,
{
    if k > 0 {
        lemma_cut_bounds(spans, n, k - 1);
    }
}

/// The number of reading characters in the spans `lo..hi`.
fn total_reading_len(spans: &Vec<ReadingSpan>, lo: usize, hi: usize) -> (n: usize)
    requires
        lo <= hi <= spans@.len(),
        reading_len(spans.deep_view().subrange(lo as int, hi as int), hi - lo) <= usize::MAX,
    ensures
        n == reading_len(spans.deep_view().subrange(lo as int, hi as int), hi - lo),
{
    let ghost part = spans.deep_view().subrange(lo as int, hi as int);
    let mut n: usize = 0;
    let mut i: usize = lo;
    while i < hi
        invariant
            lo <= i <= hi <= spans@.len(),
            part == spans.deep_view().subrange(lo as int, hi as int),
            reading_len(part, hi - lo) <= usize::MAX,
            n == reading_len(part, i - lo),
        decreases hi - i,
    {
        proof {
            lemma_reading_len_monotone(part, i + 1 - lo, hi - lo);
            assert(part[i - lo] == spans@[i as int].deep_view());
        }
        n = n + char_count(spans[i].reading.as_str());
        i = i + 1;
    }
    n
}

/// Shares the characters `from..to` of a surface out over the spans `lo..hi`.
fn share_out_range(
    surface: &Vec<char>,
    from: usize,
    to: usize,
    spans: &Vec<ReadingSpan>,
    lo: usize,
    hi: usize,
) -> (r: Vec<Option<String>>)
    requires
        from <= to <= surface@.len(),
        lo <= hi <= spans@.len(),
        reading_len(spans.deep_view().subrange(lo as int, hi as int), hi - lo) <= usize::MAX,
    ensures
        r.deep_view() == shared_out(
            surface@.subrange(from as int, to as int),
            spans.deep_view().subrange(lo as int, hi as int),
        ),
{
    let ghost part = spans.deep_view().subrange(lo as int, hi as int);
    let ghost shown = surface@.subrange(from as int, to as int);
    let n: usize = to - from;
    let total: usize = total_reading_len(spans, lo, hi);
    let mut pieces: Vec<Option<String>> = Vec::new();
    let mut start: usize = 0;
    let mut consumed: usize = 0;
    let mut i: usize = lo;
    while i < hi
        invariant
            lo <= i <= hi <= spans@.len(),
            from <= to <= surface@.len(),
            n == to - from,
            part == spans.deep_view().subrange(lo as int, hi as int),
            shown == surface@.subrange(from as int, to as int),
            total == reading_len(part, hi - lo),
            consumed == reading_len(part, i - lo),
            consumed <= total,
            n > 0 && total > 0 ==> start == cut(part, n as int, i - lo),
            start <= n,
            pieces.deep_view() == shared_out(shown, part).take(i - lo),
        decreases hi - i,
    {
        if n == 0 || total == 0 {
            add_item(&mut pieces, None);
            i = i + 1;
            assert(pieces.deep_view() =~= shared_out(shown, part).take(i - lo));
            proof {
                lemma_reading_len_monotone(part, i - lo, hi - lo);
            }
            consumed = consumed + char_count(spans[i - 1].reading.as_str());
            continue;
        }
        proof {
            lemma_reading_len_monotone(part, i + 1 - lo, hi - lo);
            assert(part[i - lo] == spans@[i as int].deep_view());
            lemma_cut_bounds(part, n as int, i - lo);
            lemma_cut_bounds(part, n as int, i + 1 - lo);
        }
        consumed = consumed + char_count(spans[i].reading.as_str());
        let later: usize = hi - i - 1;
        let share: usize = if i + 1 == hi {
            n
        } else {
            rounded_share(consumed, n, total)
        };
        let low: usize = if n - start > later {
            start + 1
        } else {
            start
        };
        let high: usize = if n > later {
            n - later
        } else {
            0
        };
        let end: usize = if share < low {
            low
        } else if share > high {
            high
        } else {
            share
        };
        if start < end {
            add_item(&mut pieces, Some(text_of_range(surface, from + start, from + end)));
            assert(surface@.subrange(from + start, from + end) == shown.subrange(
                start as int,
                end as int,
            ));
        } else {
            add_item(&mut pieces, None);
        }
        start = end;
        i = i + 1;
        assert(pieces.deep_view() =~= shared_out(shown, part).take(i - lo));
    }
    assert(shared_out(shown, part).take(hi - lo) == shared_out(shown, part));
    pieces
}

/// `part / total` of `n`, rounded up.
fn rounded_share(part: usize, n: usize, total: usize) -> (r: usize)
    requires
        part <= total,
        total > 0,
    ensures
        r == ceil_div(part * n, total as int),
{
    let product: u128 = mul_wide(part, n);
    let whole: u128 = total as u128;
    assert(product + whole <= u128::MAX && (product + whole - 1) / whole as int <= n) by {
        assert(part * n <= total * n) by (nonlinear_arith)
            requires
                part <= total,
        ;
        assert(product <= 0xffff_ffff_ffff_fffe_0000_0000_0000_0001) by (nonlinear_arith)
            requires
                product == part * n,
                part <= 0xffff_ffff_ffff_ffff,
                n <= 0xffff_ffff_ffff_ffff,
        ;
        assert((product + whole - 1) / whole as int <= n) by (nonlinear_arith)
            requires
                product <= whole * n,
                whole > 0,
                n >= 0,
        ;
    }
    ((product + whole - 1) / whole) as usize
}

fn mul_wide(a: usize, b: usize) -> (r: u128)
    ensures
        r == a * b,
{
    assert(a * b <= u128::MAX) by (nonlinear_arith)
        requires
            a <= 0xffff_ffff_ffff_ffff,
            b <= 0xffff_ffff_ffff_ffff,
    ;
    a as u128 * b as u128
}

/// Shares a surface out over spans in proportion to their readings.
pub fn split_surface_by_reading_lengths(surface: &str, spans: &Vec<ReadingSpan>) -> (r: Vec<
    Option<String>,
>)
    requires
        reading_len(spans.deep_view(), spans@.len() as int) <= usize::MAX,
    ensures
        r.deep_view() == shared_out(surface@, spans.deep_view()),
{
    let chars = chars_of(surface);
    assert(chars@.subrange(0, chars@.len() as int) == surface@);
    assert(spans.deep_view().subrange(0, spans@.len() as int) == spans.deep_view());
    share_out_range(&chars, 0, chars.len(), spans, 0, spans.len())
}

/// `word` stands in `s` at position `at`.
pub open spec fn occurs_at(s: Seq<char>, word: Seq<char>, at: int) -> bool {
    0 <= at && at + word.len() <= s.len() && s.subrange(at, at + word.len()) == word
}

/// The first position from `from` on at which `word` stands in `s`.
pub open spec fn first_occurrence(s: Seq<char>, word: Seq<char>, from: int) -> Option<int>
    decreases s.len() - from,
{
    if from + word.len() > s.len() {
        None
    } else if occurs_at(s, word, from) {
        Some(from)
    } else if from < s.len() {
        first_occurrence(s, word, from + 1)
    } else {
        None
    }
}

/// The surface laid over the spans from `idx` on, with every fixed surface
/// found in it as an anchor and the text between anchors shared out over the
/// free spans there. `open` is the first span that has no piece yet and
/// `from` the first character that is not laid yet. None where an anchor is
/// empty or is not found.
pub open spec fn anchored(
    surface: Seq<char>,
    spans: Seq<SpanView>,
    idx: int,
    open: int,
    from: int,
) -> Option<Seq<Option<Seq<char>>>>
    decreases spans.len() - idx,
{
    if idx >= spans.len() {
        Some(
            shared_out(
                surface.subrange(from, surface.len() as int),
                spans.subrange(open, spans.len() as int),
            ),
        )
    } else {
        match spans[idx].fixed {
            None => anchored(surface, spans, idx + 1, open, from),
            Some(word) => if word.len() == 0 {
                None
            } else {
                match first_occurrence(surface, word, from) {
                    None => None,
                    Some(at) => match anchored(
                        surface,
                        spans,
                        idx + 1,
                        idx + 1,
                        at + word.len(),
                    ) {
                        None => None,
                        Some(rest) => Some(
                            shared_out(surface.subrange(from, at), spans.subrange(open, idx))
                                + seq![Some(word)] + rest,
                        ),
                    },
                }
            },
        }
    }
}

/// A surface laid over spans with the fixed surfaces as anchors; shared out
/// in proportion where there is no trustworthy anchor.
pub open spec fn laid_out(surface: Seq<char>, spans: Seq<SpanView>) -> Seq<Option<Seq<char>>> {
    match anchored(surface, spans, 0, 0, 0) {
        Some(pieces) => pieces,
        None => shared_out(surface, spans),
    }
}

/// Whether `word` stands in `s` at position `at`.
pub fn stands_at(s: &Vec<char>, word: &Vec<char>, at: usize) -> (r: bool)
    requires
        at <= s@.len(),
    ensures
        r == occurs_at(s@, word@, at as int),
{
    let n: usize = s.len();
    if word.len() > n - at {
        return false;
    }
    let mut k: usize = 0;
    while k < word.len()
        invariant
            k <= word@.len(),
            at + word@.len() <= s@.len(),
            s@.len() == n,
            forall|j: int| 0 <= j < k ==> s@[at + j] == #[trigger] word@[j],
        decreases word@.len() - k,
    {
        if s[at + k] != word[k] {
            assert(s@.subrange(at as int, at + word@.len())[k as int] != word@[k as int]);
            return false;
        }
        k = k + 1;
    }
    assert(s@.subrange(at as int, at + word@.len()) =~= word@);
    true
}

fn find_from(s: &Vec<char>, word: &Vec<char>, from: usize) -> (r: Option<usize>)
    requires
        from <= s@.len(),
    ensures
        match r {
            Some(at) => first_occurrence(s@, word@, from as int) == Some(at as int) && occurs_at(
                s@,
                word@,
                at as int,
            ) && from <= at,
            None => first_occurrence(s@, word@, from as int) is None,
        },
{
    let n: usize = s.len();
    let mut at: usize = from;
    while word.len() <= n - at
        invariant
            from <= at <= n,
            n == s@.len(),
            first_occurrence(s@, word@, from as int) == first_occurrence(s@, word@, at as int),
        decreases n - at,
    {
        if stands_at(s, word, at) {
            return Some(at);
        }
        if at == n {
            return None;
        }
        at = at + 1;
    }
    None
}

/// Splits an already displayed surface while keeping fixed surfaces as exact
/// anchors, so that a free span takes nothing from the word before it.
pub fn split_surface_preserving_fixed_spans(surface: &str, spans: &Vec<ReadingSpan>) -> (r: Vec<
    Option<String>,
>)
    requires
        reading_len(spans.deep_view(), spans@.len() as int) <= usize::MAX,
    ensures
        r.deep_view() == laid_out(surface@, spans.deep_view()),
{
    let chars = chars_of(surface);
    let n: usize = chars.len();
    let ghost all = spans.deep_view();
    let mut pieces: Vec<Option<String>> = Vec::new();
    let mut from: usize = 0;
    let mut open: usize = 0;
    let mut idx: usize = 0;
    assert(Seq::<Option<Seq<char>>>::empty() + laid_out(surface@, all) == laid_out(surface@, all));
    proof {
        match anchored(surface@, all, 0, 0, 0) {
            Some(rest) => {
                assert(pieces.deep_view() + rest =~= rest);
            },
            None => {},
        }
    }
    while idx < spans.len()
        invariant
            idx <= spans@.len(),
            open <= idx,
            from <= chars@.len(),
            chars@ == surface@,
            n == chars@.len(),
            all == spans.deep_view(),
            reading_len(all, all.len() as int) <= usize::MAX,
            match anchored(surface@, all, idx as int, open as int, from as int) {
                Some(rest) => anchored(surface@, all, 0, 0, 0) == Some(pieces.deep_view() + rest),
                None => anchored(surface@, all, 0, 0, 0) is None,
            },
        decreases spans@.len() - idx,
    {
        assert(all[idx as int] == spans@[idx as int].deep_view());
        match &spans[idx].fixed_surface {
            None => {},
            Some(fixed) => {
                let word = chars_of(fixed.as_str());
                if word.len() == 0 {
                    return split_surface_by_reading_lengths(surface, spans);
                }
                let at: usize = match find_from(&chars, &word, from) {
                    Some(at) => at,
                    None => {
                        return split_surface_by_reading_lengths(surface, spans);
                    },
                };
                proof {
                    lemma_part_len(all, open as int, idx as int);
                }
                assert(at + word@.len() <= chars@.len());
                let between = share_out_range(&chars, from, at, spans, open, idx);
                let ghost before = pieces.deep_view();
                let ghost middle = between.deep_view();
                add_items(&mut pieces, between);
                add_item(&mut pieces, Some(fixed.clone()));
                from = at + word.len();
                open = idx + 1;
                proof {
                    match anchored(surface@, all, idx + 1, open as int, from as int) {
                        Some(rest) => {
                            assert(before + (middle + seq![Some(word@)] + rest)
                                =~= pieces.deep_view() + rest);
                        },
                        None => {},
                    }
                }
            },
        }
        idx = idx + 1;
    }
    proof {
        lemma_part_len(all, open as int, all.len() as int);
    }
    let tail = share_out_range(&chars, from, n, spans, open, spans.len());
    add_items(&mut pieces, tail);
    pieces
}

/// A stretch of the spans has no more reading characters than all of them.
pub proof fn lemma_part_len(spans: Seq<SpanView>, lo: int, hi: int)
    requires
        0 <= lo <= hi <= spans.len(),
    ensures
        reading_len(spans.subrange(lo, hi), hi - lo) == reading_len(spans, hi) - reading_len(
            spans,
            lo,
        ),
        reading_len(spans.subrange(lo, hi), hi - lo) <= reading_len(spans, spans.len() as int),
    decreases hi,
{
    lemma_reading_len_monotone(spans, hi, spans.len() as int);
    if lo < hi {
        lemma_part_len(spans, lo, hi - 1);
        assert(spans.subrange(lo, hi).take(hi - 1 - lo) == spans.subrange(lo, hi - 1).take(
            hi - 1 - lo,
        ));
        lemma_prefix_len(spans.subrange(lo, hi), spans.subrange(lo, hi - 1), hi - 1 - lo);
        assert(spans.subrange(lo, hi)[hi - 1 - lo] == spans[hi - 1]);
    }
}

/// The first spans decide how many reading characters the first spans have.
pub proof fn lemma_prefix_len(a: Seq<SpanView>, b: Seq<SpanView>, k: int)
    requires
        0 <= k <= a.len(),
        k <= b.len(),
        a.take(k) == b.take(k),
    ensures
        reading_len(a, k) == reading_len(b, k),
    decreases k,
{
    if k > 0 {
        assert(a.take(k).take(k - 1) == a.take(k - 1));
        assert(b.take(k).take(k - 1) == b.take(k - 1));
        lemma_prefix_len(a, b, k - 1);
        assert(a.take(k)[k - 1] == b.take(k)[k - 1]);
    }
}

/// Two neighbouring spans as one; the surface stays fixed only where both
/// were fixed.
pub open spec fn merged(left: SpanView, right: SpanView) -> SpanView {
    SpanView {
        reading: left.reading + right.reading,
        fixed: match (left.fixed, right.fixed) {
            (Some(a), Some(b)) => Some(a + b),
            _ => None,
        },
    }
}

/// The spans at `i` and `i + 1` are both free.
pub open spec fn free_pair(spans: Seq<SpanView>, i: int) -> bool {
    0 <= i && i + 1 < spans.len() && spans[i].fixed is None && spans[i + 1].fixed is None
}

/// The number of reading characters in the pair of spans at `i`.
pub open spec fn pair_len(spans: Seq<SpanView>, i: int) -> nat {
    spans[i].reading.len() + spans[i + 1].reading.len()
}

/// The first of the shortest pairs of free spans among the first `k` pairs.
pub open spec fn shortest_free_pair(spans: Seq<SpanView>, k: int) -> Option<int>
    decreases k,
{
    if k <= 0 {
        None
    } else {
        let before = shortest_free_pair(spans, k - 1);
        if !free_pair(spans, k - 1) {
            before
        } else {
            match before {
                Some(i) if pair_len(spans, i) <= pair_len(spans, k - 1) => before,
                _ => Some(k - 1),
            }
        }
    }
}

/// Which neighbours to merge next: the first shortest free pair, else the
/// last two spans.
pub open spec fn merge_position(spans: Seq<SpanView>) -> int {
    match shortest_free_pair(spans, spans.len() - 1) {
        Some(i) => i,
        None => spans.len() - 2,
    }
}

/// The spans with those at `i` and `i + 1` merged.
pub open spec fn merged_at(spans: Seq<SpanView>, i: int) -> Seq<SpanView> {
    spans.take(i) + seq![merged(spans[i], spans[i + 1])] + spans.skip(i + 2)
}

/// The spans merged until there are no more of them than `limit`.
pub open spec fn coalesced(spans: Seq<SpanView>, limit: int) -> Seq<SpanView>
    decreases spans.len(),
{
    if limit <= 0 || spans.len() <= limit || spans.len() < 2 {
        spans
    } else {
        let at = merge_position(spans);
        if 0 <= at && at + 1 < spans.len() {
            coalesced(merged_at(spans, at), limit)
        } else {
            spans
        }
    }
}

pub proof fn lemma_shortest_free_pair(spans: Seq<SpanView>, k: int)
    requires
        k < spans.len(),
    ensures
        shortest_free_pair(spans, k) matches Some(i) ==> 0 <= i < k && free_pair(spans, i),
    decreases k,
{
    if k > 0 {
        lemma_shortest_free_pair(spans, k - 1);
    }
}

pub fn merge_reading_spans(left: ReadingSpan, right: ReadingSpan) -> (r: ReadingSpan)
    ensures
        r.deep_view() == merged(left.deep_view(), right.deep_view()),
{
    let fixed_surface: Option<String> = match (&left.fixed_surface, &right.fixed_surface) {
        (Some(a), Some(b)) => Some(joined(a.as_str(), b.as_str())),
        _ => None,
    };
    ReadingSpan { reading: joined(left.reading.as_str(), right.reading.as_str()), fixed_surface }
}

fn find_merge_position(spans: &Vec<ReadingSpan>) -> (at: usize)
    requires
        spans@.len() >= 2,
        reading_len(spans.deep_view(), spans@.len() as int) <= usize::MAX,
    ensures
        at == merge_position(spans.deep_view()),
        at + 1 < spans@.len(),
{
    let ghost all = spans.deep_view();
    let n: usize = spans.len();
    let mut best: Option<usize> = None;
    let mut best_len: usize = 0;
    let mut k: usize = 0;
    while k < n - 1
        invariant
            n == spans@.len(),
            n >= 2,
            k <= n - 1,
            all == spans.deep_view(),
            reading_len(all, n as int) <= usize::MAX,
            match best {
                Some(i) => shortest_free_pair(all, k as int) == Some(i as int) && best_len
                    == pair_len(all, i as int) && i < k,
                None => shortest_free_pair(all, k as int) is None,
            },
        decreases n - k,
    {
        proof {
            assert(all[k as int] == spans@[k as int].deep_view());
            assert(all[k + 1] == spans@[k + 1].deep_view());
            lemma_reading_len_monotone(all, k + 2, n as int);
            assert(reading_len(all, k + 2) == reading_len(all, k + 1) + all[k + 1].reading.len());
            assert(reading_len(all, k + 1) == reading_len(all, k as int)
                + all[k as int].reading.len());
        }
        if spans[k].fixed_surface.is_none() && spans[k + 1].fixed_surface.is_none() {
            let len: usize = char_count(spans[k].reading.as_str()) + char_count(
                spans[k + 1].reading.as_str(),
            );
            let keep: bool = match best {
                Some(_) => best_len <= len,
                None => false,
            };
            if !keep {
                best = Some(k);
                best_len = len;
            }
        }
        k = k + 1;
    }
    match best {
        Some(i) => i,
        None => n - 2,
    }
}

/// Merging neighbours keeps the reading.
pub proof fn lemma_merged_reading(spans: Seq<SpanView>, i: int)
    requires
        0 <= i,
        i + 1 < spans.len(),
    ensures
        spans_reading(merged_at(spans, i)) == spans_reading(spans),
        reading_len(merged_at(spans, i), merged_at(spans, i).len() as int) == reading_len(
            spans,
            spans.len() as int,
        ),
    decreases spans.len(),
{
    let m = merged_at(spans, i);
    let n = spans.len() as int;
    lemma_reading_is_measured(spans);
    lemma_reading_is_measured(m);
    if i + 2 == n {
        assert(m.drop_last() =~= spans.take(i));
        assert(spans.drop_last().drop_last() =~= spans.take(i));
        assert(m.last() == merged(spans[i], spans[i + 1]));
        assert(spans.drop_last().last() == spans[i]);
        assert(spans_reading(spans.drop_last()) == spans_reading(spans.take(i))
            + spans[i].reading);
        assert(spans_reading(spans) == (spans_reading(spans.take(i)) + spans[i].reading)
            + spans[i + 1].reading);
        assert(spans_reading(m) =~= spans_reading(spans));
    } else {
        assert(m.drop_last() =~= merged_at(spans.drop_last(), i));
        lemma_merged_reading(spans.drop_last(), i);
        assert(m.last() == spans.last());
    }
}

/// The reading of two lists of spans is the one reading after the other.
pub proof fn lemma_reading_of_concat(a: Seq<SpanView>, b: Seq<SpanView>)
    ensures
        spans_reading(a + b) == spans_reading(a) + spans_reading(b),
    decreases b.len(),
{
    if b.len() == 0 {
        assert(a + b =~= a);
        assert(spans_reading(a) + spans_reading(b) =~= spans_reading(a));
    } else {
        lemma_reading_of_concat(a, b.drop_last());
        assert((a + b).drop_last() =~= a + b.drop_last());
        assert(spans_reading(a + b) =~= spans_reading(a) + spans_reading(b));
    }
}

/// The reading of one span.
pub proof fn lemma_reading_of_one(span: SpanView)
    ensures
        spans_reading(seq![span]) == span.reading,
{
    assert(seq![span].drop_last() =~= Seq::empty());
    assert(spans_reading(seq![span].drop_last()) =~= Seq::<char>::empty());
    assert(spans_reading(seq![span]) =~= span.reading);
}

/// The measured length is the length of the reading.
pub proof fn lemma_reading_is_measured(spans: Seq<SpanView>)
    ensures
        reading_len(spans, spans.len() as int) == spans_reading(spans).len(),
    decreases spans.len(),
{
    if spans.len() > 0 {
        lemma_reading_is_measured(spans.drop_last());
        assert(spans.take(spans.len() - 1) == spans.drop_last().take(spans.len() - 1));
        lemma_prefix_len(spans, spans.drop_last(), spans.len() - 1);
    }
}

/// Merges short neighbouring spans until the surface has at least one
/// character for each of them.
pub fn coalesce_spans_to_surface_len(spans: Vec<ReadingSpan>, surface: &str) -> (r: Vec<
    ReadingSpan,
>)
    requires
        reading_len(spans.deep_view(), spans@.len() as int) <= usize::MAX,
    ensures
        r.deep_view() == coalesced(spans.deep_view(), surface@.len() as int),
{
    let limit: usize = char_count(surface);
    let ghost goal = coalesced(spans.deep_view(), limit as int);
    let mut spans = spans;
    if limit == 0 {
        return spans;
    }
    while spans.len() > limit
        invariant
            limit > 0,
            coalesced(spans.deep_view(), limit as int) == goal,
            reading_len(spans.deep_view(), spans@.len() as int) <= usize::MAX,
        decreases spans@.len(),
    {
        let ghost before = spans.deep_view();
        let at: usize = find_merge_position(&spans);
        proof {
            lemma_merged_reading(before, at as int);
        }
        let right = spans.remove(at + 1);
        let left = spans.remove(at);
        spans.insert(at, merge_reading_spans(left, right));
        assert(spans.deep_view() =~= merged_at(before, at as int));
    }
    spans
}

/// The pieces of a surface, one after the other.
pub open spec fn pieces_text(pieces: Seq<Option<Seq<char>>>) -> Seq<char>
    decreases pieces.len(),
{
    if pieces.len() == 0 {
        Seq::empty()
    } else {
        pieces_text(pieces.drop_last()) + match pieces.last() {
            Some(text) => text,
            None => Seq::empty(),
        }
    }
}

proof fn lemma_shared_prefix(surface: Seq<char>, spans: Seq<SpanView>, k: int)
    requires
        0 <= k <= spans.len(),
        surface.len() > 0,
        reading_len(spans, spans.len() as int) > 0,
    ensures
        pieces_text(shared_out(surface, spans).take(k)) == surface.take(
            cut(spans, surface.len() as int, k),
        ),
    decreases k,
{
    let n = surface.len() as int;
    let all = shared_out(surface, spans);
    if k > 0 {
        lemma_shared_prefix(surface, spans, k - 1);
        lemma_cut_bounds(spans, n, k);
        assert(all.take(k).drop_last() =~= all.take(k - 1));
        assert(all.take(k).last() == all[k - 1]);
        assert(surface.take(cut(spans, n, k)) =~= surface.take(cut(spans, n, k - 1))
            + surface.subrange(cut(spans, n, k - 1), cut(spans, n, k)));
        if cut(spans, n, k - 1) == cut(spans, n, k) {
            assert(surface.subrange(cut(spans, n, k - 1), cut(spans, n, k)) =~= Seq::empty());
        }
    } else {
        lemma_cut_bounds(spans, n, 0);
        assert(surface.take(0) =~= Seq::empty());
    }
}

/// Sharing a surface out over spans loses no character and reorders none: the
/// pieces, one after the other, are the surface. This holds wherever there is
/// a reading to measure by.
pub proof fn law_sharing_keeps_the_surface(surface: Seq<char>, spans: Seq<SpanView>)
    requires
        spans_reading(spans).len() > 0,
    ensures
        shared_out(surface, spans).len() == spans.len(),
        pieces_text(shared_out(surface, spans)) == surface,
{
    lemma_reading_is_measured(spans);
    let all = shared_out(surface, spans);
    if surface.len() > 0 {
        lemma_shared_prefix(surface, spans, spans.len() as int);
        lemma_cut_bounds(spans, surface.len() as int, spans.len() as int);
        assert(all.take(spans.len() as int) =~= all);
        assert(surface.take(surface.len() as int) =~= surface);
    } else {
        lemma_no_pieces(all);
    }
}

proof fn lemma_no_pieces(pieces: Seq<Option<Seq<char>>>)
    requires
        forall|i: int| 0 <= i < pieces.len() ==> pieces[i] is None,
    ensures
        pieces_text(pieces) == Seq::<char>::empty(),
    decreases pieces.len(),
{
    if pieces.len() > 0 {
        lemma_no_pieces(pieces.drop_last());
    }
}

/// A surface with at least one character for each span gives every span a
/// piece.
pub proof fn law_every_span_gets_a_piece(surface: Seq<char>, spans: Seq<SpanView>, i: int)
    requires
        spans_reading(spans).len() > 0,
        surface.len() >= spans.len(),
        0 <= i < spans.len(),
    ensures
        shared_out(surface, spans)[i] matches Some(text) && text.len() > 0,
{
    lemma_reading_is_measured(spans);
    lemma_cut_bounds(spans, surface.len() as int, i + 1);
}

proof fn lemma_anchored_pieces(
    surface: Seq<char>,
    spans: Seq<SpanView>,
    idx: int,
    open: int,
    from: int,
    k: int,
)
    requires
        0 <= open <= idx <= spans.len(),
        open <= k < spans.len(),
        forall|j: int| open <= j < idx ==> (#[trigger] spans[j]).fixed is None,
        anchored(surface, spans, idx, open, from) is Some,
    ensures
        anchored(surface, spans, idx, open, from)->0.len() == spans.len() - open,
        spans[k].fixed matches Some(word) ==> anchored(surface, spans, idx, open, from)->0[k - open]
            == Some(word),
    decreases spans.len() - idx,
{
    if idx < spans.len() {
        match spans[idx].fixed {
            None => {
                lemma_anchored_pieces(surface, spans, idx + 1, open, from, k);
            },
            Some(word) => {
                let at = first_occurrence(surface, word, from)->0;
                let rest = anchored(surface, spans, idx + 1, idx + 1, at + word.len())->0;
                if idx + 1 < spans.len() {
                    lemma_anchored_pieces(
                        surface,
                        spans,
                        idx + 1,
                        idx + 1,
                        at + word.len(),
                        if k > idx {
                            k
                        } else {
                            idx + 1
                        },
                    );
                } else {
                    assert(rest.len() == 0);
                }
            },
        }
    }
}

/// Laying a surface over spans gives one piece for each span, and where the
/// fixed surfaces are found as anchors, each fixed span keeps exactly its
/// registered surface.
pub proof fn law_anchors_keep_fixed_surfaces(surface: Seq<char>, spans: Seq<SpanView>, k: int)
    requires
        0 <= k < spans.len(),
    ensures
        laid_out(surface, spans).len() == spans.len(),
        anchored(surface, spans, 0, 0, 0) is Some ==> (spans[k].fixed matches Some(word)
            ==> laid_out(surface, spans)[k] == Some(word)),
{
    if anchored(surface, spans, 0, 0, 0) is Some {
        lemma_anchored_pieces(surface, spans, 0, 0, 0, k);
    }
}

/// `n` characters give each of `count` spans one, and none is left over where
/// there is no span.
pub open spec fn fills(n: int, count: int) -> bool {
    if count == 0 {
        n == 0
    } else {
        n >= count
    }
}

/// From span `idx` on every fixed surface is found as an anchor, and the text
/// between anchors fills the free spans there; `open` and `from` are as in
/// `anchored`.
pub open spec fn anchors_fill(
    surface: Seq<char>,
    spans: Seq<SpanView>,
    idx: int,
    open: int,
    from: int,
) -> bool
    decreases spans.len() - idx,
{
    if idx >= spans.len() {
        fills(surface.len() - from, spans.len() - open)
    } else {
        match spans[idx].fixed {
            None => anchors_fill(surface, spans, idx + 1, open, from),
            Some(word) => word.len() > 0 && match first_occurrence(surface, word, from) {
                Some(at) => fills(at - from, idx - open) && anchors_fill(
                    surface,
                    spans,
                    idx + 1,
                    idx + 1,
                    at + word.len(),
                ),
                None => false,
            },
        }
    }
}

/// Every free span has a reading.
pub open spec fn readable(spans: Seq<SpanView>) -> bool {
    forall|i: int|
        0 <= i < spans.len() ==> ((#[trigger] spans[i]).fixed is None ==> spans[i].reading.len()
            > 0)
}

/// Every span has a piece that is not empty.
pub open spec fn all_shown(pieces: Seq<Option<Seq<char>>>) -> bool {
    forall|i: int| 0 <= i < pieces.len() ==> (#[trigger] pieces[i] matches Some(text) && text.len()
        > 0)
}

pub proof fn lemma_pieces_of_concat(a: Seq<Option<Seq<char>>>, b: Seq<Option<Seq<char>>>)
    ensures
        pieces_text(a + b) == pieces_text(a) + pieces_text(b),
    decreases b.len(),
{
    if b.len() == 0 {
        assert(a + b =~= a);
        assert(pieces_text(a) + pieces_text(b) =~= pieces_text(a));
    } else {
        lemma_pieces_of_concat(a, b.drop_last());
        assert((a + b).drop_last() =~= a + b.drop_last());
        assert(pieces_text(a + b) =~= pieces_text(a) + pieces_text(b));
    }
}

proof fn lemma_filled(surface: Seq<char>, spans: Seq<SpanView>)
    requires
        fills(surface.len() as int, spans.len() as int),
        forall|i: int| 0 <= i < spans.len() ==> (#[trigger] spans[i]).reading.len() > 0,
    ensures
        shared_out(surface, spans).len() == spans.len(),
        pieces_text(shared_out(surface, spans)) == surface,
        all_shown(shared_out(surface, spans)),
{
    if spans.len() > 0 {
        lemma_reading_is_measured(spans);
        assert(spans[spans.len() - 1].reading.len() > 0);
        law_sharing_keeps_the_surface(surface, spans);
        assert forall|i: int| 0 <= i < spans.len() implies (#[trigger] shared_out(
            surface,
            spans,
        )[i] matches Some(text) && text.len() > 0) by {
            law_every_span_gets_a_piece(surface, spans, i);
        }
    } else {
        assert(surface =~= Seq::empty());
    }
}

proof fn lemma_first_occurrence(s: Seq<char>, word: Seq<char>, from: int)
    requires
        0 <= from,
    ensures
        first_occurrence(s, word, from) matches Some(at) ==> from <= at && occurs_at(s, word, at),
    decreases s.len() - from,
{
    if from < s.len() {
        lemma_first_occurrence(s, word, from + 1);
    }
}

proof fn lemma_anchors_divide(
    surface: Seq<char>,
    spans: Seq<SpanView>,
    idx: int,
    open: int,
    from: int,
)
    requires
        0 <= open <= idx <= spans.len(),
        0 <= from <= surface.len(),
        readable(spans),
        forall|j: int| open <= j < idx ==> (#[trigger] spans[j]).fixed is None,
        anchors_fill(surface, spans, idx, open, from),
    ensures
        anchored(surface, spans, idx, open, from) matches Some(pieces) && pieces.len()
            == spans.len() - open && pieces_text(pieces) == surface.subrange(
            from,
            surface.len() as int,
        ) && all_shown(pieces),
    decreases spans.len() - idx,
{
    if idx >= spans.len() {
        let gap = spans.subrange(open, spans.len() as int);
        assert forall|i: int| 0 <= i < gap.len() implies (#[trigger] gap[i]).reading.len() > 0 by {
            assert(gap[i] == spans[open + i]);
        }
        lemma_filled(surface.subrange(from, surface.len() as int), gap);
    } else {
        match spans[idx].fixed {
            None => {
                lemma_anchors_divide(surface, spans, idx + 1, open, from);
            },
            Some(word) => {
                lemma_first_occurrence(surface, word, from);
                let at = first_occurrence(surface, word, from)->0;
                let next = at + word.len();
                lemma_anchors_divide(surface, spans, idx + 1, idx + 1, next);
                let gap = spans.subrange(open, idx);
                assert forall|i: int| 0 <= i < gap.len() implies (#[trigger] gap[i]).reading.len()
                    > 0 by {
                    assert(gap[i] == spans[open + i]);
                }
                let between = surface.subrange(from, at);
                lemma_filled(between, gap);
                let before = shared_out(between, gap);
                let own = seq![Some(word)];
                let rest = anchored(surface, spans, idx + 1, idx + 1, next)->0;
                lemma_pieces_of_concat(before, own);
                lemma_pieces_of_concat(before + own, rest);
                assert(own.drop_last() =~= Seq::empty());
                assert(pieces_text(own.drop_last()) =~= Seq::<char>::empty());
                assert(pieces_text(own) =~= word);
                assert(between + word + surface.subrange(next, surface.len() as int)
                    =~= surface.subrange(from, surface.len() as int));
                let all = before + own + rest;
                assert forall|i: int| 0 <= i < all.len() implies (#[trigger] all[i] matches Some(
                    text,
                ) && text.len() > 0) by {
                    if i < before.len() {
                        assert(all[i] == before[i]);
                    } else if i > before.len() {
                        assert(all[i] == rest[i - before.len() - 1]);
                    }
                }
            },
        }
    }
}

/// Where the fixed surfaces are found as anchors and the text between them
/// fills the free spans there, a surface laid over spans is divided over them:
/// every span has a piece, and the pieces, one after the other, are the
/// surface.
pub proof fn law_anchors_divide_the_surface(surface: Seq<char>, spans: Seq<SpanView>)
    requires
        readable(spans),
        anchors_fill(surface, spans, 0, 0, 0),
    ensures
        anchored(surface, spans, 0, 0, 0) is Some,
        laid_out(surface, spans).len() == spans.len(),
        pieces_text(laid_out(surface, spans)) == surface,
        all_shown(laid_out(surface, spans)),
{
    lemma_anchors_divide(surface, spans, 0, 0, 0);
    assert(surface.subrange(0, surface.len() as int) =~= surface);
}

/// Merging spans leaves none without a reading.
pub proof fn lemma_coalescing_keeps_readable(spans: Seq<SpanView>, limit: int)
    requires
        readable(spans),
    ensures
        readable(coalesced(spans, limit)),
    decreases spans.len(),
{
    if limit > 0 && spans.len() > limit && spans.len() >= 2 {
        let at = merge_position(spans);
        lemma_shortest_free_pair(spans, spans.len() - 1);
        let next = merged_at(spans, at);
        assert forall|i: int|
            0 <= i < next.len() && (#[trigger] next[i]).fixed is None implies next[i].reading.len()
            > 0 by {
            if i < at {
                assert(next[i] == spans[i]);
            } else if i == at {
                assert(next[i] == merged(spans[at], spans[at + 1]));
            } else {
                assert(next[i] == spans[i + 1]);
            }
        }
        lemma_coalescing_keeps_readable(next, limit);
    }
}

/// Merging spans keeps the reading, and leaves no more spans than the surface
/// has characters.
pub proof fn law_coalescing_keeps_the_reading(spans: Seq<SpanView>, limit: int)
    ensures
        spans_reading(coalesced(spans, limit)) == spans_reading(spans),
        limit > 0 ==> coalesced(spans, limit).len() <= limit,
        limit > 0 && spans.len() > 0 ==> coalesced(spans, limit).len() > 0,
    decreases spans.len(),
{
    if limit > 0 && spans.len() > limit && spans.len() >= 2 {
        let at = merge_position(spans);
        lemma_shortest_free_pair(spans, spans.len() - 1);
        lemma_merged_reading(spans, at);
        law_coalescing_keeps_the_reading(merged_at(spans, at), limit);
    }
}

} // verus!
