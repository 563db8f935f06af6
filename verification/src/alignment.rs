//! Aligning a converted surface back to the reading it came from.
//!
//! The surface is explained as a run of dictionary words and unchanged
//! characters. Among all explanations the one with most characters in
//! registered words wins, then the one with fewest unchanged characters, then
//! the lower dictionary cost, then fewer clauses.

use vstd::prelude::*;
use crate::alignment_laws;
use crate::dictionary;
use crate::dictionary::{Dictionary, DictionaryEntry, EntryView, SurfaceView};
use crate::lists::{add_item, add_items};
use crate::segmentation;
use crate::segmentation::{split_free_reading_segments, MAX_EXPLICIT_SEGMENT_CHARS};
use crate::spans;
use crate::spans::{ReadingSpan, SpanView, stands_at};
use crate::text::{char_count, chars_of, text_of_range};

verus! {

/// Bound on the table of partial alignments for unusually long texts.
pub const MAX_SURFACE_ALIGNMENT_CELLS: usize = 16384;

/// One explanation of a part of the surface.
pub struct SurfaceAlignment {
    pub unmatched_reading_chars: usize,
    pub user_reading_chars: usize,
    pub dictionary_score: i64,
    pub spans: Vec<ReadingSpan>,
}

#[verifier::ext_equal]
pub struct AlignmentView {
    pub unmatched: int,
    pub user: int,
    pub score: int,
    pub spans: Seq<SpanView>,
}

impl DeepView for SurfaceAlignment {
    type V = AlignmentView;

    open spec fn deep_view(&self) -> AlignmentView {
        AlignmentView {
            unmatched: self.unmatched_reading_chars as int,
            user: self.user_reading_chars as int,
            score: self.dictionary_score as int,
            spans: self.spans.deep_view(),
        }
    }
}

impl Clone for SurfaceAlignment {
    fn clone(&self) -> (r: Self)
        ensures
            r.deep_view() == self.deep_view(),
    {
        let spans = self.spans.clone();
        assert(spans.deep_view() =~= self.spans.deep_view());
        SurfaceAlignment {
            unmatched_reading_chars: self.unmatched_reading_chars,
            user_reading_chars: self.user_reading_chars,
            dictionary_score: self.dictionary_score,
            spans,
        }
    }
}

/// The explanation of nothing.
pub open spec fn no_alignment() -> AlignmentView {
    AlignmentView { unmatched: 0, user: 0, score: 0, spans: Seq::empty() }
}

/// `a` is a better explanation than `b`.
pub open spec fn better(a: AlignmentView, b: AlignmentView) -> bool {
    a.user > b.user || (a.user == b.user && (a.unmatched < b.unmatched || (a.unmatched
        == b.unmatched && (a.score < b.score || (a.score == b.score && a.spans.len()
        < b.spans.len())))))
}

/// An explanation continued by one unchanged character; neighbouring
/// unchanged characters share a span.
pub open spec fn with_literal(a: AlignmentView, ch: char) -> AlignmentView {
    let spans = if a.spans.len() > 0 && a.spans.last().fixed is None {
        a.spans.drop_last().push(spans::free_span(a.spans.last().reading.push(ch)))
    } else {
        a.spans.push(spans::free_span(seq![ch]))
    };
    AlignmentView { unmatched: a.unmatched + 1, spans, ..a }
}

/// An explanation continued by a dictionary word.
pub open spec fn with_word(
    a: AlignmentView,
    reading: Seq<char>,
    surface: Seq<char>,
    score: int,
    is_user: bool,
) -> AlignmentView {
    AlignmentView {
        unmatched: a.unmatched,
        user: if is_user {
            a.user + reading.len()
        } else {
            a.user
        },
        score: a.score + score,
        spans: a.spans.push(SpanView { reading, fixed: Some(surface) }),
    }
}

/// The best explanations found so far, by the number of reading and of
/// surface characters they cover.
pub type Table = Seq<Seq<Option<AlignmentView>>>;

/// The table with `a` put at `(r, s)` where it beats what stands there.
pub open spec fn relaxed(t: Table, r: int, s: int, a: AlignmentView) -> Table {
    if t[r][s] matches Some(b) && !better(a, b) {
        t
    } else {
        t.update(r, t[r].update(s, Some(a)))
    }
}

/// What an alignment works on.
pub struct Task {
    pub reading: Seq<char>,
    pub surface: Seq<char>,
    pub user: Option<Seq<EntryView>>,
    pub system: Option<Seq<EntryView>>,
    pub limit: int,
}

/// `path`, which ends at `(r, s)`, continued by the first `k` surfaces of a
/// word, as far as they stand in the text there.
pub open spec fn after_surfaces(
    t: Table,
    task: Task,
    path: AlignmentView,
    r: int,
    s: int,
    word: EntryView,
    is_user: bool,
    k: int,
) -> Table
    decreases k,
{
    if k <= 0 {
        t
    } else {
        let before = after_surfaces(t, task, path, r, s, word, is_user, k - 1);
        let c = word.candidates[k - 1];
        if c.surface.len() > 0 && spans::occurs_at(task.surface, c.surface, s) {
            relaxed(
                before,
                r + word.reading.len(),
                s + c.surface.len(),
                with_word(path, word.reading, c.surface, c.score, is_user),
            )
        } else {
            before
        }
    }
}

/// `path` continued by the first `k` of the words that stand at `r`, those of
/// more than `limit` characters left out.
pub open spec fn after_words(
    t: Table,
    task: Task,
    path: AlignmentView,
    r: int,
    s: int,
    words: Seq<EntryView>,
    limit: int,
    is_user: bool,
    k: int,
) -> Table
    decreases k,
{
    if k <= 0 {
        t
    } else {
        let before = after_words(t, task, path, r, s, words, limit, is_user, k - 1);
        let word = words[k - 1];
        if 0 < word.reading.len() <= limit {
            after_surfaces(
                before,
                task,
                path,
                r,
                s,
                word,
                is_user,
                word.candidates.len() as int,
            )
        } else {
            before
        }
    }
}

/// `path` continued by all words of a dictionary that stand at `r`.
pub open spec fn after_dictionary(
    t: Table,
    task: Task,
    path: AlignmentView,
    r: int,
    s: int,
    dict: Option<Seq<EntryView>>,
    limit: int,
    is_user: bool,
) -> Table {
    match dict {
        None => t,
        Some(d) => {
            let words = dictionary::prefix_words(d, task.reading.skip(r));
            after_words(t, task, path, r, s, words, limit, is_user, words.len() as int)
        },
    }
}

/// The table after the best explanation at `(r, s)` has been continued in
/// every way: by registered words, by dictionary words, by an unchanged
/// character.
pub open spec fn after_cell(t: Table, task: Task, r: int, s: int) -> Table {
    match t[r][s] {
        None => t,
        Some(path) => if r >= task.reading.len() || s >= task.surface.len() {
            t
        } else {
            let t1 = after_dictionary(
                t,
                task,
                path,
                r,
                s,
                task.user,
                task.reading.len() - r,
                true,
            );
            let t2 = after_dictionary(t1, task, path, r, s, task.system, task.limit, false);
            if task.reading[r] == task.surface[s] {
                relaxed(t2, r + 1, s + 1, with_literal(path, task.reading[r]))
            } else {
                t2
            }
        },
    }
}

/// The table after the first `k` cells of row `r`.
pub open spec fn after_row(t: Table, task: Task, r: int, k: int) -> Table
    decreases k,
{
    if k <= 0 {
        t
    } else {
        after_cell(after_row(t, task, r, k - 1), task, r, k - 1)
    }
}

/// The table that holds only the explanation of nothing.
pub open spec fn start_table(task: Task) -> Table {
    Seq::new(
        task.reading.len() + 1,
        |r: int|
            Seq::new(
                task.surface.len() + 1,
                |s: int|
                    if r == 0 && s == 0 {
                        Some(no_alignment())
                    } else {
                        None
                    },
            ),
    )
}

/// The table after the first `k` rows.
pub open spec fn after_rows(task: Task, k: int) -> Table
    decreases k,
{
    if k <= 0 {
        start_table(task)
    } else {
        after_row(after_rows(task, k - 1), task, k - 1, task.surface.len() as int + 1)
    }
}

/// The best explanation of the whole surface by the whole reading.
pub open spec fn best_alignment(task: Task) -> Option<AlignmentView> {
    after_rows(task, task.reading.len() as int + 1)[task.reading.len() as int][task.surface.len() as int]
}

impl SurfaceAlignment {
    pub fn is_better_than(&self, other: &Self) -> (r: bool)
        ensures
            r == better(self.deep_view(), other.deep_view()),
    {
        self.user_reading_chars > other.user_reading_chars || (self.user_reading_chars
            == other.user_reading_chars && (self.unmatched_reading_chars
            < other.unmatched_reading_chars || (self.unmatched_reading_chars
            == other.unmatched_reading_chars && (self.dictionary_score < other.dictionary_score || (
        self.dictionary_score == other.dictionary_score && self.spans.len()
            < other.spans.len())))))
    }

    pub fn push_literal(&mut self, ch: char)
        requires
            old(self).unmatched_reading_chars < usize::MAX,
        ensures
            final(self).deep_view() == with_literal(old(self).deep_view(), ch),
    {
        let ghost before = self.deep_view();
        self.unmatched_reading_chars = self.unmatched_reading_chars + 1;
        let n: usize = self.spans.len();
        if n > 0 && self.spans[n - 1].fixed_surface.is_none() {
            let mut reading = self.spans[n - 1].reading.clone();
            reading.push(ch);
            self.spans.truncate(n - 1);
            self.spans.push(ReadingSpan { reading, fixed_surface: None });
            assert(self.spans.deep_view() =~= before.spans.drop_last().push(
                spans::free_span(before.spans.last().reading.push(ch)),
            ));
        } else {
            let mut reading = String::new();
            reading.push(ch);
            assert(reading@ =~= seq![ch]);
            add_item(&mut self.spans, ReadingSpan { reading, fixed_surface: None });
        }
    }

    pub fn push_dictionary_match(
        &mut self,
        reading: &str,
        surface: &str,
        score: i32,
        is_user: bool,
    )
        requires
            old(self).user_reading_chars + reading@.len() <= usize::MAX,
            i64::MIN <= old(self).dictionary_score + score <= i64::MAX,
        ensures
            final(self).deep_view() == with_word(
                old(self).deep_view(),
                reading@,
                surface@,
                score as int,
                is_user,
            ),
    {
        if is_user {
            self.user_reading_chars = self.user_reading_chars + char_count(reading);
        }
        self.dictionary_score = self.dictionary_score + score as i64;
        add_item(
            &mut self.spans,
            ReadingSpan { reading: reading.to_owned(), fixed_surface: Some(surface.to_owned()) },
        );
    }
}

/// Puts an explanation into its cell where it beats what stands there.
fn keep_better_alignment(
    paths: &mut Vec<Vec<Option<SurfaceAlignment>>>,
    r: usize,
    s: usize,
    candidate: SurfaceAlignment,
)
    requires
        r < old(paths)@.len(),
        s < old(paths)@[r as int]@.len(),
    ensures
        final(paths).deep_view() == relaxed(
            old(paths).deep_view(),
            r as int,
            s as int,
            candidate.deep_view(),
        ),
{
    let ghost before = paths.deep_view();
    assert(before[r as int][s as int] == paths@[r as int]@[s as int].deep_view());
    let replace: bool = match &paths[r][s] {
        None => true,
        Some(existing) => candidate.is_better_than(existing),
    };
    if replace {
        paths[r][s] = Some(candidate);
        assert(paths.deep_view()[r as int] =~= before[r as int].update(
            s as int,
            Some(candidate.deep_view()),
        ));
        assert(paths.deep_view() =~= before.update(
            r as int,
            before[r as int].update(s as int, Some(candidate.deep_view())),
        ));
    }
}

/// `surface` is a surface of `reading` in the dictionary.
pub open spec fn has_surface(
    dict: Option<Seq<EntryView>>,
    reading: Seq<char>,
    surface: Seq<char>,
) -> bool {
    dict matches Some(d) && dictionary::surfaces_of(d, reading) matches Some(c) && exists|j: int|
        0 <= j < c.len() && (#[trigger] c[j]).surface == surface
}

/// A span is a dictionary word with one of its surfaces, not an empty one, or
/// unchanged text.
pub open spec fn explained(task: Task, span: SpanView) -> bool {
    span.fixed matches Some(surface) ==> surface.len() > 0 && (has_surface(
        task.user,
        span.reading,
        surface,
    ) || has_surface(task.system, span.reading, surface))
}

/// `a` explains the first `s` surface characters by the first `r` reading
/// characters.
pub open spec fn explains(task: Task, r: int, s: int, a: AlignmentView) -> bool {
    &&& spans::spans_reading(a.spans) == task.reading.take(r)
    &&& segmentation::replaced_text(a.spans) == task.surface.take(s)
    &&& forall|i: int| 0 <= i < a.spans.len() ==> explained(task, #[trigger] a.spans[i])
    &&& 0 <= a.unmatched <= r
    &&& 0 <= a.user <= r
    &&& -(r * 0x8000_0000) <= a.score <= r * 0x8000_0000
}

/// The score of a surface fits the type of scores.
pub open spec fn score_fits(c: SurfaceView) -> bool {
    i32::MIN <= c.score <= i32::MAX
}

/// Every score of the entries fits the type of scores.
pub open spec fn entries_fit(d: Seq<EntryView>) -> bool {
    forall|i: int, j: int|
        0 <= i < d.len() && 0 <= j < d[i].candidates.len() ==> #[trigger] score_fits(
            d[i].candidates[j],
        )
}

/// Every score of the dictionary fits the type of scores.
pub open spec fn scores_fit(dict: Option<Seq<EntryView>>) -> bool {
    match dict {
        Some(d) => entries_fit(d),
        None => true,
    }
}

/// Every explanation in the table explains the part that its cell stands for.
pub open spec fn sound(task: Task, t: Table) -> bool {
    &&& t.len() == task.reading.len() + 1
    &&& forall|r: int| 0 <= r < t.len() ==> (#[trigger] t[r]).len() == task.surface.len() + 1
    &&& forall|r: int, s: int|
        0 <= r <= task.reading.len() && 0 <= s <= task.surface.len() ==> (
        #[trigger] t[r][s] matches Some(a) ==> explains(task, r, s, a))
}

proof fn lemma_surfaces_fit(d: Seq<EntryView>, reading: Seq<char>, j: int)
    requires
        entries_fit(d),
        dictionary::surfaces_of(d, reading) matches Some(c) && 0 <= j < c.len(),
    ensures
        score_fits((dictionary::surfaces_of(d, reading)->0)[j]),
    decreases d.len(),
{
    if d.len() > 0 {
        if d[0].reading == reading {
            assert(score_fits(d[0].candidates[j]));
        } else {
            let rest = d.drop_first();
            assert forall|i: int, j: int|
                0 <= i < rest.len() && 0 <= j < rest[i].candidates.len() implies #[trigger] score_fits(
                rest[i].candidates[j],
            ) by {
                assert(score_fits(d[i + 1].candidates[j]));
            }
            lemma_surfaces_fit(rest, reading, j);
        }
    }
}

pub proof fn lemma_word_is_prefix(d: Seq<EntryView>, input: Seq<char>, k: int, i: int)
    requires
        0 <= k <= input.len(),
        0 <= i < dictionary::words_up_to(d, input, k).len(),
    ensures
        ({
            let w = dictionary::words_up_to(d, input, k)[i];
            &&& 1 <= w.reading.len() <= k
            &&& w.reading == input.take(w.reading.len() as int)
            &&& dictionary::surfaces_of(d, w.reading) == Some(w.candidates)
        }),
    decreases k,
{
    if k > 0 {
        let before = dictionary::words_up_to(d, input, k - 1);
        if i < before.len() {
            lemma_word_is_prefix(d, input, k - 1, i);
        }
    }
}

proof fn lemma_relaxed_sound(task: Task, t: Table, r: int, s: int, a: AlignmentView)
    requires
        sound(task, t),
        0 <= r <= task.reading.len(),
        0 <= s <= task.surface.len(),
        explains(task, r, s, a),
    ensures
        sound(task, relaxed(t, r, s, a)),
{
    let u = relaxed(t, r, s, a);
    assert forall|i: int, j: int|
        0 <= i <= task.reading.len() && 0 <= j <= task.surface.len() implies (
    #[trigger] u[i][j] matches Some(b) ==> explains(task, i, j, b)) by {
        assert(t[i][j] matches Some(b) ==> explains(task, i, j, b));
        if i == r && j == s {
        } else {
            assert(u[i][j] == t[i][j]);
        }
    }
}

proof fn lemma_word_explains(
    task: Task,
    path: AlignmentView,
    r: int,
    s: int,
    d: Seq<EntryView>,
    reading: Seq<char>,
    j: int,
    is_user: bool,
)
    requires
        0 <= r <= task.reading.len(),
        0 <= s <= task.surface.len(),
        explains(task, r, s, path),
        is_user ==> task.user == Some(d),
        !is_user ==> task.system == Some(d),
        scores_fit(Some(d)),
        1 <= reading.len() <= task.reading.len() - r,
        reading == task.reading.skip(r).take(reading.len() as int),
        dictionary::surfaces_of(d, reading) matches Some(c) && 0 <= j < c.len()
            && c[j].surface.len() > 0 && spans::occurs_at(task.surface, c[j].surface, s),
    ensures
        ({
            let c = (dictionary::surfaces_of(d, reading)->0)[j];
            explains(
                task,
                r + reading.len(),
                s + c.surface.len(),
                with_word(path, reading, c.surface, c.score, is_user),
            )
        }),
{
    let cs = dictionary::surfaces_of(d, reading)->0;
    let c = cs[j];
    let a = with_word(path, reading, c.surface, c.score, is_user);
    lemma_surfaces_fit(d, reading, j);
    assert(a.spans.drop_last() =~= path.spans);
    assert(task.reading.take(r + reading.len()) =~= task.reading.take(r) + reading);
    assert(task.surface.take(s + c.surface.len()) =~= task.surface.take(s) + c.surface);
    assert(has_surface(Some(d), reading, c.surface));
    assert forall|i: int| 0 <= i < a.spans.len() implies explained(task, #[trigger] a.spans[i]) by {
        if i < path.spans.len() {
            assert(explained(task, path.spans[i]));
        }
    }
}

proof fn lemma_literal_explains(task: Task, path: AlignmentView, r: int, s: int)
    requires
        0 <= r < task.reading.len(),
        0 <= s < task.surface.len(),
        explains(task, r, s, path),
        task.reading[r] == task.surface[s],
    ensures
        explains(task, r + 1, s + 1, with_literal(path, task.reading[r])),
{
    let ch = task.reading[r];
    let a = with_literal(path, ch);
    assert(task.reading.take(r + 1) =~= task.reading.take(r).push(ch));
    assert(task.surface.take(s + 1) =~= task.surface.take(s).push(ch));
    if path.spans.len() > 0 && path.spans.last().fixed is None {
        assert(a.spans.drop_last() =~= path.spans.drop_last());
        let head = spans::spans_reading(path.spans.drop_last());
        let shown = segmentation::replaced_text(path.spans.drop_last());
        let last = path.spans.last().reading;
        assert(head + last.push(ch) =~= (head + last).push(ch));
        assert(shown + last.push(ch) =~= (shown + last).push(ch));
    } else {
        assert(a.spans.drop_last() =~= path.spans);
        let head = spans::spans_reading(path.spans);
        let shown = segmentation::replaced_text(path.spans);
        assert(head + seq![ch] =~= head.push(ch));
        assert(shown + seq![ch] =~= shown.push(ch));
    }
    assert forall|i: int| 0 <= i < a.spans.len() implies explained(task, #[trigger] a.spans[i]) by {
        if i < path.spans.len() {
            assert(explained(task, path.spans[i]));
        }
    }
}

pub proof fn lemma_dictionary_fits(dict: &Option<Dictionary>)
    ensures
        scores_fit(dict.deep_view()),
{
    if let Some(d) = dict {
        let view = d.deep_view();
        assert forall|i: int, j: int|
            0 <= i < view.len() && 0 <= j < view[i].candidates.len() implies #[trigger] score_fits(
            view[i].candidates[j],
        ) by {
            assert(view[i] == d.entries@[i].deep_view());
            assert(view[i].candidates[j] == d.entries@[i].candidates@[j].deep_view());
        }
    }
}

/// The table is small enough that no count in it can overflow.
pub open spec fn small(task: Task) -> bool {
    task.reading.len() < MAX_SURFACE_ALIGNMENT_CELLS && task.surface.len()
        < MAX_SURFACE_ALIGNMENT_CELLS
}

/// Continues the explanation `path` at `(r, s)` by one word of a dictionary.
fn extend_by_word(
    paths: &mut Vec<Vec<Option<SurfaceAlignment>>>,
    path: &SurfaceAlignment,
    entry: &DictionaryEntry,
    surface: &Vec<char>,
    r: usize,
    s: usize,
    is_user: bool,
    Ghost(task): Ghost<Task>,
    Ghost(dict): Ghost<Seq<EntryView>>,
)
    requires
        small(task),
        sound(task, old(paths).deep_view()),
        task.surface == surface@,
        r < task.reading.len(),
        s < task.surface.len(),
        explains(task, r as int, s as int, path.deep_view()),
        is_user ==> task.user == Some(dict),
        !is_user ==> task.system == Some(dict),
        entries_fit(dict),
        1 <= entry.reading@.len() <= task.reading.len() - r,
        entry.reading@ == task.reading.skip(r as int).take(entry.reading@.len() as int),
        dictionary::surfaces_of(dict, entry.reading@) == Some(entry.candidates.deep_view()),
    ensures
        sound(task, final(paths).deep_view()),
        final(paths).deep_view() == after_surfaces(
            old(paths).deep_view(),
            task,
            path.deep_view(),
            r as int,
            s as int,
            entry.deep_view(),
            is_user,
            entry.candidates@.len() as int,
        ),
{
    let ghost start = paths.deep_view();
    let reading_len: usize = char_count(entry.reading.as_str());
    let n: usize = surface.len();
    let mut k: usize = 0;
    while k < entry.candidates.len()
        invariant
            k <= entry.candidates@.len(),
            n == surface@.len(),
            reading_len == entry.reading@.len(),
            small(task),
            sound(task, paths.deep_view()),
            task.surface == surface@,
            r < task.reading.len(),
            s < task.surface.len(),
            explains(task, r as int, s as int, path.deep_view()),
            is_user ==> task.user == Some(dict),
            !is_user ==> task.system == Some(dict),
            entries_fit(dict),
            1 <= entry.reading@.len() <= task.reading.len() - r,
            entry.reading@ == task.reading.skip(r as int).take(entry.reading@.len() as int),
            dictionary::surfaces_of(dict, entry.reading@) == Some(entry.candidates.deep_view()),
            paths.deep_view() == after_surfaces(
                start,
                task,
                path.deep_view(),
                r as int,
                s as int,
                entry.deep_view(),
                is_user,
                k as int,
            ),
        decreases entry.candidates@.len() - k,
    {
        let candidate = &entry.candidates[k];
        assert(entry.deep_view().candidates[k as int] == candidate.deep_view());
        let word = chars_of(candidate.surface.as_str());
        if word.len() > 0 && stands_at(surface, &word, s) {
            let mut next = path.clone();
            next.push_dictionary_match(
                entry.reading.as_str(),
                candidate.surface.as_str(),
                candidate.score,
                is_user,
            );
            proof {
                lemma_word_explains(
                    task,
                    path.deep_view(),
                    r as int,
                    s as int,
                    dict,
                    entry.reading@,
                    k as int,
                    is_user,
                );
                lemma_relaxed_sound(
                    task,
                    paths.deep_view(),
                    r + reading_len,
                    s + word@.len(),
                    next.deep_view(),
                );
                assert(paths.deep_view()[r + reading_len] == paths@[r + reading_len].deep_view());
            }
            keep_better_alignment(paths, r + reading_len, s + word.len(), next);
        }
        k = k + 1;
    }
}

/// Continues the explanation `path` at `(r, s)` by every word of a dictionary
/// that stands there and is not too long.
fn extend_dictionary_alignments(
    paths: &mut Vec<Vec<Option<SurfaceAlignment>>>,
    path: &SurfaceAlignment,
    dict: &Dictionary,
    reading: &Vec<char>,
    surface: &Vec<char>,
    r: usize,
    s: usize,
    max_reading_len: usize,
    is_user: bool,
    Ghost(task): Ghost<Task>,
)
    requires
        small(task),
        sound(task, old(paths).deep_view()),
        task.reading == reading@,
        task.surface == surface@,
        r < task.reading.len(),
        s < task.surface.len(),
        explains(task, r as int, s as int, path.deep_view()),
        is_user ==> task.user == Some(dict.deep_view()),
        !is_user ==> task.system == Some(dict.deep_view()),
        entries_fit(dict.deep_view()),
    ensures
        sound(task, final(paths).deep_view()),
        final(paths).deep_view() == after_dictionary(
            old(paths).deep_view(),
            task,
            path.deep_view(),
            r as int,
            s as int,
            Some(dict.deep_view()),
            max_reading_len as int,
            is_user,
        ),
{
    let ghost start = paths.deep_view();
    let suffix = text_of_range(reading, r, reading.len());
    assert(suffix@ =~= task.reading.skip(r as int));
    let words = dict.common_prefix_search(suffix.as_str());
    let ghost all = words.deep_view();
    let mut k: usize = 0;
    while k < words.len()
        invariant
            k <= words@.len(),
            all == words.deep_view(),
            all == dictionary::prefix_words(dict.deep_view(), task.reading.skip(r as int)),
            small(task),
            sound(task, paths.deep_view()),
            task.reading == reading@,
            task.surface == surface@,
            r < task.reading.len(),
            s < task.surface.len(),
            explains(task, r as int, s as int, path.deep_view()),
            is_user ==> task.user == Some(dict.deep_view()),
            !is_user ==> task.system == Some(dict.deep_view()),
            entries_fit(dict.deep_view()),
            paths.deep_view() == after_words(
                start,
                task,
                path.deep_view(),
                r as int,
                s as int,
                all,
                max_reading_len as int,
                is_user,
                k as int,
            ),
        decreases words@.len() - k,
    {
        let entry = words[k];
        assert(all[k as int] == entry.deep_view());
        proof {
            lemma_word_is_prefix(
                dict.deep_view(),
                task.reading.skip(r as int),
                task.reading.len() - r,
                k as int,
            );
        }
        let len: usize = char_count(entry.reading.as_str());
        if 0 < len && len <= max_reading_len {
            extend_by_word(
                paths,
                path,
                entry,
                surface,
                r,
                s,
                is_user,
                Ghost(task),
                Ghost(dict.deep_view()),
            );
        }
        k = k + 1;
    }
}

/// The table with no explanation but that of nothing.
fn empty_table(n: usize, m: usize, Ghost(task): Ghost<Task>) -> (paths: Vec<
    Vec<Option<SurfaceAlignment>>,
>)
    requires
        n == task.reading.len(),
        m == task.surface.len(),
        small(task),
    ensures
        paths.deep_view() == start_table(task),
        sound(task, start_table(task)),
{
    let mut paths: Vec<Vec<Option<SurfaceAlignment>>> = Vec::new();
    let mut r: usize = 0;
    while r <= n
        invariant
            r <= n + 1,
            n == task.reading.len(),
            m == task.surface.len(),
            small(task),
            paths.deep_view() == start_table(task).take(r as int),
        decreases n + 1 - r,
    {
        let mut row: Vec<Option<SurfaceAlignment>> = Vec::new();
        let mut s: usize = 0;
        while s <= m
            invariant
                s <= m + 1,
                r <= n,
                n == task.reading.len(),
                m == task.surface.len(),
                small(task),
                row.deep_view() == start_table(task)[r as int].take(s as int),
            decreases m + 1 - s,
        {
            if r == 0 && s == 0 {
                let nothing = SurfaceAlignment {
                    unmatched_reading_chars: 0,
                    user_reading_chars: 0,
                    dictionary_score: 0,
                    spans: Vec::new(),
                };
                assert(nothing.deep_view() =~= no_alignment());
                add_item(&mut row, Some(nothing));
            } else {
                add_item(&mut row, None);
            }
            s = s + 1;
            assert(row.deep_view() =~= start_table(task)[r as int].take(s as int));
        }
        assert(row.deep_view() =~= start_table(task)[r as int]);
        add_item(&mut paths, row);
        r = r + 1;
        assert(paths.deep_view() =~= start_table(task).take(r as int));
    }
    assert(paths.deep_view() =~= start_table(task));
    proof {
        assert(task.reading.take(0) =~= Seq::empty());
        assert(task.surface.take(0) =~= Seq::empty());
        assert(explains(task, 0, 0, no_alignment()));
    }
    paths
}

/// Continues the best explanation at `(r, s)` in every way.
fn extend_cell(
    paths: &mut Vec<Vec<Option<SurfaceAlignment>>>,
    user: &Option<Dictionary>,
    system: &Option<Dictionary>,
    limit: usize,
    reading: &Vec<char>,
    surface: &Vec<char>,
    r: usize,
    s: usize,
    Ghost(task): Ghost<Task>,
)
    requires
        small(task),
        sound(task, old(paths).deep_view()),
        task.reading == reading@,
        task.surface == surface@,
        task.user == user.deep_view(),
        task.system == system.deep_view(),
        task.limit == limit,
        r <= task.reading.len(),
        s <= task.surface.len(),
    ensures
        sound(task, final(paths).deep_view()),
        final(paths).deep_view() == after_cell(old(paths).deep_view(), task, r as int, s as int),
{
    let ghost start = paths.deep_view();
    assert(start[r as int] == paths@[r as int].deep_view());
    assert(start[r as int][s as int] == paths@[r as int]@[s as int].deep_view());
    let path: SurfaceAlignment = match &paths[r][s] {
        None => {
            return;
        },
        Some(path) => path.clone(),
    };
    if r == reading.len() || s == surface.len() {
        return;
    }
    proof {
        lemma_dictionary_fits(user);
        lemma_dictionary_fits(system);
        assert(explains(task, r as int, s as int, path.deep_view()));
    }
    match user {
        None => {},
        Some(d) => {
            extend_dictionary_alignments(
                paths,
                &path,
                d,
                reading,
                surface,
                r,
                s,
                reading.len() - r,
                true,
                Ghost(task),
            );
        },
    }
    match system {
        None => {},
        Some(d) => {
            extend_dictionary_alignments(
                paths,
                &path,
                d,
                reading,
                surface,
                r,
                s,
                limit,
                false,
                Ghost(task),
            );
        },
    }
    // Kana, punctuation and other unchanged characters bridge the gaps
    // between dictionary words.
    if reading[r] == surface[s] {
        let mut next = path;
        next.push_literal(reading[r]);
        proof {
            lemma_literal_explains(task, path.deep_view(), r as int, s as int);
            lemma_relaxed_sound(task, paths.deep_view(), r + 1, s + 1, next.deep_view());
            assert(paths.deep_view()[r + 1] == paths@[r + 1].deep_view());
        }
        keep_better_alignment(paths, r + 1, s + 1, next);
    }
}

/// The best explanation of the surface by the reading.
fn find_best_alignment(
    user: &Option<Dictionary>,
    system: &Option<Dictionary>,
    limit: usize,
    reading: &Vec<char>,
    surface: &Vec<char>,
    Ghost(task): Ghost<Task>,
) -> (best: Option<SurfaceAlignment>)
    requires
        small(task),
        task.reading == reading@,
        task.surface == surface@,
        task.user == user.deep_view(),
        task.system == system.deep_view(),
        task.limit == limit,
    ensures
        best.deep_view() == best_alignment(task),
        best matches Some(a) ==> explains(
            task,
            task.reading.len() as int,
            task.surface.len() as int,
            a.deep_view(),
        ),
{
    let n: usize = reading.len();
    let m: usize = surface.len();
    let mut paths = empty_table(n, m, Ghost(task));
    let mut r: usize = 0;
    while r <= n
        invariant
            r <= n + 1,
            n == reading@.len(),
            m == surface@.len(),
            small(task),
            task.reading == reading@,
            task.surface == surface@,
            task.user == user.deep_view(),
            task.system == system.deep_view(),
            task.limit == limit,
            sound(task, paths.deep_view()),
            paths.deep_view() == after_rows(task, r as int),
        decreases n + 1 - r,
    {
        let mut s: usize = 0;
        while s <= m
            invariant
                r <= n,
                s <= m + 1,
                n == reading@.len(),
                m == surface@.len(),
                small(task),
                task.reading == reading@,
                task.surface == surface@,
                task.user == user.deep_view(),
                task.system == system.deep_view(),
                task.limit == limit,
                sound(task, paths.deep_view()),
                paths.deep_view() == after_row(
                    after_rows(task, r as int),
                    task,
                    r as int,
                    s as int,
                ),
            decreases m + 1 - s,
        {
            extend_cell(
                &mut paths,
                user,
                system,
                limit,
                reading,
                surface,
                r,
                s,
                Ghost(task),
            );
            s = s + 1;
        }
        r = r + 1;
    }
    assert(paths.deep_view()[n as int] == paths@[n as int].deep_view());
    assert(paths.deep_view()[n as int][m as int] == paths@[n as int]@[m as int].deep_view());
    match &paths[n][m] {
        None => None,
        Some(a) => Some(a.clone()),
    }
}

/// Spans with the unchanged text cut into clauses.
pub open spec fn refined(system: Option<Seq<EntryView>>, limit: int, spans: Seq<SpanView>) -> Seq<
    SpanView,
>
    decreases spans.len(),
{
    if spans.len() == 0 {
        Seq::empty()
    } else {
        refined(system, limit, spans.drop_last()) + if spans.last().fixed is Some {
            seq![spans.last()]
        } else {
            segmentation::free_clauses(system, limit, spans.last().reading, Seq::empty())
        }
    }
}

/// The task of aligning `surface` to `reading`.
pub open spec fn alignment_task(
    user: Option<Seq<EntryView>>,
    system: Option<Seq<EntryView>>,
    chunk_len: int,
    reading: Seq<char>,
    surface: Seq<char>,
) -> Task {
    Task { reading, surface, user, system, limit: segmentation::clause_limit(chunk_len) }
}

/// The clauses of a reading that the displayed surface shows: those of the
/// best explanation, the unchanged text cut further. None where there is no
/// text, no explanation, or too much text to look for one.
pub open spec fn aligned_clauses(task: Task) -> Option<Seq<SpanView>> {
    if task.reading.len() == 0 || task.surface.len() == 0 || (task.reading.len() + 1) * (
    task.surface.len() + 1) > MAX_SURFACE_ALIGNMENT_CELLS {
        None
    } else {
        match best_alignment(task) {
            None => None,
            Some(a) => Some(refined(task.system, task.limit, a.spans)),
        }
    }
}

/// Aligns a converted surface back to dictionary readings, so that a merely
/// longer prefix is not taken for a word and no particle is attached to the
/// word before it.
pub fn split_navigation_spans_aligned_to_surface(
    user: &Option<Dictionary>,
    system: &Option<Dictionary>,
    chunk_len: usize,
    reading: &str,
    surface: &str,
) -> (r: Option<Vec<ReadingSpan>>)
    ensures
        r.deep_view() == aligned_clauses(
            alignment_task(
                user.deep_view(),
                system.deep_view(),
                chunk_len as int,
                reading@,
                surface@,
            ),
        ),
        alignment_laws::well_aligned(
            user.deep_view(),
            system.deep_view(),
            chunk_len as int,
            reading@,
            surface@,
            r.deep_view(),
        ),
{
    proof {
        lemma_dictionary_fits(user);
        lemma_dictionary_fits(system);
        alignment_laws::law_aligning_gives_a_best_explanation(
            user.deep_view(),
            system.deep_view(),
            chunk_len as int,
            reading@,
            surface@,
        );
    }
    let reading_chars = chars_of(reading);
    let surface_chars = chars_of(surface);
    let limit: usize = if chunk_len < 1 {
        1
    } else if chunk_len > MAX_EXPLICIT_SEGMENT_CHARS {
        MAX_EXPLICIT_SEGMENT_CHARS
    } else {
        chunk_len
    };
    let ghost task = alignment_task(
        user.deep_view(),
        system.deep_view(),
        chunk_len as int,
        reading@,
        surface@,
    );
    let n: usize = reading_chars.len();
    let m: usize = surface_chars.len();
    if n == 0 || m == 0 {
        return None;
    }
    if n >= MAX_SURFACE_ALIGNMENT_CELLS || m >= MAX_SURFACE_ALIGNMENT_CELLS {
        assert((n + 1) * (m + 1) > MAX_SURFACE_ALIGNMENT_CELLS) by (nonlinear_arith)
            requires
                n >= 1,
                m >= 1,
                n >= MAX_SURFACE_ALIGNMENT_CELLS || m >= MAX_SURFACE_ALIGNMENT_CELLS,
        ;
        return None;
    }
    assert((n + 1) * (m + 1) <= 16385 * 16385) by (nonlinear_arith)
        requires
            n < 16384,
            m < 16384,
    ;
    if (n + 1) * (m + 1) > MAX_SURFACE_ALIGNMENT_CELLS {
        return None;
    }
    let best = find_best_alignment(
        user,
        system,
        limit,
        &reading_chars,
        &surface_chars,
        Ghost(task),
    );
    match best {
        None => None,
        Some(alignment) => {
            let ghost all = alignment.spans.deep_view();
            let mut spans: Vec<ReadingSpan> = Vec::new();
            let mut i: usize = 0;
            while i < alignment.spans.len()
                invariant
                    i <= alignment.spans@.len(),
                    all == alignment.spans.deep_view(),
                    task.system == system.deep_view(),
                    task.limit == segmentation::clause_limit(chunk_len as int),
                    spans.deep_view() == refined(task.system, task.limit, all.take(i as int)),
                decreases alignment.spans@.len() - i,
            {
                let span = &alignment.spans[i];
                assert(all[i as int] == span.deep_view());
                assert(all.take(i + 1).drop_last() =~= all.take(i as int));
                if span.fixed_surface.is_some() {
                    let ghost before = spans.deep_view();
                    add_item(&mut spans, span.clone());
                    assert(spans.deep_view() =~= before + seq![span.deep_view()]);
                } else {
                    let clauses = split_free_reading_segments(
                        system,
                        chunk_len,
                        span.reading.as_str(),
                    );
                    add_items(&mut spans, clauses);
                }
                i = i + 1;
            }
            assert(all.take(i as int) =~= all);
            Some(spans)
        },
    }
}

/// `a` is at least as good as `b` in everything but the number of clauses.
pub open spec fn no_worse(a: AlignmentView, b: AlignmentView) -> bool {
    a.user > b.user || (a.user == b.user && (a.unmatched < b.unmatched || (a.unmatched
        == b.unmatched && a.score <= b.score)))
}

/// Cell `(r, s)` holds an explanation at least as good as `a`.
pub open spec fn covers(t: Table, r: int, s: int, a: AlignmentView) -> bool {
    t[r][s] matches Some(b) && no_worse(b, a)
}

/// Every cell of `u` is at least as good as the same cell of `t`.
pub open spec fn improves(task: Task, t: Table, u: Table) -> bool {
    forall|r: int, s: int|
        #![trigger u[r][s]]
        #![trigger t[r][s]]
        0 <= r <= task.reading.len() && 0 <= s <= task.surface.len() ==> (t[r][s] matches Some(a)
            ==> covers(u, r, s, a))
}

/// One step of an explanation: an unchanged character, or a word.
pub enum Step {
    Literal,
    Word { len: int, surface: Seq<char>, score: int, is_user: bool },
}

/// The step can be taken at `(r, s)`.
pub open spec fn step_fits(task: Task, r: int, s: int, step: Step) -> bool {
    &&& 0 <= r < task.reading.len()
    &&& 0 <= s < task.surface.len()
    &&& match step {
        Step::Literal => task.reading[r] == task.surface[s],
        Step::Word { len, surface, score, is_user } => {
            &&& 1 <= len <= task.reading.len() - r
            &&& is_user || len <= task.limit
            &&& surface.len() > 0
            &&& spans::occurs_at(task.surface, surface, s)
            &&& (if is_user {
                task.user
            } else {
                task.system
            }) matches Some(d)
            &&& dictionary::surfaces_of(d, task.reading.subrange(r, r + len)) matches Some(c)
            &&& c.contains(SurfaceView { surface, score })
        },
    }
}

/// Where a step from `(r, s)` leads, and the explanation continued by it.
pub open spec fn step_taken(task: Task, r: int, s: int, a: AlignmentView, step: Step) -> (
    int,
    int,
    AlignmentView,
) {
    match step {
        Step::Literal => (r + 1, s + 1, with_literal(a, task.reading[r])),
        Step::Word { len, surface, score, is_user } => (
            r + len,
            s + surface.len(),
            with_word(a, task.reading.subrange(r, r + len), surface, score, is_user),
        ),
    }
}

/// Where the steps lead from the start, and the explanation they make; none
/// where a step does not fit.
pub open spec fn walk(task: Task, steps: Seq<Step>) -> Option<(int, int, AlignmentView)>
    decreases steps.len(),
{
    if steps.len() == 0 {
        Some((0, 0, no_alignment()))
    } else {
        match walk(task, steps.drop_last()) {
            Some((r, s, a)) if step_fits(task, r, s, steps.last()) => Some(
                step_taken(task, r, s, a, steps.last()),
            ),
            _ => None,
        }
    }
}

proof fn lemma_improves_trans(task: Task, t: Table, u: Table, v: Table)
    requires
        improves(task, t, u),
        improves(task, u, v),
    ensures
        improves(task, t, v),
{
    assert forall|r: int, s: int|
        #![trigger v[r][s]]
        #![trigger t[r][s]]
        0 <= r <= task.reading.len() && 0 <= s <= task.surface.len() implies (
    t[r][s] matches Some(a) ==> covers(v, r, s, a)) by {
        if let Some(a) = t[r][s] {
            assert(covers(u, r, s, a));
        }
    }
}

proof fn lemma_improves_covers(task: Task, t: Table, u: Table, r: int, s: int, a: AlignmentView)
    requires
        improves(task, t, u),
        0 <= r <= task.reading.len(),
        0 <= s <= task.surface.len(),
        covers(t, r, s, a),
    ensures
        covers(u, r, s, a),
{
    assert(t[r][s] matches Some(b) ==> covers(u, r, s, b));
}

proof fn lemma_relaxed_improves(task: Task, t: Table, r: int, s: int, a: AlignmentView)
    requires
        sound(task, t),
        0 <= r <= task.reading.len(),
        0 <= s <= task.surface.len(),
    ensures
        improves(task, t, relaxed(t, r, s, a)),
        covers(relaxed(t, r, s, a), r, s, a),
{
    let u = relaxed(t, r, s, a);
    assert forall|i: int, j: int|
        #![trigger u[i][j]]
        #![trigger t[i][j]]
        0 <= i <= task.reading.len() && 0 <= j <= task.surface.len() implies (
    t[i][j] matches Some(b) ==> covers(u, i, j, b)) by {
        if i == r && j == s {
        } else {
            assert(u[i][j] == t[i][j]);
        }
    }
}

/// Continuing by the surfaces of a word keeps the table sound, makes no cell
/// worse and covers each surface that stands there.
proof fn lemma_after_surfaces(
    t: Table,
    task: Task,
    path: AlignmentView,
    r: int,
    s: int,
    word: EntryView,
    is_user: bool,
    k: int,
)
    requires
        sound(task, t),
        0 <= r < task.reading.len(),
        0 <= s < task.surface.len(),
        explains(task, r, s, path),
        scores_fit(task.user),
        scores_fit(task.system),
        0 <= k <= word.candidates.len(),
        1 <= word.reading.len() <= task.reading.len() - r,
        word.reading == task.reading.skip(r).take(word.reading.len() as int),
        (if is_user {
            task.user
        } else {
            task.system
        }) matches Some(d) && dictionary::surfaces_of(d, word.reading) == Some(word.candidates),
    ensures
        sound(task, after_surfaces(t, task, path, r, s, word, is_user, k)),
        improves(task, t, after_surfaces(t, task, path, r, s, word, is_user, k)),
        forall|j: int|
            0 <= j < k && (#[trigger] word.candidates[j]).surface.len() > 0 && spans::occurs_at(
                task.surface,
                word.candidates[j].surface,
                s,
            ) ==> covers(
                after_surfaces(t, task, path, r, s, word, is_user, k),
                r + word.reading.len(),
                s + word.candidates[j].surface.len(),
                with_word(
                    path,
                    word.reading,
                    word.candidates[j].surface,
                    word.candidates[j].score,
                    is_user,
                ),
            ),
    decreases k,
{
    if k > 0 {
        lemma_after_surfaces(t, task, path, r, s, word, is_user, k - 1);
        let before = after_surfaces(t, task, path, r, s, word, is_user, k - 1);
        let after = after_surfaces(t, task, path, r, s, word, is_user, k);
        let c = word.candidates[k - 1];
        let d = (if is_user {
            task.user
        } else {
            task.system
        })->0;
        if c.surface.len() > 0 && spans::occurs_at(task.surface, c.surface, s) {
            let a = with_word(path, word.reading, c.surface, c.score, is_user);
            lemma_word_explains(task, path, r, s, d, word.reading, k - 1, is_user);
            lemma_relaxed_sound(task, before, r + word.reading.len(), s + c.surface.len(), a);
            lemma_relaxed_improves(task, before, r + word.reading.len(), s + c.surface.len(), a);
            lemma_improves_trans(task, t, before, after);
        }
        assert forall|j: int|
            0 <= j < k && (#[trigger] word.candidates[j]).surface.len() > 0 && spans::occurs_at(
                task.surface,
                word.candidates[j].surface,
                s,
            ) implies covers(
            after,
            r + word.reading.len(),
            s + word.candidates[j].surface.len(),
            with_word(
                path,
                word.reading,
                word.candidates[j].surface,
                word.candidates[j].score,
                is_user,
            ),
        ) by {
            if j < k - 1 && after != before {
                lemma_improves_covers(
                    task,
                    before,
                    after,
                    r + word.reading.len(),
                    s + word.candidates[j].surface.len(),
                    with_word(
                        path,
                        word.reading,
                        word.candidates[j].surface,
                        word.candidates[j].score,
                        is_user,
                    ),
                );
            }
        }
    }
}

/// A word that the table has been continued by is covered.
pub open spec fn word_covered(
    u: Table,
    task: Task,
    path: AlignmentView,
    r: int,
    s: int,
    word: EntryView,
    is_user: bool,
    j: int,
) -> bool {
    word.candidates[j].surface.len() > 0 && spans::occurs_at(
        task.surface,
        word.candidates[j].surface,
        s,
    ) ==> covers(
        u,
        r + word.reading.len(),
        s + word.candidates[j].surface.len(),
        with_word(
            path,
            word.reading,
            word.candidates[j].surface,
            word.candidates[j].score,
            is_user,
        ),
    )
}

proof fn lemma_after_words(
    t: Table,
    task: Task,
    path: AlignmentView,
    r: int,
    s: int,
    d: Seq<EntryView>,
    limit: int,
    is_user: bool,
    k: int,
)
    requires
        sound(task, t),
        0 <= r < task.reading.len(),
        0 <= s < task.surface.len(),
        explains(task, r, s, path),
        scores_fit(task.user),
        scores_fit(task.system),
        0 <= k <= dictionary::prefix_words(d, task.reading.skip(r)).len(),
        (if is_user {
            task.user
        } else {
            task.system
        }) == Some(d),
    ensures
        ({
            let words = dictionary::prefix_words(d, task.reading.skip(r));
            let u = after_words(t, task, path, r, s, words, limit, is_user, k);
            &&& sound(task, u)
            &&& improves(task, t, u)
            &&& forall|i: int, j: int|
                0 <= i < k && 0 <= j < words[i].candidates.len() && words[i].reading.len() <= limit
                    ==> #[trigger] word_covered(u, task, path, r, s, words[i], is_user, j)
        }),
    decreases k,
{
    let words = dictionary::prefix_words(d, task.reading.skip(r));
    let u = after_words(t, task, path, r, s, words, limit, is_user, k);
    if k > 0 {
        lemma_after_words(t, task, path, r, s, d, limit, is_user, k - 1);
        let before = after_words(t, task, path, r, s, words, limit, is_user, k - 1);
        let word = words[k - 1];
        lemma_word_is_prefix(d, task.reading.skip(r), task.reading.len() - r, k - 1);
        if 0 < word.reading.len() <= limit {
            let count = word.candidates.len() as int;
            lemma_after_surfaces(before, task, path, r, s, word, is_user, count);
            lemma_improves_trans(task, t, before, u);
        }
        assert forall|i: int, j: int|
            0 <= i < k && 0 <= j < words[i].candidates.len() && words[i].reading.len()
                <= limit implies #[trigger] word_covered(
            u,
            task,
            path,
            r,
            s,
            words[i],
            is_user,
            j,
        ) by {
            if i < k - 1 {
                assert(word_covered(before, task, path, r, s, words[i], is_user, j));
                let c = words[i].candidates[j];
                if c.surface.len() > 0 && spans::occurs_at(task.surface, c.surface, s) && u
                    != before {
                    lemma_word_is_prefix(d, task.reading.skip(r), task.reading.len() - r, i);
                    lemma_improves_covers(
                        task,
                        before,
                        u,
                        r + words[i].reading.len(),
                        s + c.surface.len(),
                        with_word(path, words[i].reading, c.surface, c.score, is_user),
                    );
                }
            }
        }
    }
}

/// A prefix of the input that is a word is among the words found.
proof fn lemma_word_found(d: Seq<EntryView>, input: Seq<char>, k: int, len: int) -> (i: int)
    requires
        1 <= len <= k <= input.len(),
        dictionary::surfaces_of(d, input.take(len)) is Some,
    ensures
        0 <= i < dictionary::words_up_to(d, input, k).len(),
        dictionary::words_up_to(d, input, k)[i].reading == input.take(len),
        Some(dictionary::words_up_to(d, input, k)[i].candidates) == dictionary::surfaces_of(
            d,
            input.take(len),
        ),
    decreases k,
{
    if len == k {
        dictionary::words_up_to(d, input, k).len() - 1
    } else {
        lemma_word_found(d, input, k - 1, len)
    }
}

proof fn lemma_after_dictionary(
    t: Table,
    task: Task,
    path: AlignmentView,
    r: int,
    s: int,
    is_user: bool,
)
    requires
        sound(task, t),
        0 <= r < task.reading.len(),
        0 <= s < task.surface.len(),
        explains(task, r, s, path),
        scores_fit(task.user),
        scores_fit(task.system),
    ensures
        ({
            let (dict, limit) = if is_user {
                (task.user, task.reading.len() - r)
            } else {
                (task.system, task.limit)
            };
            let u = after_dictionary(t, task, path, r, s, dict, limit, is_user);
            &&& sound(task, u)
            &&& improves(task, t, u)
            &&& forall|step: Step| #[trigger]
                step_fits(task, r, s, step) && step is Word && step->is_user == is_user ==> {
                    let (r1, s1, a) = step_taken(task, r, s, path, step);
                    covers(u, r1, s1, a)
                }
        }),
{
    let (dict, limit) = if is_user {
        (task.user, task.reading.len() - r)
    } else {
        (task.system, task.limit)
    };
    let u = after_dictionary(t, task, path, r, s, dict, limit, is_user);
    if let Some(d) = dict {
        let input = task.reading.skip(r);
        let words = dictionary::prefix_words(d, input);
        lemma_after_words(t, task, path, r, s, d, limit, is_user, words.len() as int);
        assert forall|step: Step| #[trigger]
            step_fits(task, r, s, step) && step is Word && step->is_user == is_user implies ({
            let (r1, s1, a) = step_taken(task, r, s, path, step);
            covers(u, r1, s1, a)
        }) by {
            match step {
                Step::Literal => {},
                Step::Word { len, surface, score, is_user: user_word } => {
                    assert(task.reading.subrange(r, r + len) =~= input.take(len));
                    let i = lemma_word_found(d, input, input.len() as int, len);
                    let c = dictionary::surfaces_of(d, input.take(len))->0;
                    let j = choose|j: int|
                        0 <= j < c.len() && c[j] == (SurfaceView { surface, score });
                    assert(word_covered(u, task, path, r, s, words[i], is_user, j));
                },
            }
        }
    }
}

/// Continuing the explanation of a cell keeps the table sound, makes no cell
/// worse and covers every step from that cell.
proof fn lemma_after_cell(t: Table, task: Task, r: int, s: int)
    requires
        sound(task, t),
        0 <= r <= task.reading.len(),
        0 <= s <= task.surface.len(),
        scores_fit(task.user),
        scores_fit(task.system),
    ensures
        sound(task, after_cell(t, task, r, s)),
        improves(task, t, after_cell(t, task, r, s)),
        t[r][s] matches Some(path) ==> forall|step: Step| #[trigger]
            step_fits(task, r, s, step) ==> {
                let (r1, s1, a) = step_taken(task, r, s, path, step);
                covers(after_cell(t, task, r, s), r1, s1, a)
            },
{
    let u = after_cell(t, task, r, s);
    if let Some(path) = t[r][s] {
        assert(explains(task, r, s, path));
        if r < task.reading.len() && s < task.surface.len() {
            let t1 = after_dictionary(
                t,
                task,
                path,
                r,
                s,
                task.user,
                task.reading.len() - r,
                true,
            );
            let t2 = after_dictionary(t1, task, path, r, s, task.system, task.limit, false);
            lemma_after_dictionary(t, task, path, r, s, true);
            lemma_after_dictionary(t1, task, path, r, s, false);
            lemma_improves_trans(task, t, t1, t2);
            if task.reading[r] == task.surface[s] {
                let a = with_literal(path, task.reading[r]);
                lemma_literal_explains(task, path, r, s);
                lemma_relaxed_sound(task, t2, r + 1, s + 1, a);
                lemma_relaxed_improves(task, t2, r + 1, s + 1, a);
            }
            assert(improves(task, t2, u));
            lemma_improves_trans(task, t1, t2, u);
            lemma_improves_trans(task, t, t2, u);
            assert forall|step: Step| #[trigger] step_fits(task, r, s, step) implies ({
                let (r1, s1, a) = step_taken(task, r, s, path, step);
                covers(u, r1, s1, a)
            }) by {
                let (r1, s1, a) = step_taken(task, r, s, path, step);
                match step {
                    Step::Literal => {},
                    Step::Word { len, surface, score, is_user } => {
                        if is_user {
                            assert(covers(t1, r1, s1, a));
                            lemma_improves_covers(task, t1, u, r1, s1, a);
                        } else {
                            assert(covers(t2, r1, s1, a));
                            lemma_improves_covers(task, t2, u, r1, s1, a);
                        }
                    },
                }
            }
        }
    }
}

proof fn lemma_after_row(t: Table, task: Task, r: int, j: int, k: int)
    requires
        sound(task, t),
        0 <= r <= task.reading.len(),
        0 <= j <= k <= task.surface.len() + 1,
        scores_fit(task.user),
        scores_fit(task.system),
    ensures
        sound(task, after_row(t, task, r, k)),
        sound(task, after_row(t, task, r, j)),
        improves(task, after_row(t, task, r, j), after_row(t, task, r, k)),
    decreases k,
{
    if k == 0 {
    } else if j == k {
        lemma_after_row(t, task, r, k - 1, k - 1);
        lemma_after_cell(after_row(t, task, r, k - 1), task, r, k - 1);
    } else {
        lemma_after_row(t, task, r, j, k - 1);
        lemma_after_cell(after_row(t, task, r, k - 1), task, r, k - 1);
        lemma_improves_trans(
            task,
            after_row(t, task, r, j),
            after_row(t, task, r, k - 1),
            after_row(t, task, r, k),
        );
    }
}

proof fn lemma_after_rows(task: Task, j: int, k: int)
    requires
        0 <= j <= k <= task.reading.len() + 1,
        scores_fit(task.user),
        scores_fit(task.system),
    ensures
        sound(task, after_rows(task, j)),
        sound(task, after_rows(task, k)),
        improves(task, after_rows(task, j), after_rows(task, k)),
    decreases k,
{
    if k == 0 {
        assert(task.reading.take(0) =~= Seq::empty());
        assert(task.surface.take(0) =~= Seq::empty());
        assert(explains(task, 0, 0, no_alignment()));
    } else if j == k {
        lemma_after_rows(task, k - 1, k - 1);
        lemma_after_row(
            after_rows(task, k - 1),
            task,
            k - 1,
            0,
            task.surface.len() as int + 1,
        );
    } else {
        lemma_after_rows(task, j, k - 1);
        lemma_after_row(
            after_rows(task, k - 1),
            task,
            k - 1,
            0,
            task.surface.len() as int + 1,
        );
        lemma_improves_trans(
            task,
            after_rows(task, j),
            after_rows(task, k - 1),
            after_rows(task, k),
        );
    }
}

/// When its turn comes, a cell is at least as good as any walk that leads to
/// it.
proof fn lemma_walk_is_covered(task: Task, steps: Seq<Step>)
    requires
        scores_fit(task.user),
        scores_fit(task.system),
        walk(task, steps) is Some,
    ensures
        ({
            let (r, s, a) = walk(task, steps)->0;
            &&& 0 <= r <= task.reading.len()
            &&& 0 <= s <= task.surface.len()
            &&& covers(after_row(after_rows(task, r), task, r, s), r, s, a)
        }),
    decreases steps.len(),
{
    let (r, s, a) = walk(task, steps)->0;
    let m = task.surface.len() as int + 1;
    if steps.len() > 0 {
        lemma_walk_is_covered(task, steps.drop_last());
        let (r0, s0, a0) = walk(task, steps.drop_last())->0;
        let step = steps.last();
        lemma_after_rows(task, r0, r0);
        let rows = after_rows(task, r0);
        lemma_after_row(rows, task, r0, 0, s0);
        let t = after_row(rows, task, r0, s0);
        let u = after_row(rows, task, r0, s0 + 1);
        lemma_after_cell(t, task, r0, s0);
        let b0 = t[r0][s0]->0;
        let (r1, s1, b) = step_taken(task, r0, s0, b0, step);
        assert(covers(u, r, s, b));
        assert(no_worse(b, a));
        assert(covers(u, r, s, a));
        lemma_after_row(rows, task, r0, s0 + 1, m);
        lemma_improves_covers(task, u, after_rows(task, r0 + 1), r, s, a);
        lemma_after_rows(task, r0 + 1, r);
        lemma_improves_covers(task, after_rows(task, r0 + 1), after_rows(task, r), r, s, a);
        lemma_after_row(after_rows(task, r), task, r, 0, s);
        lemma_improves_covers(
            task,
            after_rows(task, r),
            after_row(after_rows(task, r), task, r, s),
            r,
            s,
            a,
        );
    }
}

/// The best alignment is an explanation, and no other explanation has more
/// characters in registered words, or as many and fewer unchanged characters,
/// or as many of both and a lower dictionary cost. Where there is an
/// explanation at all, there is a best one.
pub proof fn law_best_alignment_is_best(task: Task, steps: Seq<Step>)
    requires
        scores_fit(task.user),
        scores_fit(task.system),
        walk(task, steps) matches Some((r, s, a)) && r == task.reading.len() && s
            == task.surface.len(),
    ensures
        best_alignment(task) matches Some(best) && no_worse(best, (walk(task, steps)->0).2),
{
    let n = task.reading.len() as int;
    let m = task.surface.len() as int;
    let a = (walk(task, steps)->0).2;
    lemma_walk_is_covered(task, steps);
    lemma_after_rows(task, n, n);
    lemma_after_row(after_rows(task, n), task, n, m, m + 1);
    lemma_improves_covers(
        task,
        after_row(after_rows(task, n), task, n, m),
        after_rows(task, n + 1),
        n,
        m,
        a,
    );
}

/// The best alignment explains the whole surface by the whole reading: its
/// readings, one after the other, are the reading, its surfaces the surface,
/// and each pinned surface is a dictionary surface of its reading.
pub proof fn law_best_alignment_explains(task: Task)
    requires
        scores_fit(task.user),
        scores_fit(task.system),
    ensures
        best_alignment(task) matches Some(best) ==> explains(
            task,
            task.reading.len() as int,
            task.surface.len() as int,
            best,
        ) && spans::spans_reading(best.spans) == task.reading && segmentation::replaced_text(
            best.spans,
        ) == task.surface,
{
    let n = task.reading.len() as int;
    let m = task.surface.len() as int;
    lemma_after_rows(task, n + 1, n + 1);
    assert(task.reading.take(n) =~= task.reading);
    assert(task.surface.take(m) =~= task.surface);
    let t = after_rows(task, n + 1);
    assert(t[n][m] matches Some(best) ==> explains(task, n, m, best));
}

proof fn lemma_refined_reading(system: Option<Seq<EntryView>>, limit: int, spans: Seq<SpanView>)
    ensures
        spans::spans_reading(refined(system, limit, spans)) == spans::spans_reading(spans),
    decreases spans.len(),
{
    if spans.len() > 0 {
        lemma_refined_reading(system, limit, spans.drop_last());
        let last = spans.last();
        let tail = if last.fixed is Some {
            seq![last]
        } else {
            segmentation::free_clauses(system, limit, last.reading, Seq::empty())
        };
        spans::lemma_reading_of_concat(refined(system, limit, spans.drop_last()), tail);
        spans::lemma_reading_of_one(last);
        segmentation::law_free_clauses_keep_the_reading(
            system,
            limit,
            last.reading,
            Seq::empty(),
        );
        assert(Seq::<char>::empty() + last.reading =~= last.reading);
    }
}

proof fn lemma_refined_text(system: Option<Seq<EntryView>>, limit: int, spans: Seq<SpanView>)
    ensures
        segmentation::replaced_text(refined(system, limit, spans)) == segmentation::replaced_text(
            spans,
        ),
    decreases spans.len(),
{
    if spans.len() > 0 {
        lemma_refined_text(system, limit, spans.drop_last());
        let last = spans.last();
        let head = refined(system, limit, spans.drop_last());
        if last.fixed is Some {
            assert((head + seq![last]).drop_last() =~= head);
        } else {
            let tail = segmentation::free_clauses(system, limit, last.reading, Seq::empty());
            segmentation::lemma_text_of_concat(head, tail);
            segmentation::lemma_free_clauses_are_free(system, limit, last.reading, Seq::empty());
            segmentation::lemma_text_of_free(tail);
            segmentation::law_free_clauses_keep_the_reading(
                system,
                limit,
                last.reading,
                Seq::empty(),
            );
            assert(Seq::<char>::empty() + last.reading =~= last.reading);
        }
    }
}

proof fn lemma_refined_spans(system: Option<Seq<EntryView>>, limit: int, spans: Seq<SpanView>)
    requires
        forall|i: int|
            0 <= i < spans.len() ==> ((#[trigger] spans[i]).fixed matches Some(word) ==> word.len()
                > 0),
    ensures
        forall|i: int|
            0 <= i < refined(system, limit, spans).len() ==> match (#[trigger] refined(
                system,
                limit,
                spans,
            )[i]).fixed {
                Some(word) => word.len() > 0,
                None => refined(system, limit, spans)[i].reading.len() > 0,
            },
    decreases spans.len(),
{
    if spans.len() > 0 {
        let last = spans.last();
        assert(last == spans[spans.len() - 1]);
        assert forall|i: int| 0 <= i < spans.drop_last().len() implies ((
        #[trigger] spans.drop_last()[i]).fixed matches Some(word) ==> word.len() > 0) by {
            assert(spans.drop_last()[i] == spans[i]);
        }
        lemma_refined_spans(system, limit, spans.drop_last());
        segmentation::lemma_free_clauses_are_free(system, limit, last.reading, Seq::empty());
        let head = refined(system, limit, spans.drop_last());
        let tail = if last.fixed is Some {
            seq![last]
        } else {
            segmentation::free_clauses(system, limit, last.reading, Seq::empty())
        };
        let all = refined(system, limit, spans);
        assert forall|i: int| 0 <= i < all.len() implies match (#[trigger] all[i]).fixed {
            Some(word) => word.len() > 0,
            None => all[i].reading.len() > 0,
        } by {
            if i < head.len() {
                assert(all[i] == head[i]);
            } else {
                assert(all[i] == tail[i - head.len()]);
            }
        }
    }
}

/// Aligned clauses show the surface that they were aligned to: the pinned
/// words and the unchanged text, one after the other, are the surface.
pub proof fn law_aligned_clauses_show_the_surface(task: Task)
    requires
        scores_fit(task.user),
        scores_fit(task.system),
    ensures
        aligned_clauses(task) matches Some(clauses) ==> segmentation::replaced_text(clauses)
            == task.surface,
{
    law_best_alignment_explains(task);
    if let Some(best) = best_alignment(task) {
        lemma_refined_text(task.system, task.limit, best.spans);
    }
}

/// No aligned clause is empty: a pinned one has a surface, any other a
/// reading.
pub proof fn law_aligned_clauses_are_not_empty(task: Task, i: int)
    requires
        scores_fit(task.user),
        scores_fit(task.system),
        aligned_clauses(task) matches Some(clauses) && 0 <= i < clauses.len(),
    ensures
        match aligned_clauses(task)->0[i].fixed {
            Some(word) => word.len() > 0,
            None => aligned_clauses(task)->0[i].reading.len() > 0,
        },
{
    law_best_alignment_explains(task);
    if let Some(best) = best_alignment(task) {
        assert forall|k: int| 0 <= k < best.spans.len() implies ((
        #[trigger] best.spans[k]).fixed matches Some(word) ==> word.len() > 0) by {
            assert(explained(task, best.spans[k]));
        }
        lemma_refined_spans(task.system, task.limit, best.spans);
    }
}

/// Aligning a surface keeps the reading: the readings of the clauses, one
/// after the other, are the reading.
pub proof fn law_aligned_clauses_keep_the_reading(task: Task)
    requires
        scores_fit(task.user),
        scores_fit(task.system),
    ensures
        aligned_clauses(task) matches Some(clauses) ==> spans::spans_reading(clauses)
            == task.reading,
{
    law_best_alignment_explains(task);
    if let Some(best) = best_alignment(task) {
        lemma_refined_reading(task.system, task.limit, best.spans);
    }
}

} // verus!
