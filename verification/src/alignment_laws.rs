//! What aligning a surface to its reading achieves, told by the words of the
//! dictionaries.

use vstd::prelude::*;
use crate::alignment::{AlignmentView, Step, Table, Task};
use crate::alignment;
use crate::clause_laws;
use crate::dictionary::{EntryView, SurfaceView};
use crate::dictionary;
use crate::segmentation;
use crate::source_laws;
use crate::spans::SpanView;
use crate::spans;

verus! {

/// Where a piece of an explanation comes from.
pub enum Origin {
    Registered,
    Listed,
    Unchanged,
}

/// A piece of an explanation: some reading that is shown as some surface.
pub struct Piece {
    pub reading: Seq<char>,
    pub surface: Seq<char>,
    pub cost: int,
    pub origin: Origin,
}

/// A piece is a word of the user dictionary, a word of the system dictionary
/// that is no longer than a clause may be, or one unchanged character.
pub open spec fn fits(
    user: Option<Seq<EntryView>>,
    system: Option<Seq<EntryView>>,
    chunk_len: int,
    p: Piece,
) -> bool {
    let word = SurfaceView { surface: p.surface, score: p.cost };
    &&& p.reading.len() > 0
    &&& p.surface.len() > 0
    &&& match p.origin {
        Origin::Registered => source_laws::has_word(user, p.reading, word),
        Origin::Listed => source_laws::has_word(system, p.reading, word) && (p.reading.len() == 1
            || (p.reading.len() <= chunk_len && p.reading.len() <= 8)),
        Origin::Unchanged => p.reading.len() == 1 && p.surface == p.reading && p.cost == 0,
    }
}

/// The readings of pieces, one behind the other.
pub open spec fn all_read(pieces: Seq<Piece>) -> Seq<char>
    decreases pieces.len(),
{
    if pieces.len() == 0 {
        Seq::empty()
    } else {
        all_read(pieces.drop_last()) + pieces.last().reading
    }
}

/// The surfaces of pieces, one behind the other.
pub open spec fn all_shown(pieces: Seq<Piece>) -> Seq<char>
    decreases pieces.len(),
{
    if pieces.len() == 0 {
        Seq::empty()
    } else {
        all_shown(pieces.drop_last()) + pieces.last().surface
    }
}

/// The number of reading characters in words of the user dictionary.
pub open spec fn registered_chars(pieces: Seq<Piece>) -> int
    decreases pieces.len(),
{
    if pieces.len() == 0 {
        0
    } else {
        registered_chars(pieces.drop_last()) + if pieces.last().origin is Registered {
            pieces.last().reading.len() as int
        } else {
            0
        }
    }
}

/// The number of unchanged characters.
pub open spec fn unchanged_chars(pieces: Seq<Piece>) -> int
    decreases pieces.len(),
{
    if pieces.len() == 0 {
        0
    } else {
        unchanged_chars(pieces.drop_last()) + if pieces.last().origin is Unchanged {
            1int
        } else {
            0
        }
    }
}

/// What the words cost together.
pub open spec fn whole_cost(pieces: Seq<Piece>) -> int
    decreases pieces.len(),
{
    if pieces.len() == 0 {
        0
    } else {
        whole_cost(pieces.drop_last()) + pieces.last().cost
    }
}

/// Pieces explain how a surface comes from a reading.
pub open spec fn explanation(
    user: Option<Seq<EntryView>>,
    system: Option<Seq<EntryView>>,
    chunk_len: int,
    reading: Seq<char>,
    surface: Seq<char>,
    pieces: Seq<Piece>,
) -> bool {
    &&& all_read(pieces) == reading
    &&& all_shown(pieces) == surface
    &&& forall|i: int|
        0 <= i < pieces.len() ==> fits(user, system, chunk_len, #[trigger] pieces[i])
}

/// An explanation is preferred to another, or as good: more characters in
/// words of the user dictionary, then fewer unchanged ones, then less cost.
pub open spec fn preferred(a: Seq<Piece>, b: Seq<Piece>) -> bool {
    ||| registered_chars(a) > registered_chars(b)
    ||| registered_chars(a) == registered_chars(b) && unchanged_chars(a) < unchanged_chars(b)
    ||| registered_chars(a) == registered_chars(b) && unchanged_chars(a) == unchanged_chars(b)
        && whole_cost(a) <= whole_cost(b)
}

/// The words of an explanation, each pinned to its surface, and the runs of
/// unchanged characters between them.
pub open spec fn runs(pieces: Seq<Piece>) -> Seq<SpanView>
    decreases pieces.len(),
{
    if pieces.len() == 0 {
        Seq::empty()
    } else {
        let before = runs(pieces.drop_last());
        let p = pieces.last();
        if !(p.origin is Unchanged) {
            before.push(SpanView { reading: p.reading, fixed: Some(p.surface) })
        } else if before.len() > 0 && before.last().fixed is None {
            before.drop_last().push(
                SpanView { reading: before.last().reading + p.reading, fixed: None },
            )
        } else {
            before.push(SpanView { reading: p.reading, fixed: None })
        }
    }
}

/// Clauses lay out runs: a pinned word is a clause, unchanged text is cut
/// freely.
pub open spec fn laid_out(
    system: Option<Seq<EntryView>>,
    limit: int,
    runs: Seq<SpanView>,
    clauses: Seq<SpanView>,
) -> bool
    decreases runs.len(),
{
    if runs.len() == 0 {
        clauses.len() == 0
    } else {
        exists|k: int|
            {
                &&& 0 <= k <= clauses.len()
                &&& laid_out(system, limit, runs.drop_last(), #[trigger] clauses.take(k))
                &&& if runs.last().fixed is Some {
                    clauses.skip(k) == seq![runs.last()]
                } else {
                    clause_laws::cut_freely(system, limit, runs.last().reading, clauses.skip(k))
                }
            }
    }
}

/// The number of reading characters in pinned clauses that are words of the
/// user dictionary with one of their surfaces.
pub open spec fn pinned_chars(user: Option<Seq<EntryView>>, clauses: Seq<SpanView>) -> int
    decreases clauses.len(),
{
    if clauses.len() == 0 {
        0
    } else {
        pinned_chars(user, clauses.drop_last()) + match clauses.last().fixed {
            Some(surface) if source_laws::lists(user, clauses.last().reading, surface) => {
                clauses.last().reading.len() as int
            },
            _ => 0,
        }
    }
}

/// Some steps lead to `(r, s)` with this explanation.
pub open spec fn reached(task: Task, r: int, s: int, a: AlignmentView) -> bool {
    exists|steps: Seq<Step>| #[trigger] alignment::walk(task, steps) == Some((r, s, a))
}

/// Every explanation in the table is reached by steps.
pub open spec fn all_reached(task: Task, t: Table) -> bool {
    &&& t.len() == task.reading.len() + 1
    &&& forall|r: int| 0 <= r < t.len() ==> (#[trigger] t[r]).len() == task.surface.len() + 1
    &&& forall|r: int, s: int|
        0 <= r <= task.reading.len() && 0 <= s <= task.surface.len() ==> (
        #[trigger] t[r][s] matches Some(a) ==> reached(task, r, s, a))
}

proof fn lemma_step_reached(task: Task, r: int, s: int, a: AlignmentView, step: Step)
    requires
        reached(task, r, s, a),
        alignment::step_fits(task, r, s, step),
    ensures
        ({
            let next = alignment::step_taken(task, r, s, a, step);
            reached(task, next.0, next.1, next.2)
        }),
{
    let steps = choose|steps: Seq<Step>|
        #[trigger] alignment::walk(task, steps) == Some((r, s, a));
    let more = steps.push(step);
    assert(more.drop_last() =~= steps);
    assert(alignment::walk(task, more) == Some(alignment::step_taken(task, r, s, a, step)));
}

proof fn lemma_relaxed_reached(task: Task, t: Table, r: int, s: int, a: AlignmentView)
    requires
        all_reached(task, t),
        0 <= r <= task.reading.len(),
        0 <= s <= task.surface.len(),
        reached(task, r, s, a),
    ensures
        all_reached(task, alignment::relaxed(t, r, s, a)),
{
    let u = alignment::relaxed(t, r, s, a);
    assert forall|i: int, j: int|
        0 <= i <= task.reading.len() && 0 <= j <= task.surface.len() implies (
    #[trigger] u[i][j] matches Some(b) ==> reached(task, i, j, b)) by {
        assert(t[i][j] matches Some(b) ==> reached(task, i, j, b));
        if i == r && j == s {
        } else {
            assert(u[i][j] == t[i][j]);
        }
    }
}

proof fn lemma_surfaces_reached(
    t: Table,
    task: Task,
    path: AlignmentView,
    r: int,
    s: int,
    word: EntryView,
    d: Seq<EntryView>,
    is_user: bool,
    k: int,
)
    requires
        all_reached(task, t),
        reached(task, r, s, path),
        0 <= r < task.reading.len(),
        0 <= s < task.surface.len(),
        is_user ==> task.user == Some(d),
        !is_user ==> task.system == Some(d),
        1 <= word.reading.len() <= task.reading.len() - r,
        is_user || word.reading.len() <= task.limit,
        word.reading == task.reading.skip(r).take(word.reading.len() as int),
        dictionary::surfaces_of(d, word.reading) == Some(word.candidates),
        k <= word.candidates.len(),
    ensures
        all_reached(task, alignment::after_surfaces(t, task, path, r, s, word, is_user, k)),
    decreases k,
{
    if k > 0 {
        lemma_surfaces_reached(t, task, path, r, s, word, d, is_user, k - 1);
        let c = word.candidates[k - 1];
        if c.surface.len() > 0 && spans::occurs_at(task.surface, c.surface, s) {
            let len = word.reading.len() as int;
            assert(task.reading.subrange(r, r + len) =~= word.reading);
            let step = Step::Word { len, surface: c.surface, score: c.score, is_user };
            assert(word.candidates.contains(SurfaceView { surface: c.surface, score: c.score }));
            lemma_step_reached(task, r, s, path, step);
            lemma_relaxed_reached(
                task,
                alignment::after_surfaces(t, task, path, r, s, word, is_user, k - 1),
                r + len,
                s + c.surface.len(),
                alignment::with_word(path, word.reading, c.surface, c.score, is_user),
            );
        }
    }
}

proof fn lemma_words_reached(
    t: Table,
    task: Task,
    path: AlignmentView,
    r: int,
    s: int,
    d: Seq<EntryView>,
    limit: int,
    is_user: bool,
    k: int,
)
    requires
        all_reached(task, t),
        reached(task, r, s, path),
        0 <= r < task.reading.len(),
        0 <= s < task.surface.len(),
        is_user ==> task.user == Some(d),
        !is_user ==> task.system == Some(d) && limit == task.limit,
        k <= dictionary::prefix_words(d, task.reading.skip(r)).len(),
    ensures
        all_reached(
            task,
            alignment::after_words(
                t,
                task,
                path,
                r,
                s,
                dictionary::prefix_words(d, task.reading.skip(r)),
                limit,
                is_user,
                k,
            ),
        ),
    decreases k,
{
    if k > 0 {
        lemma_words_reached(t, task, path, r, s, d, limit, is_user, k - 1);
        let input = task.reading.skip(r);
        let words = dictionary::prefix_words(d, input);
        let word = words[k - 1];
        alignment::lemma_word_is_prefix(d, input, input.len() as int, k - 1);
        if 0 < word.reading.len() <= limit {
            lemma_surfaces_reached(
                alignment::after_words(t, task, path, r, s, words, limit, is_user, k - 1),
                task,
                path,
                r,
                s,
                word,
                d,
                is_user,
                word.candidates.len() as int,
            );
        }
    }
}

proof fn lemma_cell_reached(t: Table, task: Task, r: int, s: int)
    requires
        all_reached(task, t),
        0 <= r <= task.reading.len(),
        0 <= s <= task.surface.len(),
    ensures
        all_reached(task, alignment::after_cell(t, task, r, s)),
{
    if let Some(path) = t[r][s] {
        if r < task.reading.len() && s < task.surface.len() {
            assert(reached(task, r, s, path));
            let left = task.reading.len() - r;
            let t1 = alignment::after_dictionary(t, task, path, r, s, task.user, left, true);
            if let Some(d) = task.user {
                let words = dictionary::prefix_words(d, task.reading.skip(r));
                lemma_words_reached(t, task, path, r, s, d, left, true, words.len() as int);
            }
            let t2 = alignment::after_dictionary(
                t1,
                task,
                path,
                r,
                s,
                task.system,
                task.limit,
                false,
            );
            if let Some(d) = task.system {
                let words = dictionary::prefix_words(d, task.reading.skip(r));
                lemma_words_reached(
                    t1,
                    task,
                    path,
                    r,
                    s,
                    d,
                    task.limit,
                    false,
                    words.len() as int,
                );
            }
            if task.reading[r] == task.surface[s] {
                lemma_step_reached(task, r, s, path, Step::Literal);
                lemma_relaxed_reached(
                    task,
                    t2,
                    r + 1,
                    s + 1,
                    alignment::with_literal(path, task.reading[r]),
                );
            }
        }
    }
}

proof fn lemma_row_reached(t: Table, task: Task, r: int, k: int)
    requires
        all_reached(task, t),
        0 <= r <= task.reading.len(),
        k <= task.surface.len() + 1,
    ensures
        all_reached(task, alignment::after_row(t, task, r, k)),
    decreases k,
{
    if k > 0 {
        lemma_row_reached(t, task, r, k - 1);
        lemma_cell_reached(alignment::after_row(t, task, r, k - 1), task, r, k - 1);
    }
}

proof fn lemma_rows_reached(task: Task, k: int)
    requires
        k <= task.reading.len() + 1,
    ensures
        all_reached(task, alignment::after_rows(task, k)),
    decreases k,
{
    if k <= 0 {
        assert(alignment::walk(task, Seq::empty()) == Some(
            (0int, 0int, alignment::no_alignment()),
        ));
        assert(reached(task, 0, 0, alignment::no_alignment()));
    } else {
        lemma_rows_reached(task, k - 1);
        lemma_row_reached(
            alignment::after_rows(task, k - 1),
            task,
            k - 1,
            task.surface.len() as int + 1,
        );
    }
}

proof fn lemma_best_reached(task: Task)
    ensures
        alignment::best_alignment(task) matches Some(best) ==> reached(
            task,
            task.reading.len() as int,
            task.surface.len() as int,
            best,
        ),
{
    let n = task.reading.len() as int;
    let m = task.surface.len() as int;
    lemma_rows_reached(task, n + 1);
    let t = alignment::after_rows(task, n + 1);
    assert(t[n][m] matches Some(best) ==> reached(task, n, m, best));
}

/// An alignment has the counts and the runs of an explanation.
spec fn made_by(a: AlignmentView, pieces: Seq<Piece>) -> bool {
    &&& a.user == registered_chars(pieces)
    &&& a.unmatched == unchanged_chars(pieces)
    &&& a.score == whole_cost(pieces)
    &&& a.spans == runs(pieces)
}

/// The step that a piece stands for.
spec fn step_of(p: Piece) -> Step {
    match p.origin {
        Origin::Unchanged => Step::Literal,
        Origin::Registered => Step::Word {
            len: p.reading.len() as int,
            surface: p.surface,
            score: p.cost,
            is_user: true,
        },
        Origin::Listed => Step::Word {
            len: p.reading.len() as int,
            surface: p.surface,
            score: p.cost,
            is_user: false,
        },
    }
}

proof fn lemma_one_more(a: AlignmentView, pieces: Seq<Piece>, p: Piece)
    requires
        made_by(a, pieces),
        p.reading.len() > 0,
        p.origin is Unchanged ==> p.reading.len() == 1 && p.cost == 0,
    ensures
        made_by(
            match p.origin {
                Origin::Unchanged => alignment::with_literal(a, p.reading[0]),
                Origin::Registered => alignment::with_word(
                    a,
                    p.reading,
                    p.surface,
                    p.cost,
                    true,
                ),
                Origin::Listed => alignment::with_word(a, p.reading, p.surface, p.cost, false),
            },
            pieces.push(p),
        ),
{
    let more = pieces.push(p);
    assert(more.drop_last() =~= pieces);
    assert(more.last() == p);
    if p.origin is Unchanged {
        assert(p.reading =~= seq![p.reading[0]]);
        let before = runs(pieces);
        if before.len() > 0 && before.last().fixed is None {
            assert(before.last().reading.push(p.reading[0]) =~= before.last().reading + p.reading);
        }
    }
}

/// An explanation is a walk.
proof fn lemma_explanation_walks(
    user: Option<Seq<EntryView>>,
    system: Option<Seq<EntryView>>,
    chunk_len: int,
    task: Task,
    pieces: Seq<Piece>,
) -> (steps: Seq<Step>)
    requires
        task.user == user,
        task.system == system,
        task.limit == segmentation::clause_limit(chunk_len),
        all_read(pieces).len() <= task.reading.len(),
        all_read(pieces) == task.reading.take(all_read(pieces).len() as int),
        all_shown(pieces).len() <= task.surface.len(),
        all_shown(pieces) == task.surface.take(all_shown(pieces).len() as int),
        forall|i: int|
            0 <= i < pieces.len() ==> fits(user, system, chunk_len, #[trigger] pieces[i]),
    ensures
        alignment::walk(task, steps) matches Some((r, s, a)) && r == all_read(pieces).len() && s
            == all_shown(pieces).len() && made_by(a, pieces),
    decreases pieces.len(),
{
    if pieces.len() == 0 {
        Seq::empty()
    } else {
        let front = pieces.drop_last();
        let p = pieces.last();
        assert(p == pieces[pieces.len() - 1]);
        assert(fits(user, system, chunk_len, p));
        let r = all_read(front).len() as int;
        let s = all_shown(front).len() as int;
        let len = p.reading.len() as int;
        assert(all_read(pieces) =~= all_read(front) + p.reading);
        assert(all_shown(pieces) =~= all_shown(front) + p.surface);
        assert(all_read(front) =~= task.reading.take(r)) by {
            assert(all_read(pieces).take(r) =~= all_read(front));
            assert(all_read(pieces).take(r) =~= task.reading.take(r));
        }
        assert(all_shown(front) =~= task.surface.take(s)) by {
            assert(all_shown(pieces).take(s) =~= all_shown(front));
            assert(all_shown(pieces).take(s) =~= task.surface.take(s));
        }
        assert(task.reading.subrange(r, r + len) =~= p.reading) by {
            assert(all_read(pieces).skip(r) =~= p.reading);
            assert(all_read(pieces).skip(r) =~= task.reading.subrange(r, r + len));
        }
        assert(task.surface.subrange(s, s + p.surface.len()) =~= p.surface) by {
            assert(all_shown(pieces).skip(s) =~= p.surface);
            assert(all_shown(pieces).skip(s) =~= task.surface.subrange(
                s,
                s + p.surface.len(),
            ));
        }
        assert forall|i: int| 0 <= i < front.len() implies fits(
            user,
            system,
            chunk_len,
            #[trigger] front[i],
        ) by {
            assert(front[i] == pieces[i]);
        }
        let steps = lemma_explanation_walks(user, system, chunk_len, task, front);
        let a = (alignment::walk(task, steps)->0).2;
        let step = step_of(p);
        let word = SurfaceView { surface: p.surface, score: p.cost };
        source_laws::law_the_first_entry_counts(user, p.reading, word);
        source_laws::law_the_first_entry_counts(system, p.reading, word);
        if p.origin is Unchanged {
            assert(task.reading[r] == p.reading[0]);
            assert(task.surface[s] == p.surface[0]);
        }
        assert(alignment::step_fits(task, r, s, step));
        lemma_one_more(a, front, p);
        assert(front.push(p) =~= pieces);
        let more = steps.push(step);
        assert(more.drop_last() =~= steps);
        more
    }
}

/// A walk is an explanation.
proof fn lemma_walk_explains(
    user: Option<Seq<EntryView>>,
    system: Option<Seq<EntryView>>,
    chunk_len: int,
    task: Task,
    steps: Seq<Step>,
) -> (pieces: Seq<Piece>)
    requires
        task.user == user,
        task.system == system,
        task.limit == segmentation::clause_limit(chunk_len),
        alignment::walk(task, steps) is Some,
    ensures
        alignment::walk(task, steps) matches Some((r, s, a)) && made_by(a, pieces) && 0 <= r
            <= task.reading.len() && 0 <= s <= task.surface.len() && explanation(
            user,
            system,
            chunk_len,
            task.reading.take(r),
            task.surface.take(s),
            pieces,
        ),
    decreases steps.len(),
{
    if steps.len() == 0 {
        let pieces = Seq::<Piece>::empty();
        assert(task.reading.take(0) =~= Seq::empty());
        assert(task.surface.take(0) =~= Seq::empty());
        pieces
    } else {
        let front = lemma_walk_explains(user, system, chunk_len, task, steps.drop_last());
        let (r, s, a) = alignment::walk(task, steps.drop_last())->0;
        let step = steps.last();
        assert(alignment::step_fits(task, r, s, step));
        let p = match step {
            Step::Literal => Piece {
                reading: seq![task.reading[r]],
                surface: seq![task.reading[r]],
                cost: 0,
                origin: Origin::Unchanged,
            },
            Step::Word { len, surface, score, is_user } => Piece {
                reading: task.reading.subrange(r, r + len),
                surface,
                cost: score,
                origin: if is_user {
                    Origin::Registered
                } else {
                    Origin::Listed
                },
            },
        };
        let word = SurfaceView { surface: p.surface, score: p.cost };
        source_laws::law_the_first_entry_counts(user, p.reading, word);
        source_laws::law_the_first_entry_counts(system, p.reading, word);
        assert(fits(user, system, chunk_len, p));
        lemma_one_more(a, front, p);
        let pieces = front.push(p);
        assert(pieces.drop_last() =~= front);
        assert(pieces.last() == p);
        let next = alignment::step_taken(task, r, s, a, step);
        assert(task.reading.take(next.0) =~= task.reading.take(r) + p.reading);
        assert(task.surface.take(next.1) =~= task.surface.take(s) + p.surface);
        assert forall|i: int| 0 <= i < pieces.len() implies fits(
            user,
            system,
            chunk_len,
            #[trigger] pieces[i],
        ) by {
            if i < front.len() {
                assert(pieces[i] == front[i]);
            }
        }
        pieces
    }
}

proof fn lemma_laid_out(system: Option<Seq<EntryView>>, limit: int, runs: Seq<SpanView>)
    requires
        limit >= 1,
    ensures
        laid_out(system, limit, runs, alignment::refined(system, limit, runs)),
    decreases runs.len(),
{
    if runs.len() > 0 {
        lemma_laid_out(system, limit, runs.drop_last());
        let head = alignment::refined(system, limit, runs.drop_last());
        let all = alignment::refined(system, limit, runs);
        let k = head.len() as int;
        assert(all.take(k) =~= head);
        if runs.last().fixed is Some {
            assert(all.skip(k) =~= seq![runs.last()]);
        } else {
            let tail = segmentation::free_clauses(
                system,
                limit,
                runs.last().reading,
                Seq::empty(),
            );
            assert(all.skip(k) =~= tail);
            clause_laws::law_free_text_is_cut_at_dictionary_words(
                system,
                limit,
                runs.last().reading,
            );
        }
    }
}

proof fn lemma_pinned_of_concat(user: Option<Seq<EntryView>>, a: Seq<SpanView>, b: Seq<SpanView>)
    ensures
        pinned_chars(user, a + b) == pinned_chars(user, a) + pinned_chars(user, b),
    decreases b.len(),
{
    if b.len() == 0 {
        assert(a + b =~= a);
    } else {
        assert((a + b).drop_last() =~= a + b.drop_last());
        lemma_pinned_of_concat(user, a, b.drop_last());
    }
}

proof fn lemma_pinned_not_negative(user: Option<Seq<EntryView>>, a: Seq<SpanView>)
    ensures
        pinned_chars(user, a) >= 0,
    decreases a.len(),
{
    if a.len() > 0 {
        lemma_pinned_not_negative(user, a.drop_last());
    }
}

proof fn lemma_pinned_when_laid_out(
    user: Option<Seq<EntryView>>,
    system: Option<Seq<EntryView>>,
    limit: int,
    runs: Seq<SpanView>,
    clauses: Seq<SpanView>,
)
    requires
        laid_out(system, limit, runs, clauses),
    ensures
        pinned_chars(user, clauses) >= pinned_chars(user, runs),
    decreases runs.len(),
{
    if runs.len() > 0 {
        let k = choose|k: int|
            {
                &&& 0 <= k <= clauses.len()
                &&& laid_out(system, limit, runs.drop_last(), #[trigger] clauses.take(k))
                &&& if runs.last().fixed is Some {
                    clauses.skip(k) == seq![runs.last()]
                } else {
                    clause_laws::cut_freely(system, limit, runs.last().reading, clauses.skip(k))
                }
            };
        lemma_pinned_when_laid_out(user, system, limit, runs.drop_last(), clauses.take(k));
        lemma_pinned_of_concat(user, clauses.take(k), clauses.skip(k));
        assert(clauses.take(k) + clauses.skip(k) =~= clauses);
        lemma_pinned_not_negative(user, clauses.skip(k));
        if runs.last().fixed is Some {
            let one = seq![runs.last()];
            assert(one.drop_last() =~= Seq::empty());
            assert(pinned_chars(user, one.drop_last()) == 0);
        }
    }
}

proof fn lemma_pinned_runs(
    user: Option<Seq<EntryView>>,
    system: Option<Seq<EntryView>>,
    chunk_len: int,
    pieces: Seq<Piece>,
)
    requires
        forall|i: int|
            0 <= i < pieces.len() ==> fits(user, system, chunk_len, #[trigger] pieces[i]),
    ensures
        pinned_chars(user, runs(pieces)) >= registered_chars(pieces),
    decreases pieces.len(),
{
    if pieces.len() > 0 {
        let front = pieces.drop_last();
        let p = pieces.last();
        assert(p == pieces[pieces.len() - 1]);
        assert(fits(user, system, chunk_len, p));
        assert forall|i: int| 0 <= i < front.len() implies fits(
            user,
            system,
            chunk_len,
            #[trigger] front[i],
        ) by {
            assert(front[i] == pieces[i]);
        }
        lemma_pinned_runs(user, system, chunk_len, front);
        let before = runs(front);
        let after = runs(pieces);
        if !(p.origin is Unchanged) {
            assert(after.drop_last() =~= before);
            if p.origin is Registered {
                let word = SurfaceView { surface: p.surface, score: p.cost };
                assert(source_laws::has_word(user, p.reading, word));
                assert(source_laws::lists(user, p.reading, p.surface));
            }
        } else if before.len() > 0 && before.last().fixed is None {
            assert(after.drop_last() =~= before.drop_last());
        } else {
            assert(after.drop_last() =~= before);
        }
    }
}

/// Where a surface comes from its reading, by words of the user dictionary,
/// words of the system dictionary that are no longer than a clause may be and
/// unchanged characters, and neither is too long, aligning them finds an
/// explanation that is preferred to that one, or as good, and gives its words
/// as pinned clauses, with the unchanged text between them cut freely. Its
/// pinned clauses cover at least as many characters of the reading by words of
/// the user dictionary.
pub proof fn law_aligning_finds_the_preferred_explanation(
    user: Option<Seq<EntryView>>,
    system: Option<Seq<EntryView>>,
    chunk_len: int,
    reading: Seq<char>,
    surface: Seq<char>,
    pieces: Seq<Piece>,
)
    requires
        alignment::scores_fit(user),
        alignment::scores_fit(system),
        reading.len() > 0,
        surface.len() > 0,
        (reading.len() + 1) * (surface.len() + 1) <= 16384,
        explanation(user, system, chunk_len, reading, surface, pieces),
    ensures
        alignment::aligned_clauses(
            alignment::alignment_task(user, system, chunk_len, reading, surface),
        ) matches Some(clauses) && pinned_chars(user, clauses) >= registered_chars(pieces)
            && exists|chosen: Seq<Piece>|
            {
                &&& #[trigger] explanation(user, system, chunk_len, reading, surface, chosen)
                &&& preferred(chosen, pieces)
                &&& laid_out(system, segmentation::clause_limit(chunk_len), runs(chosen), clauses)
            },
{
    let task = alignment::alignment_task(user, system, chunk_len, reading, surface);
    assert(reading.take(reading.len() as int) =~= reading);
    assert(surface.take(surface.len() as int) =~= surface);
    let steps = lemma_explanation_walks(user, system, chunk_len, task, pieces);
    alignment::law_best_alignment_is_best(task, steps);
    lemma_alignment_is_explained(user, system, chunk_len, reading, surface);
    let best = alignment::best_alignment(task)->0;
    let chosen = choose|chosen: Seq<Piece>|
        {
            &&& #[trigger] explanation(user, system, chunk_len, reading, surface, chosen)
            &&& made_by(best, chosen)
        };
    let limit = segmentation::clause_limit(chunk_len);
    let clauses = alignment::refined(system, limit, best.spans);
    lemma_laid_out(system, limit, runs(chosen));
    lemma_pinned_when_laid_out(user, system, limit, runs(chosen), clauses);
    lemma_pinned_runs(user, system, chunk_len, chosen);
    assert(preferred(chosen, pieces));
}

/// Nothing explains a surface better.
pub open spec fn best_explanation(
    user: Option<Seq<EntryView>>,
    system: Option<Seq<EntryView>>,
    chunk_len: int,
    reading: Seq<char>,
    surface: Seq<char>,
    pieces: Seq<Piece>,
) -> bool {
    &&& explanation(user, system, chunk_len, reading, surface, pieces)
    &&& forall|others: Seq<Piece>|
        #[trigger] explanation(user, system, chunk_len, reading, surface, others) ==> preferred(
            pieces,
            others,
        )
}

/// What aligning a surface to its reading owes: the clauses of a best
/// explanation, which cover as many characters by words of the user
/// dictionary as any explanation does; and nothing only where there is no
/// explanation, or no text, or too much of it.
pub open spec fn well_aligned(
    user: Option<Seq<EntryView>>,
    system: Option<Seq<EntryView>>,
    chunk_len: int,
    reading: Seq<char>,
    surface: Seq<char>,
    r: Option<Seq<SpanView>>,
) -> bool {
    match r {
        Some(clauses) => {
            &&& reading.len() > 0
            &&& surface.len() > 0
            &&& (reading.len() + 1) * (surface.len() + 1) <= 16384
            &&& exists|chosen: Seq<Piece>|
                {
                    &&& #[trigger] best_explanation(
                        user,
                        system,
                        chunk_len,
                        reading,
                        surface,
                        chosen,
                    )
                    &&& laid_out(
                        system,
                        segmentation::clause_limit(chunk_len),
                        runs(chosen),
                        clauses,
                    )
                }
            &&& forall|pieces: Seq<Piece>|
                #[trigger] explanation(user, system, chunk_len, reading, surface, pieces)
                    ==> pinned_chars(user, clauses) >= registered_chars(pieces)
        },
        None => {
            ||| reading.len() == 0
            ||| surface.len() == 0
            ||| (reading.len() + 1) * (surface.len() + 1) > 16384
            ||| forall|pieces: Seq<Piece>|
                !#[trigger] explanation(user, system, chunk_len, reading, surface, pieces)
        },
    }
}

/// Aligning a surface to its reading gives what it owes.
pub proof fn law_aligning_gives_a_best_explanation(
    user: Option<Seq<EntryView>>,
    system: Option<Seq<EntryView>>,
    chunk_len: int,
    reading: Seq<char>,
    surface: Seq<char>,
)
    requires
        alignment::scores_fit(user),
        alignment::scores_fit(system),
    ensures
        well_aligned(
            user,
            system,
            chunk_len,
            reading,
            surface,
            alignment::aligned_clauses(
                alignment::alignment_task(user, system, chunk_len, reading, surface),
            ),
        ),
{
    let task = alignment::alignment_task(user, system, chunk_len, reading, surface);
    let limit = segmentation::clause_limit(chunk_len);
    law_aligned_clauses_are_explained(user, system, chunk_len, reading, surface);
    if let Some(clauses) = alignment::aligned_clauses(task) {
        lemma_alignment_is_explained(user, system, chunk_len, reading, surface);
        let best = alignment::best_alignment(task)->0;
        let chosen = choose|chosen: Seq<Piece>|
            {
                &&& #[trigger] explanation(user, system, chunk_len, reading, surface, chosen)
                &&& made_by(best, chosen)
            };
        assert(reading.take(reading.len() as int) =~= reading);
        assert(surface.take(surface.len() as int) =~= surface);
        assert forall|others: Seq<Piece>|
            #[trigger] explanation(user, system, chunk_len, reading, surface, others) implies preferred(
            chosen,
            others,
        ) && pinned_chars(user, clauses) >= registered_chars(others) by {
            let steps = lemma_explanation_walks(user, system, chunk_len, task, others);
            alignment::law_best_alignment_is_best(task, steps);
            law_aligning_finds_the_preferred_explanation(
                user,
                system,
                chunk_len,
                reading,
                surface,
                others,
            );
        }
        assert(best_explanation(user, system, chunk_len, reading, surface, chosen));
        lemma_laid_out(system, limit, runs(chosen));
    }
}

proof fn lemma_alignment_is_explained(
    user: Option<Seq<EntryView>>,
    system: Option<Seq<EntryView>>,
    chunk_len: int,
    reading: Seq<char>,
    surface: Seq<char>,
)
    ensures
        ({
            let task = alignment::alignment_task(user, system, chunk_len, reading, surface);
            alignment::best_alignment(task) matches Some(best) ==> exists|chosen: Seq<Piece>|
                {
                    &&& #[trigger] explanation(user, system, chunk_len, reading, surface, chosen)
                    &&& made_by(best, chosen)
                }
        }),
{
    let task = alignment::alignment_task(user, system, chunk_len, reading, surface);
    let n = reading.len() as int;
    let m = surface.len() as int;
    lemma_best_reached(task);
    if let Some(best) = alignment::best_alignment(task) {
        let steps = choose|steps: Seq<Step>|
            #[trigger] alignment::walk(task, steps) == Some((n, m, best));
        let chosen = lemma_walk_explains(user, system, chunk_len, task, steps);
        assert(reading.take(n) =~= reading);
        assert(surface.take(m) =~= surface);
    }
}

/// What aligning gives comes from an explanation of the surface: its words are
/// the pinned clauses, in order, and the unchanged text between them is cut
/// freely. It gives nothing only where there is none, or no text, or too much.
pub proof fn law_aligned_clauses_are_explained(
    user: Option<Seq<EntryView>>,
    system: Option<Seq<EntryView>>,
    chunk_len: int,
    reading: Seq<char>,
    surface: Seq<char>,
)
    requires
        alignment::scores_fit(user),
        alignment::scores_fit(system),
    ensures
        match alignment::aligned_clauses(
            alignment::alignment_task(user, system, chunk_len, reading, surface),
        ) {
            Some(clauses) => {
                &&& reading.len() > 0
                &&& surface.len() > 0
                &&& (reading.len() + 1) * (surface.len() + 1) <= 16384
                &&& exists|chosen: Seq<Piece>|
                    {
                        &&& #[trigger] explanation(
                            user,
                            system,
                            chunk_len,
                            reading,
                            surface,
                            chosen,
                        )
                        &&& laid_out(
                            system,
                            segmentation::clause_limit(chunk_len),
                            runs(chosen),
                            clauses,
                        )
                    }
            },
            None => {
                ||| reading.len() == 0
                ||| surface.len() == 0
                ||| (reading.len() + 1) * (surface.len() + 1) > 16384
                ||| forall|pieces: Seq<Piece>|
                    !#[trigger] explanation(user, system, chunk_len, reading, surface, pieces)
            },
        },
{
    let task = alignment::alignment_task(user, system, chunk_len, reading, surface);
    let limit = segmentation::clause_limit(chunk_len);
    match alignment::aligned_clauses(task) {
        Some(clauses) => {
            lemma_alignment_is_explained(user, system, chunk_len, reading, surface);
            let best = alignment::best_alignment(task)->0;
            lemma_laid_out(system, limit, best.spans);
        },
        None => {
            if reading.len() > 0 && surface.len() > 0 && (reading.len() + 1) * (surface.len() + 1)
                <= 16384 {
                assert forall|pieces: Seq<Piece>| true implies !#[trigger] explanation(
                    user,
                    system,
                    chunk_len,
                    reading,
                    surface,
                    pieces,
                ) by {
                    if explanation(user, system, chunk_len, reading, surface, pieces) {
                        law_aligning_finds_the_preferred_explanation(
                            user,
                            system,
                            chunk_len,
                            reading,
                            surface,
                            pieces,
                        );
                    }
                }
            }
        },
    }
}

proof fn lemma_laid_out_concat(
    system: Option<Seq<EntryView>>,
    limit: int,
    a: Seq<SpanView>,
    ca: Seq<SpanView>,
    b: Seq<SpanView>,
    cb: Seq<SpanView>,
)
    requires
        laid_out(system, limit, a, ca),
        laid_out(system, limit, b, cb),
    ensures
        laid_out(system, limit, a + b, ca + cb),
    decreases b.len(),
{
    if b.len() == 0 {
        assert(a + b =~= a);
        assert(ca + cb =~= ca);
    } else {
        let k = choose|k: int|
            {
                &&& 0 <= k <= cb.len()
                &&& laid_out(system, limit, b.drop_last(), #[trigger] cb.take(k))
                &&& if b.last().fixed is Some {
                    cb.skip(k) == seq![b.last()]
                } else {
                    clause_laws::cut_freely(system, limit, b.last().reading, cb.skip(k))
                }
            };
        lemma_laid_out_concat(system, limit, a, ca, b.drop_last(), cb.take(k));
        let all = ca + cb;
        let at = ca.len() + k;
        assert((a + b).drop_last() =~= a + b.drop_last());
        assert(all.take(at) =~= ca + cb.take(k));
        assert(all.skip(at) =~= cb.skip(k));
    }
}

proof fn lemma_one_run_laid_out(
    system: Option<Seq<EntryView>>,
    limit: int,
    run: SpanView,
    clauses: Seq<SpanView>,
)
    requires
        run.fixed is Some ==> clauses == seq![run],
        run.fixed is None ==> clause_laws::cut_freely(system, limit, run.reading, clauses),
    ensures
        laid_out(system, limit, seq![run], clauses),
{
    let runs = seq![run];
    assert(runs.drop_last() =~= Seq::empty());
    assert(clauses.take(0) =~= Seq::empty());
    assert(clauses.skip(0) =~= clauses);
    assert(laid_out(system, limit, runs.drop_last(), clauses.take(0)));
}

proof fn lemma_words_laid_out(
    user: Option<Seq<EntryView>>,
    system: Option<Seq<EntryView>>,
    limit: int,
    rest: Seq<char>,
    pending: Seq<char>,
)
    requires
        limit >= 1,
    ensures
        laid_out(
            system,
            limit,
            segmentation::registered_clauses(user, system, limit, false, rest, pending),
            segmentation::registered_clauses(user, system, limit, true, rest, pending),
        ),
    decreases rest.len(),
{
    let coarse = segmentation::between_words(system, limit, false, pending);
    let fine = segmentation::between_words(system, limit, true, pending);
    assert(laid_out(system, limit, coarse, fine)) by {
        if pending.len() > 0 {
            clause_laws::law_free_text_is_cut_at_dictionary_words(system, limit, pending);
            lemma_one_run_laid_out(system, limit, spans::free_span(pending), fine);
        }
    }
    if rest.len() > 0 {
        match dictionary::longest_registered(user, rest) {
            Some((word, surface)) => {
                segmentation::lemma_longest_registered(user, rest);
                let after = rest.skip(word.len() as int);
                let own = SpanView { reading: word, fixed: Some(surface) };
                let tail = segmentation::registered_clauses(
                    user,
                    system,
                    limit,
                    false,
                    after,
                    Seq::empty(),
                );
                let fine_tail = segmentation::registered_clauses(
                    user,
                    system,
                    limit,
                    true,
                    after,
                    Seq::empty(),
                );
                lemma_words_laid_out(user, system, limit, after, Seq::empty());
                lemma_one_run_laid_out(system, limit, own, seq![own]);
                lemma_laid_out_concat(system, limit, coarse, fine, seq![own], seq![own]);
                lemma_laid_out_concat(
                    system,
                    limit,
                    coarse + seq![own],
                    fine + seq![own],
                    tail,
                    fine_tail,
                );
            },
            None => {
                lemma_words_laid_out(user, system, limit, rest.skip(1), pending.push(rest[0]));
            },
        }
    }
}

/// Where a reading is to be cut further than at its registered words, each
/// stretch between them is cut freely, and the words stay.
pub proof fn law_stretches_between_words_are_cut_freely(
    user: Option<Seq<EntryView>>,
    system: Option<Seq<EntryView>>,
    limit: int,
    reading: Seq<char>,
)
    requires
        limit >= 1,
    ensures
        ({
            let fine = segmentation::registered_clauses(
                user,
                system,
                limit,
                true,
                reading,
                Seq::empty(),
            );
            exists|coarse: Seq<SpanView>|
                {
                    &&& clause_laws::cut_at_words(user, reading, coarse)
                    &&& clause_laws::cut_nowhere_else(coarse)
                    &&& #[trigger] laid_out(system, limit, coarse, fine)
                }
        }),
{
    clause_laws::law_a_reading_is_cut_at_its_words(user, system, limit, false, reading);
    lemma_words_laid_out(user, system, limit, reading, Seq::empty());
}

/// Of two explanations the better one has more characters in registered
/// words, or as many and fewer unchanged ones, or as many of both and a lower
/// cost, or all the same and fewer clauses.
pub proof fn law_which_alignment_is_better(a: AlignmentView, b: AlignmentView)
    ensures
        a.user > b.user ==> alignment::better(a, b) && !alignment::better(b, a),
        a.user == b.user && a.unmatched < b.unmatched ==> alignment::better(a, b)
            && !alignment::better(b, a),
        a.user == b.user && a.unmatched == b.unmatched && a.score < b.score
            ==> alignment::better(a, b) && !alignment::better(b, a),
        a.user == b.user && a.unmatched == b.unmatched && a.score == b.score && a.spans.len()
            < b.spans.len() ==> alignment::better(a, b) && !alignment::better(b, a),
        a.user == b.user && a.unmatched == b.unmatched && a.score == b.score && a.spans.len()
            == b.spans.len() ==> !alignment::better(a, b) && !alignment::better(b, a),
{
}

} // verus!
