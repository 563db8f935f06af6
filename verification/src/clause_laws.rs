//! How a reading is cut into clauses and converted while typing, told by the
//! words that the dictionaries have.

use vstd::prelude::*;
use crate::consult::{AnswersView, ConvertedView, QuestionView};
use crate::consult;
use crate::dictionary::EntryView;
use crate::dictionary;
use crate::engine::EngineView;
use crate::engine;
use crate::kana;
use crate::model;
use crate::segmentation;
use crate::source_laws;
use crate::spans::SpanView;
use crate::spans;

verus! {

/// A reading is registered with a surface: its first entry has surfaces, and
/// this is the first of them.
pub open spec fn registered_as(
    dict: Option<Seq<EntryView>>,
    reading: Seq<char>,
    surface: Seq<char>,
) -> bool {
    dict matches Some(d) && exists|i: int|
        {
            &&& 0 <= i < d.len()
            &&& (#[trigger] d[i]).reading == reading
            &&& d[i].candidates.len() > 0
            &&& d[i].candidates[0].surface == surface
            &&& forall|k: int| 0 <= k < i ==> (#[trigger] d[k]).reading != reading
        }
}

/// A reading is registered.
pub open spec fn registered(dict: Option<Seq<EntryView>>, reading: Seq<char>) -> bool {
    exists|surface: Seq<char>| #[trigger] registered_as(dict, reading, surface)
}

/// A dictionary has an entry for a reading.
pub open spec fn entered(dict: Option<Seq<EntryView>>, reading: Seq<char>) -> bool {
    dict matches Some(d) && exists|i: int| 0 <= i < d.len() && (#[trigger] d[i]).reading == reading
}

/// No registered word begins among the first `n` characters of a reading.
pub open spec fn no_word_begins(dict: Option<Seq<EntryView>>, reading: Seq<char>, n: int) -> bool {
    forall|from: int, to: int|
        0 <= from < n && from < to <= reading.len() ==> !registered(
            dict,
            #[trigger] reading.subrange(from, to),
        )
}

/// A reading is cut at its registered words: a clause that is one is the
/// longest that begins there, with its first surface, and in no other clause
/// does one begin.
pub open spec fn cut_at_words(
    user: Option<Seq<EntryView>>,
    reading: Seq<char>,
    clauses: Seq<SpanView>,
) -> bool
    decreases clauses.len(),
{
    if clauses.len() == 0 {
        reading.len() == 0
    } else {
        let own = clauses[0].reading;
        let n = own.len() as int;
        &&& 0 < n <= reading.len()
        &&& own == reading.take(n)
        &&& match clauses[0].fixed {
            Some(surface) => registered_as(user, own, surface) && forall|to: int|
                n < to <= reading.len() ==> !registered(user, #[trigger] reading.take(to)),
            None => no_word_begins(user, reading, n),
        }
        &&& cut_at_words(user, reading.skip(n), clauses.skip(1))
    }
}

/// No two neighbouring clauses are both without a registered word.
pub open spec fn cut_nowhere_else(clauses: Seq<SpanView>) -> bool {
    forall|i: int, j: int|
        0 <= i && j == i + 1 && j < clauses.len() ==> (#[trigger] clauses[i]).fixed is Some || (
        #[trigger] clauses[j]).fixed is Some
}

proof fn lemma_registered(dict: Option<Seq<EntryView>>, reading: Seq<char>)
    ensures
        registered(dict, reading) <==> (dict matches Some(d) && dictionary::surfaces_of(
            d,
            reading,
        ) matches Some(c) && c.len() > 0),
        dict matches Some(d) ==> dictionary::surfaces_of(d, reading) matches Some(c) ==> c.len() > 0
            ==> registered_as(dict, reading, c[0].surface),
        entered(dict, reading) <==> (dict matches Some(d) && dictionary::surfaces_of(
            d,
            reading,
        ) is Some),
{
    if let Some(d) = dict {
        source_laws::lemma_surfaces(d, reading);
        if let Some(c) = dictionary::surfaces_of(d, reading) {
            let j = choose|j: int|
                {
                    &&& 0 <= j < d.len()
                    &&& (#[trigger] d[j]).reading == reading
                    &&& d[j].candidates == c
                    &&& forall|k: int| 0 <= k < j ==> (#[trigger] d[k]).reading != reading
                };
            if c.len() > 0 {
                assert(registered_as(dict, reading, c[0].surface));
            }
            if registered(dict, reading) {
                let surface = choose|surface: Seq<char>|
                    #[trigger] registered_as(dict, reading, surface);
                let i = choose|i: int|
                    {
                        &&& 0 <= i < d.len()
                        &&& (#[trigger] d[i]).reading == reading
                        &&& d[i].candidates.len() > 0
                        &&& d[i].candidates[0].surface == surface
                        &&& forall|k: int| 0 <= k < i ==> (#[trigger] d[k]).reading != reading
                    };
                if i < j {
                    assert(d[i].reading != reading);
                } else if j < i {
                    assert(d[j].reading != reading);
                }
            }
        } else {
            if registered(dict, reading) {
                let surface = choose|surface: Seq<char>|
                    #[trigger] registered_as(dict, reading, surface);
                assert(registered_as(dict, reading, surface));
            }
        }
    }
}

/// The longest registered word at the beginning of a text, with its first
/// surface; there is none where nothing there is registered.
pub proof fn law_the_longest_registered_word(user: Option<Seq<EntryView>>, input: Seq<char>)
    ensures
        match dictionary::longest_registered(user, input) {
            Some((word, surface)) => {
                &&& 0 < word.len() <= input.len()
                &&& word == input.take(word.len() as int)
                &&& registered_as(user, word, surface)
                &&& forall|to: int|
                    word.len() < to <= input.len() ==> !registered(user, #[trigger] input.take(to))
            },
            None => forall|to: int|
                0 < to <= input.len() ==> !registered(user, #[trigger] input.take(to)),
        },
{
    if let Some(d) = user {
        dictionary::lemma_longest_is_a_word(d, input, input.len() as int, 1, 1);
        match dictionary::longest_word_up_to(d, input, input.len() as int, 1, 1) {
            Some(n) => {
                lemma_registered(user, input.take(n));
                assert forall|to: int| n < to <= input.len() implies !registered(
                    user,
                    #[trigger] input.take(to),
                ) by {
                    lemma_registered(user, input.take(to));
                }
            },
            None => {
                assert forall|to: int| 0 < to <= input.len() implies !registered(
                    user,
                    #[trigger] input.take(to),
                ) by {
                    lemma_registered(user, input.take(to));
                }
            },
        }
    }
}

/// A run of free clauses before others.
proof fn lemma_cut_behind_free(
    user: Option<Seq<EntryView>>,
    head: Seq<SpanView>,
    text: Seq<char>,
    rest: Seq<char>,
    tail: Seq<SpanView>,
)
    requires
        forall|i: int|
            0 <= i < head.len() ==> (#[trigger] head[i]).fixed is None && head[i].reading.len() > 0,
        spans::spans_reading(head) == text,
        no_word_begins(user, text + rest, text.len() as int),
        cut_at_words(user, rest, tail),
    ensures
        cut_at_words(user, text + rest, head + tail),
    decreases head.len(),
{
    if head.len() == 0 {
        assert(text =~= Seq::empty());
        assert(text + rest =~= rest);
        assert(head + tail =~= tail);
    } else {
        let own = head[0].reading;
        let n = own.len() as int;
        let others = head.skip(1);
        assert(head =~= seq![head[0]] + others);
        spans::lemma_reading_of_concat(seq![head[0]], others);
        spans::lemma_reading_of_one(head[0]);
        let after = spans::spans_reading(others);
        assert(text == own + after);
        let whole = text + rest;
        assert(whole.take(n) =~= own);
        assert(whole.skip(n) =~= after + rest);
        assert(no_word_begins(user, after + rest, after.len() as int)) by {
            assert forall|from: int, to: int|
                0 <= from < after.len() && from < to <= (after + rest).len() implies !registered(
                user,
                #[trigger] (after + rest).subrange(from, to),
            ) by {
                assert((after + rest).subrange(from, to) =~= whole.subrange(n + from, n + to));
                assert(!registered(user, whole.subrange(n + from, n + to)));
            }
        }
        assert(no_word_begins(user, whole, n)) by {
            assert forall|from: int, to: int|
                0 <= from < n && from < to <= whole.len() implies !registered(
                user,
                #[trigger] whole.subrange(from, to),
            ) by {
                assert(0 <= from < text.len());
            }
        }
        assert forall|i: int| 0 <= i < others.len() implies (#[trigger] others[i]).fixed is None
            && others[i].reading.len() > 0 by {
            assert(others[i] == head[i + 1]);
        }
        lemma_cut_behind_free(user, others, after, rest, tail);
        assert((head + tail).skip(1) =~= others + tail);
        assert((head + tail)[0] == head[0]);
    }
}

proof fn lemma_between(
    system: Option<Seq<EntryView>>,
    limit: int,
    split_free: bool,
    pending: Seq<char>,
)
    ensures
        ({
            let head = segmentation::between_words(system, limit, split_free, pending);
            &&& spans::spans_reading(head) == pending
            &&& forall|i: int|
                0 <= i < head.len() ==> (#[trigger] head[i]).fixed is None && head[i].reading.len()
                    > 0
            &&& !split_free ==> head.len() <= 1
        }),
{
    segmentation::lemma_free_clauses_are_free(system, limit, pending, Seq::empty());
    segmentation::law_free_clauses_keep_the_reading(system, limit, pending, Seq::empty());
    assert(Seq::<char>::empty() + pending =~= pending);
    if pending.len() > 0 {
        spans::lemma_reading_of_one(spans::free_span(pending));
    } else {
        assert(pending =~= Seq::empty());
    }
}

proof fn lemma_cut(
    user: Option<Seq<EntryView>>,
    system: Option<Seq<EntryView>>,
    limit: int,
    split_free: bool,
    rest: Seq<char>,
    pending: Seq<char>,
)
    requires
        no_word_begins(user, pending + rest, pending.len() as int),
    ensures
        ({
            let clauses = segmentation::registered_clauses(
                user,
                system,
                limit,
                split_free,
                rest,
                pending,
            );
            &&& cut_at_words(user, pending + rest, clauses)
            &&& !split_free ==> cut_nowhere_else(clauses)
        }),
    decreases rest.len(),
{
    let head = segmentation::between_words(system, limit, split_free, pending);
    lemma_between(system, limit, split_free, pending);
    let clauses = segmentation::registered_clauses(user, system, limit, split_free, rest, pending);
    if rest.len() == 0 {
        lemma_cut_behind_free(user, head, pending, rest, Seq::empty());
        assert(head + Seq::<SpanView>::empty() =~= head);
    } else {
        segmentation::lemma_longest_registered(user, rest);
        law_the_longest_registered_word(user, rest);
        match dictionary::longest_registered(user, rest) {
            Some((word, surface)) => {
                let n = word.len() as int;
                let after = rest.skip(n);
                let own = SpanView { reading: word, fixed: Some(surface) };
                let tail = segmentation::registered_clauses(
                    user,
                    system,
                    limit,
                    split_free,
                    after,
                    Seq::empty(),
                );
                assert(Seq::<char>::empty() + after =~= after);
                lemma_cut(user, system, limit, split_free, after, Seq::empty());
                let back = seq![own] + tail;
                assert(back.skip(1) =~= tail);
                assert(back[0] == own);
                assert(cut_at_words(user, rest, back));
                lemma_cut_behind_free(user, head, pending, rest, back);
                assert(clauses =~= head + back);
                if !split_free {
                    assert forall|i: int, j: int|
                        0 <= i && j == i + 1 && j < clauses.len() implies (
                    #[trigger] clauses[i]).fixed is Some || (#[trigger] clauses[j]).fixed is Some by {
                        let k = i - head.len() - 1;
                        if k >= 0 {
                            assert(clauses[i] == tail[k]);
                            assert(clauses[j] == tail[k + 1]);
                        } else if i == head.len() {
                            assert(clauses[i] == own);
                        } else {
                            assert(clauses[j] == own);
                        }
                    }
                }
            },
            None => {
                let more = pending.push(rest[0]);
                let after = rest.skip(1);
                assert(more + after =~= pending + rest);
                assert(no_word_begins(user, more + after, more.len() as int)) by {
                    assert forall|from: int, to: int|
                        0 <= from < more.len() && from < to <= (more + after).len() implies
                        !registered(user, #[trigger] (more + after).subrange(from, to)) by {
                        if from < pending.len() {
                            assert(!registered(user, (pending + rest).subrange(from, to)));
                        } else {
                            let m = to - from;
                            assert((pending + rest).subrange(from, to) =~= rest.take(m));
                            assert(!registered(user, rest.take(m)));
                        }
                    }
                }
                lemma_cut(user, system, limit, split_free, after, more);
            },
        }
    }
}

/// A reading is cut at its registered words, wherever they stand, and where it
/// is not to be cut further, nowhere else.
pub proof fn law_a_reading_is_cut_at_its_words(
    user: Option<Seq<EntryView>>,
    system: Option<Seq<EntryView>>,
    limit: int,
    split_free: bool,
    reading: Seq<char>,
)
    ensures
        ({
            let clauses = segmentation::registered_clauses(
                user,
                system,
                limit,
                split_free,
                reading,
                Seq::empty(),
            );
            &&& cut_at_words(user, reading, clauses)
            &&& !split_free ==> cut_nowhere_else(clauses)
        }),
{
    assert(Seq::<char>::empty() + reading =~= reading);
    lemma_cut(user, system, limit, split_free, reading, Seq::empty());
}

/// A word of two characters or more begins at a place of a reading.
pub open spec fn word_begins(system: Option<Seq<EntryView>>, reading: Seq<char>, from: int) -> bool {
    exists|to: int|
        from + 2 <= to <= reading.len() && entered(system, #[trigger] reading.subrange(from, to))
}

/// A reading without registered words is cut at the words of the system
/// dictionary: a clause is the longest word that begins there, or a stretch in
/// which none begins, which ends where a word begins, where the text ends or
/// at the limit.
pub open spec fn cut_freely(
    system: Option<Seq<EntryView>>,
    limit: int,
    reading: Seq<char>,
    clauses: Seq<SpanView>,
) -> bool
    decreases clauses.len(),
{
    if clauses.len() == 0 {
        reading.len() == 0
    } else {
        let own = clauses[0].reading;
        let n = own.len() as int;
        &&& 0 < n <= reading.len()
        &&& own == reading.take(n)
        &&& clauses[0].fixed is None
        &&& if word_begins(system, reading, 0) {
            n >= 2 && entered(system, own) && forall|to: int|
                n < to <= reading.len() ==> !entered(system, #[trigger] reading.subrange(0, to))
        } else {
            &&& n <= limit
            &&& forall|from: int| 0 <= from < n ==> !#[trigger] word_begins(system, reading, from)
            &&& n == limit || n == reading.len() || word_begins(system, reading, n)
        }
        &&& cut_freely(system, limit, reading.skip(n), clauses.skip(1))
    }
}

/// The longest word of two characters or more at the beginning of a text;
/// there is none where none begins there.
pub proof fn law_the_longest_word(system: Option<Seq<EntryView>>, input: Seq<char>)
    ensures
        match dictionary::longest_reading(system, input) {
            Some(word) => {
                &&& 2 <= word.len() <= input.len()
                &&& word == input.take(word.len() as int)
                &&& entered(system, word)
                &&& word_begins(system, input, 0)
                &&& forall|to: int|
                    word.len() < to <= input.len() ==> !entered(
                        system,
                        #[trigger] input.subrange(0, to),
                    )
            },
            None => !word_begins(system, input, 0),
        },
{
    if let Some(d) = system {
        dictionary::lemma_longest_is_a_word(d, input, input.len() as int, 2, 0);
        match dictionary::longest_word_up_to(d, input, input.len() as int, 2, 0) {
            Some(n) => {
                lemma_registered(system, input.take(n));
                assert(input.subrange(0, n) =~= input.take(n));
                assert(entered(system, input.subrange(0, n)));
                assert forall|to: int| n < to <= input.len() implies !entered(
                    system,
                    #[trigger] input.subrange(0, to),
                ) by {
                    assert(input.subrange(0, to) =~= input.take(to));
                    lemma_registered(system, input.take(to));
                }
            },
            None => {
                assert forall|to: int| 2 <= to <= input.len() implies !entered(
                    system,
                    #[trigger] input.subrange(0, to),
                ) by {
                    assert(input.subrange(0, to) =~= input.take(to));
                    lemma_registered(system, input.take(to));
                }
            },
        }
    }
}

proof fn lemma_word_begins_later(
    system: Option<Seq<EntryView>>,
    front: Seq<char>,
    back: Seq<char>,
    from: int,
)
    requires
        0 <= from,
    ensures
        word_begins(system, front + back, front.len() + from) <==> word_begins(system, back, from),
{
    let whole = front + back;
    let n = front.len() as int;
    if word_begins(system, back, from) {
        let to = choose|to: int|
            from + 2 <= to <= back.len() && entered(system, #[trigger] back.subrange(from, to));
        assert(whole.subrange(n + from, n + to) =~= back.subrange(from, to));
    }
    if word_begins(system, whole, n + from) {
        let to = choose|to: int|
            n + from + 2 <= to <= whole.len() && entered(
                system,
                #[trigger] whole.subrange(n + from, to),
            );
        assert(whole.subrange(n + from, to) =~= back.subrange(from, to - n));
    }
}

proof fn lemma_cut_freely(
    system: Option<Seq<EntryView>>,
    limit: int,
    rest: Seq<char>,
    pending: Seq<char>,
)
    requires
        limit >= 1,
        pending.len() < limit,
        forall|from: int|
            0 <= from < pending.len() ==> !#[trigger] word_begins(system, pending + rest, from),
    ensures
        cut_freely(
            system,
            limit,
            pending + rest,
            segmentation::free_clauses(system, limit, rest, pending),
        ),
    decreases rest.len(),
{
    let whole = pending + rest;
    let clauses = segmentation::free_clauses(system, limit, rest, pending);
    if rest.len() == 0 {
        assert(whole =~= pending);
        if pending.len() > 0 {
            let n = pending.len() as int;
            assert(clauses.skip(1) =~= Seq::empty());
            assert(whole.skip(n) =~= Seq::empty());
            assert(whole.take(n) =~= pending);
            assert(!word_begins(system, whole, 0));
            assert(cut_freely(system, limit, whole.skip(n), clauses.skip(1)));
            assert(cut_freely(system, limit, whole, clauses));
        }
    } else {
        segmentation::lemma_longest_reading(system, rest);
        law_the_longest_word(system, rest);
        match dictionary::longest_reading(system, rest) {
            Some(word) => {
                let n = word.len() as int;
                let after = rest.skip(n);
                let tail = segmentation::free_clauses(system, limit, after, Seq::empty());
                assert(Seq::<char>::empty() + after =~= after);
                lemma_cut_freely(system, limit, after, Seq::empty());
                let own = spans::free_span(word);
                let back = seq![own] + tail;
                assert(back.skip(1) =~= tail);
                assert(back[0] == own);
                assert(cut_freely(system, limit, rest, back));
                if pending.len() == 0 {
                    assert(whole =~= rest);
                    assert(clauses =~= back);
                    assert(cut_freely(system, limit, whole, clauses));
                } else {
                    let m = pending.len() as int;
                    assert(clauses =~= seq![spans::free_span(pending)] + back);
                    assert(clauses.skip(1) =~= back);
                    assert(whole.take(m) =~= pending);
                    assert(whole.skip(m) =~= rest);
                    lemma_word_begins_later(system, pending, rest, 0);
                    assert(!word_begins(system, whole, 0));
                    assert(word_begins(system, whole, m));
                    assert(cut_freely(system, limit, whole, clauses));
                }
            },
            None => {
                let more = pending.push(rest[0]);
                let after = rest.skip(1);
                assert(more + after =~= whole);
                lemma_word_begins_later(system, pending, rest, 0);
                assert forall|from: int| 0 <= from < more.len() implies !#[trigger] word_begins(
                    system,
                    more + after,
                    from,
                ) by {
                    if from < pending.len() {
                        assert(!word_begins(system, whole, from));
                    }
                }
                if more.len() >= limit {
                    let n = more.len() as int;
                    let tail = segmentation::free_clauses(system, limit, after, Seq::empty());
                    assert(Seq::<char>::empty() + after =~= after);
                    lemma_cut_freely(system, limit, after, Seq::empty());
                    assert(clauses =~= seq![spans::free_span(more)] + tail);
                    assert(clauses.skip(1) =~= tail);
                    assert(whole.take(n) =~= more);
                    assert(whole.skip(n) =~= after);
                    assert(!word_begins(system, more + after, 0));
                    assert(cut_freely(system, limit, whole, clauses));
                } else {
                    lemma_cut_freely(system, limit, after, more);
                }
            },
        }
    }
}

/// Text without registered words is cut at the longest words of the system
/// dictionary, and what lies between them at the limit.
pub proof fn law_free_text_is_cut_at_dictionary_words(
    system: Option<Seq<EntryView>>,
    limit: int,
    reading: Seq<char>,
)
    requires
        limit >= 1,
    ensures
        cut_freely(
            system,
            limit,
            reading,
            segmentation::free_clauses(system, limit, reading, Seq::empty()),
        ),
{
    assert(Seq::<char>::empty() + reading =~= reading);
    lemma_cut_freely(system, limit, reading, Seq::empty());
}

/// The limit of a clause is the length of a chunk, but at least one character
/// and at most eight.
pub proof fn law_the_limit_of_a_clause(chunk_len: int)
    ensures
        chunk_len <= 1 ==> segmentation::clause_limit(chunk_len) == 1,
        1 <= chunk_len <= 8 ==> segmentation::clause_limit(chunk_len) == chunk_len,
        8 <= chunk_len ==> segmentation::clause_limit(chunk_len) == 8,
{
}

/// Texts, one behind the other.
pub open spec fn joined(texts: Seq<Seq<char>>) -> Seq<char>
    decreases texts.len(),
{
    if texts.len() == 0 {
        Seq::empty()
    } else {
        joined(texts.drop_last()) + texts.last()
    }
}

proof fn lemma_replaced(clauses: Seq<SpanView>) -> (texts: Seq<Seq<char>>)
    ensures
        texts.len() == clauses.len(),
        forall|k: int|
            0 <= k < clauses.len() ==> #[trigger] texts[k] == match clauses[k].fixed {
                Some(surface) => surface,
                None => clauses[k].reading,
            },
        joined(texts) == segmentation::replaced_text(clauses),
    decreases clauses.len(),
{
    if clauses.len() == 0 {
        Seq::empty()
    } else {
        let before = lemma_replaced(clauses.drop_last());
        let last = clauses.last();
        let piece = match last.fixed {
            Some(surface) => surface,
            None => last.reading,
        };
        let texts = before.push(piece);
        assert(texts.drop_last() =~= before);
        assert forall|k: int| 0 <= k < clauses.len() implies #[trigger] texts[k] == match clauses[k].fixed {
            Some(surface) => surface,
            None => clauses[k].reading,
        } by {
            if k < before.len() {
                assert(texts[k] == before[k]);
                assert(clauses.drop_last()[k] == clauses[k]);
            }
        }
        texts
    }
}

proof fn lemma_word_is_a_clause(
    user: Option<Seq<EntryView>>,
    reading: Seq<char>,
    clauses: Seq<SpanView>,
)
    requires
        cut_at_words(user, reading, clauses),
        !segmentation::has_fixed(clauses),
    ensures
        no_word_begins(user, reading, reading.len() as int),
    decreases clauses.len(),
{
    if clauses.len() > 0 {
        assert(clauses[0].fixed is None);
        let n = clauses[0].reading.len() as int;
        let rest = reading.skip(n);
        let others = clauses.skip(1);
        assert forall|i: int| 0 <= i < others.len() implies (#[trigger] others[i]).fixed is None by {
            assert(others[i] == clauses[i + 1]);
        }
        lemma_word_is_a_clause(user, rest, others);
        assert forall|from: int, to: int|
            0 <= from < reading.len() && from < to <= reading.len() implies !registered(
            user,
            #[trigger] reading.subrange(from, to),
        ) by {
            if from >= n {
                assert(reading.subrange(from, to) =~= rest.subrange(from - n, to - n));
            }
        }
    }
}

/// A reading with its registered words replaced is one piece for each clause
/// that the words cut: the surface of a word, other text as it is. There is
/// none just where no word is registered in it.
pub proof fn law_registered_words_are_replaced(
    user: Option<Seq<EntryView>>,
    system: Option<Seq<EntryView>>,
    limit: int,
    reading: Seq<char>,
)
    ensures
        ({
            let spans = segmentation::registered_clauses(
                user,
                system,
                limit,
                false,
                reading,
                Seq::empty(),
            );
            &&& !segmentation::has_fixed(spans) ==> no_word_begins(
                user,
                reading,
                reading.len() as int,
            )
            &&& segmentation::has_fixed(spans) ==> !no_word_begins(
                user,
                reading,
                reading.len() as int,
            )
            &&& exists|clauses: Seq<SpanView>, texts: Seq<Seq<char>>|
                {
                    &&& #[trigger] cut_at_words(user, reading, clauses)
                    &&& cut_nowhere_else(clauses)
                    &&& texts.len() == clauses.len()
                    &&& forall|k: int|
                        0 <= k < clauses.len() ==> #[trigger] texts[k] == match clauses[k].fixed {
                            Some(surface) => surface,
                            None => clauses[k].reading,
                        }
                    &&& #[trigger] joined(texts) == segmentation::replaced_text(spans)
                }
        }),
{
    let spans = segmentation::registered_clauses(
        user,
        system,
        limit,
        false,
        reading,
        Seq::empty(),
    );
    law_a_reading_is_cut_at_its_words(user, system, limit, false, reading);
    let texts = lemma_replaced(spans);
    if segmentation::has_fixed(spans) {
        let i = choose|i: int| 0 <= i < spans.len() && (#[trigger] spans[i]).fixed is Some;
        lemma_clause_is_a_word(user, reading, spans, i);
    } else {
        lemma_word_is_a_clause(user, reading, spans);
    }
}

proof fn lemma_clause_is_a_word(
    user: Option<Seq<EntryView>>,
    reading: Seq<char>,
    clauses: Seq<SpanView>,
    i: int,
)
    requires
        cut_at_words(user, reading, clauses),
        0 <= i < clauses.len(),
        clauses[i].fixed is Some,
    ensures
        !no_word_begins(user, reading, reading.len() as int),
    decreases clauses.len(),
{
    let n = clauses[0].reading.len() as int;
    if i == 0 {
        assert(registered(user, clauses[0].reading));
        assert(reading.subrange(0, n) =~= reading.take(n));
    } else {
        let rest = reading.skip(n);
        let others = clauses.skip(1);
        assert(others[i - 1] == clauses[i]);
        lemma_clause_is_a_word(user, rest, others, i - 1);
        let (from, to) = choose|from: int, to: int|
            0 <= from < rest.len() && from < to <= rest.len() && registered(
                user,
                #[trigger] rest.subrange(from, to),
            );
        assert(reading.subrange(from + n, to + n) =~= rest.subrange(from, to));
    }
}

/// The model's latest word on a reading behind a context.
pub open spec fn converted(
    answers: AnswersView,
    reading: Seq<char>,
    context: Seq<char>,
    answer: ConvertedView,
) -> bool {
    exists|i: int|
        {
            &&& 0 <= i < answers.converted.len()
            &&& #[trigger] answers.converted[i] == answer
            &&& answer.reading == reading
            &&& answer.context == context
            &&& forall|j: int|
                i < j < answers.converted.len() ==> !((#[trigger] answers.converted[j]).reading
                    == reading && answers.converted[j].context == context)
        }
}

/// The end of a text that a model may see.
pub open spec fn visible_end(text: Seq<char>, limit: int, end: Seq<char>) -> bool {
    &&& end.len() == if text.len() <= limit {
        text.len() as int
    } else {
        limit
    }
    &&& end == text.skip(text.len() - end.len())
}

/// What becomes of text without a registered word: the model's conversion,
/// behind what is on its left, where there is one that does not look like an
/// invention; else it stays.
pub open spec fn converted_piece(
    e: EngineView,
    left: Seq<char>,
    reading: Seq<char>,
    text: Seq<char>,
    answers: AnswersView,
) -> bool {
    if e.kanji is None || !(exists|i: int|
        0 <= i < reading.len() && kana::kana(#[trigger] reading[i])) {
        text == reading
    } else {
        exists|context: Seq<char>, answer: ConvertedView|
            {
                &&& visible_end(left, e.config.max_api_context_len as int, context)
                &&& #[trigger] converted(answers, reading, context, answer)
                &&& text == if answer.text is Some && !kana::suspicious(reading, answer.text->0) {
                    answer.text->0
                } else {
                    reading
                }
            }
    }
}

/// A text is made of one piece for each clause: a registered word gives its
/// surface, other text what the model makes of it.
pub open spec fn made_of(
    e: EngineView,
    left: Seq<char>,
    clauses: Seq<SpanView>,
    texts: Seq<Seq<char>>,
    answers: AnswersView,
) -> bool {
    &&& texts.len() == clauses.len()
    &&& forall|k: int|
        0 <= k < clauses.len() ==> match (#[trigger] clauses[k]).fixed {
            Some(surface) => texts[k] == surface,
            None => converted_piece(
                e,
                left + joined(texts.take(k)),
                clauses[k].reading,
                texts[k],
                answers,
            ),
        }
}

proof fn lemma_converted(list: Seq<ConvertedView>, reading: Seq<char>, context: Seq<char>)
    ensures
        match consult::conversion_for(list, reading, context) {
            Some(answer) => exists|i: int|
                {
                    &&& 0 <= i < list.len()
                    &&& #[trigger] list[i] == answer
                    &&& answer.reading == reading
                    &&& answer.context == context
                    &&& forall|j: int|
                        i < j < list.len() ==> !((#[trigger] list[j]).reading == reading
                            && list[j].context == context)
                },
            None => forall|i: int|
                0 <= i < list.len() ==> !((#[trigger] list[i]).reading == reading && list[i].context
                    == context),
        },
    decreases list.len(),
{
    if list.len() > 0 {
        let last = list.len() - 1;
        if list.last().reading == reading && list.last().context == context {
            assert(list[last] == list.last());
        } else {
            let before = list.drop_last();
            lemma_converted(before, reading, context);
            match consult::conversion_for(before, reading, context) {
                Some(answer) => {
                    let i = choose|i: int|
                        {
                            &&& 0 <= i < before.len()
                            &&& #[trigger] before[i] == answer
                            &&& answer.reading == reading
                            &&& answer.context == context
                            &&& forall|j: int|
                                i < j < before.len() ==> !((#[trigger] before[j]).reading == reading
                                    && before[j].context == context)
                        };
                    assert(list[i] == answer);
                    assert forall|j: int| i < j < list.len() implies !((#[trigger] list[j]).reading
                        == reading && list[j].context == context) by {
                        if j < last {
                            assert(list[j] == before[j]);
                        }
                    }
                },
                None => {
                    assert forall|i: int| 0 <= i < list.len() implies !((
                    #[trigger] list[i]).reading == reading && list[i].context == context) by {
                        if i < last {
                            assert(list[i] == before[i]);
                        }
                    }
                },
            }
        }
    }
}

proof fn lemma_has_kana(reading: Seq<char>)
    ensures
        kana::any_char(reading, |c: char| kana::kana(c)) <==> exists|i: int|
            0 <= i < reading.len() && kana::kana(#[trigger] reading[i]),
{
    let p = |c: char| kana::kana(c);
    if kana::any_char(reading, p) {
        let i = choose|i: int| 0 <= i < reading.len() && p(#[trigger] reading[i]);
        assert(kana::kana(reading[i]));
    }
    if exists|i: int| 0 <= i < reading.len() && kana::kana(#[trigger] reading[i]) {
        let i = choose|i: int| 0 <= i < reading.len() && kana::kana(#[trigger] reading[i]);
        assert(p(reading[i]));
    }
}

/// What is asked while typing: a stretch without a registered word, behind
/// what is on its left, that the model has not said anything of.
pub open spec fn asks_to_convert(
    e: EngineView,
    clauses: Seq<SpanView>,
    answers: AnswersView,
    question: QuestionView,
) -> bool {
    &&& e.kanji is Some
    &&& question matches QuestionView::Convert { reading, context }
    &&& context.len() <= e.config.max_api_context_len
    &&& exists|k: int|
        0 <= k < clauses.len() && (#[trigger] clauses[k]).fixed is None && clauses[k].reading
            == reading
    &&& forall|i: int|
        0 <= i < answers.converted.len() ==> !((#[trigger] answers.converted[i]).reading == reading
            && answers.converted[i].context == context)
}

proof fn lemma_made_of(
    e: EngineView,
    left: Seq<char>,
    clauses: Seq<SpanView>,
    answers: AnswersView,
    n: int,
) -> (texts: Seq<Seq<char>>)
    requires
        0 <= n <= clauses.len(),
    ensures
        match model::with_spans(e, clauses, left, answers, n) {
            Ok(text) => made_of(e, left, clauses.take(n), texts, answers) && joined(texts) == text,
            Err(question) => asks_to_convert(e, clauses, answers, question),
        },
    decreases n,
{
    if n == 0 {
        Seq::empty()
    } else {
        let before = lemma_made_of(e, left, clauses, answers, n - 1);
        match model::with_spans(e, clauses, left, answers, n - 1) {
            Err(_) => before,
            Ok(so_far) => {
                let own = clauses[n - 1];
                let context = engine::tail_of(left + so_far, e.config.max_api_context_len as int);
                assert(visible_end(left + so_far, e.config.max_api_context_len as int, context)) by {
                    let all = left + so_far;
                    assert(context =~= all.skip(all.len() - context.len()));
                }
                lemma_has_kana(own.reading);
                lemma_converted(answers.converted, own.reading, context);
                let piece = match own.fixed {
                    Some(surface) => surface,
                    None => match consult::conversion_for(answers.converted, own.reading, context) {
                        Some(answer) => if e.kanji is Some && kana::any_char(
                            own.reading,
                            |c: char| kana::kana(c),
                        ) && answer.text is Some && !kana::suspicious(
                            own.reading,
                            answer.text->0,
                        ) {
                            answer.text->0
                        } else {
                            own.reading
                        },
                        None => own.reading,
                    },
                };
                let texts = before.push(piece);
                assert(texts.drop_last() =~= before);
                match model::with_spans(e, clauses, left, answers, n) {
                    Ok(text) => {
                        assert(text == so_far + piece);
                        let front = clauses.take(n);
                        assert forall|k: int| 0 <= k < front.len() implies match (
                        #[trigger] front[k]).fixed {
                            Some(surface) => texts[k] == surface,
                            None => converted_piece(
                                e,
                                left + joined(texts.take(k)),
                                front[k].reading,
                                texts[k],
                                answers,
                            ),
                        } by {
                            assert(texts.take(k) =~= before.take(k));
                            if k < n - 1 {
                                assert(clauses.take(n - 1)[k] == front[k]);
                            } else {
                                assert(before.take(n - 1) =~= before);
                                if own.fixed is None && e.kanji is Some && kana::any_char(
                                    own.reading,
                                    |c: char| kana::kana(c),
                                ) {
                                    let answer = consult::conversion_for(
                                        answers.converted,
                                        own.reading,
                                        context,
                                    )->0;
                                    assert(converted(answers, own.reading, context, answer));
                                }
                            }
                        }
                    },
                    Err(_) => {
                        assert(clauses[n - 1].fixed is None);
                    },
                }
                texts
            },
        }
    }
}

/// A text is one piece for each clause of a reading that is cut at its
/// registered words and nowhere else: the registered surface of a word, and
/// what the model makes of other text.
pub open spec fn piecewise(
    e: EngineView,
    reading: Seq<char>,
    left: Seq<char>,
    answers: AnswersView,
    text: Seq<char>,
) -> bool {
    exists|clauses: Seq<SpanView>, texts: Seq<Seq<char>>|
        {
            &&& cut_at_words(e.user, reading, clauses)
            &&& cut_nowhere_else(clauses)
            &&& #[trigger] made_of(e, left, clauses, texts, answers)
            &&& joined(texts) == text
        }
}

/// The model is asked for such a piece that is no registered word.
pub open spec fn asks_for_a_piece(
    e: EngineView,
    reading: Seq<char>,
    answers: AnswersView,
    question: QuestionView,
) -> bool {
    exists|clauses: Seq<SpanView>|
        {
            &&& cut_at_words(e.user, reading, clauses)
            &&& cut_nowhere_else(clauses)
            &&& #[trigger] asks_to_convert(e, clauses, answers, question)
        }
}

/// What conversion while typing gives is one piece for each clause of the
/// reading, which is cut at its registered words and nowhere else: a
/// registered word gives its registered surface, wherever it stands, and other
/// text what the model makes of it behind all that is on its left. Where the
/// model has still to be asked, it is asked for such a stretch.
pub proof fn law_what_is_converted_while_typing(
    e: EngineView,
    reading: Seq<char>,
    left: Seq<char>,
    answers: AnswersView,
)
    ensures
        match model::auto_text(e, reading, left, answers) {
            Ok(text) => piecewise(e, reading, left, answers, text),
            Err(question) => asks_for_a_piece(e, reading, answers, question),
        },
{
    let limit = segmentation::clause_limit(e.config.composing_chunk_len as int);
    let clauses = segmentation::registered_clauses(
        e.user,
        e.system,
        limit,
        false,
        reading,
        Seq::empty(),
    );
    law_a_reading_is_cut_at_its_words(e.user, e.system, limit, false, reading);
    let texts = lemma_made_of(e, left, clauses, answers, clauses.len() as int);
    assert(clauses.take(clauses.len() as int) =~= clauses);
}

} // verus!
