//! Cutting a reading into clauses at dictionary words.

use vstd::prelude::*;
use vstd::string::StringExecFns;
use crate::dictionary;
use crate::spans;
use crate::dictionary::{Dictionary, longest_system_reading_prefix, longest_user_dict_prefix};
use crate::dictionary::EntryView;
use crate::lists::{add_item, add_items};
use crate::spans::{ReadingSpan, SpanView};
use crate::text::chars_of;

verus! {

/// Clauses for explicit conversion are kept this short, so that moving
/// between them chooses a useful clause even where live conversion works on
/// larger chunks.
pub const MAX_EXPLICIT_SEGMENT_CHARS: usize = 8;

/// The longest clause that is cut out of a reading without a word to guide
/// the cut.
pub open spec fn clause_limit(chunk_len: int) -> int {
    if chunk_len < 1 {
        1
    } else if chunk_len > MAX_EXPLICIT_SEGMENT_CHARS {
        MAX_EXPLICIT_SEGMENT_CHARS as int
    } else {
        chunk_len
    }
}

/// The characters gathered so far as one free span; none where there are no
/// characters.
pub open spec fn gathered(pending: Seq<char>) -> Seq<SpanView> {
    if pending.len() == 0 {
        Seq::empty()
    } else {
        seq![spans::free_span(pending)]
    }
}

/// A reading without registered words, cut at the longest dictionary words;
/// what lies between words is cut into clauses of `limit` characters.
/// `pending` holds the characters since the last cut.
pub open spec fn free_clauses(
    system: Option<Seq<EntryView>>,
    limit: int,
    rest: Seq<char>,
    pending: Seq<char>,
) -> Seq<SpanView>
    decreases rest.len(),
{
    if rest.len() == 0 {
        gathered(pending)
    } else {
        match dictionary::longest_reading(system, rest) {
            Some(word) => {
                proof {
                    lemma_longest_reading(system, rest);
                }
                gathered(pending) + seq![spans::free_span(word)] + free_clauses(
                    system,
                    limit,
                    rest.skip(word.len() as int),
                    Seq::empty(),
                )
            },
            None => {
                let more = pending.push(rest[0]);
                if more.len() >= limit {
                    seq![spans::free_span(more)] + free_clauses(
                        system,
                        limit,
                        rest.skip(1),
                        Seq::empty(),
                    )
                } else {
                    free_clauses(system, limit, rest.skip(1), more)
                }
            },
        }
    }
}

/// What becomes of the text between two registered words: it is cut further
/// where asked, else it stays one free span.
pub open spec fn between_words(
    system: Option<Seq<EntryView>>,
    limit: int,
    split_free: bool,
    pending: Seq<char>,
) -> Seq<SpanView> {
    if pending.len() > 0 && split_free {
        free_clauses(system, limit, pending, Seq::empty())
    } else {
        gathered(pending)
    }
}

/// A reading cut at its registered words, the longest first at each place,
/// each pinned to its registered surface.
pub open spec fn registered_clauses(
    user: Option<Seq<EntryView>>,
    system: Option<Seq<EntryView>>,
    limit: int,
    split_free: bool,
    rest: Seq<char>,
    pending: Seq<char>,
) -> Seq<SpanView>
    decreases rest.len(),
{
    if rest.len() == 0 {
        between_words(system, limit, split_free, pending)
    } else {
        match dictionary::longest_registered(user, rest) {
            Some((word, surface)) => {
                proof {
                    lemma_longest_registered(user, rest);
                }
                between_words(system, limit, split_free, pending) + seq![
                    SpanView { reading: word, fixed: Some(surface) },
                ] + registered_clauses(
                    user,
                    system,
                    limit,
                    split_free,
                    rest.skip(word.len() as int),
                    Seq::empty(),
                )
            },
            None => registered_clauses(
                user,
                system,
                limit,
                split_free,
                rest.skip(1),
                pending.push(rest[0]),
            ),
        }
    }
}

pub proof fn lemma_longest_reading(system: Option<Seq<EntryView>>, rest: Seq<char>)
    ensures
        dictionary::longest_reading(system, rest) matches Some(word) ==> {
            &&& 2 <= word.len() <= rest.len()
            &&& word == rest.take(word.len() as int)
        },
{
    if let Some(d) = system {
        dictionary::lemma_longest_is_a_word(d, rest, rest.len() as int, 2, 0);
    }
}

pub proof fn lemma_longest_registered(user: Option<Seq<EntryView>>, rest: Seq<char>)
    ensures
        dictionary::longest_registered(user, rest) matches Some((word, surface)) ==> {
            &&& 1 <= word.len() <= rest.len()
            &&& word == rest.take(word.len() as int)
        },
{
    if let Some(d) = user {
        dictionary::lemma_longest_is_a_word(d, rest, rest.len() as int, 1, 1);
    }
}

fn add_pending(spans: &mut Vec<ReadingSpan>, pending: String)
    ensures
        final(spans).deep_view() == old(spans).deep_view() + gathered(pending@),
{
    if !pending.as_str().is_empty() {
        add_item(spans, ReadingSpan { reading: pending, fixed_surface: None });
    }
    assert(spans.deep_view() =~= old(spans).deep_view() + gathered(pending@));
}

/// Cuts a reading without registered words into clauses.
pub fn split_free_reading_segments(
    system: &Option<Dictionary>,
    chunk_len: usize,
    reading: &str,
) -> (r: Vec<ReadingSpan>)
    ensures
        r.deep_view() == free_clauses(
            system.deep_view(),
            clause_limit(chunk_len as int),
            reading@,
            Seq::empty(),
        ),
{
    let chars = chars_of(reading);
    let limit: usize = if chunk_len < 1 {
        1
    } else if chunk_len > MAX_EXPLICIT_SEGMENT_CHARS {
        MAX_EXPLICIT_SEGMENT_CHARS
    } else {
        chunk_len
    };
    let ghost dict = system.deep_view();
    let ghost goal = free_clauses(dict, limit as int, reading@, Seq::empty());
    let n: usize = chars.len();
    let mut spans: Vec<ReadingSpan> = Vec::new();
    let mut pending = String::new();
    let mut pending_len: usize = 0;
    let mut index: usize = 0;
    assert(chars@.skip(0) =~= reading@);
    assert(spans.deep_view() + goal =~= goal);
    while index < n
        invariant
            index <= n,
            n == chars@.len(),
            limit >= 1,
            limit <= MAX_EXPLICIT_SEGMENT_CHARS,
            pending_len == pending@.len(),
            pending_len < limit,
            dict == system.deep_view(),
            spans.deep_view() + free_clauses(
                dict,
                limit as int,
                chars@.skip(index as int),
                pending@,
            ) == goal,
        decreases n - index,
    {
        let ghost rest = chars@.skip(index as int);
        let ghost before = spans.deep_view();
        let ghost held = pending@;
        match longest_system_reading_prefix(system, &chars, index) {
            Some(word) => {
                let len: usize = chars_of(word.as_str()).len();
                let ghost tail = free_clauses(
                    dict,
                    limit as int,
                    rest.skip(len as int),
                    Seq::empty(),
                );
                add_pending(&mut spans, pending);
                pending = String::new();
                pending_len = 0;
                add_item(&mut spans, ReadingSpan { reading: word, fixed_surface: None });
                assert(rest.skip(len as int) =~= chars@.skip(index + len));
                assert(before + (gathered(held) + seq![spans::free_span(word@)] + tail)
                    =~= spans.deep_view() + tail);
                index = index + len;
            },
            None => {
                let ghost more = held.push(rest[0]);
                pending.push(chars[index]);
                pending_len = pending_len + 1;
                index = index + 1;
                assert(rest.skip(1) =~= chars@.skip(index as int));
                if pending_len >= limit {
                    let ghost tail = free_clauses(
                        dict,
                        limit as int,
                        rest.skip(1),
                        Seq::empty(),
                    );
                    add_item(&mut spans, ReadingSpan { reading: pending, fixed_surface: None });
                    pending = String::new();
                    pending_len = 0;
                    assert(before + (seq![spans::free_span(more)] + tail) =~= spans.deep_view() + tail);
                }
            },
        }
    }
    add_pending(&mut spans, pending);
    spans
}

fn add_between(
    spans: &mut Vec<ReadingSpan>,
    system: &Option<Dictionary>,
    chunk_len: usize,
    split_free: bool,
    pending: String,
)
    ensures
        final(spans).deep_view() == old(spans).deep_view() + between_words(
            system.deep_view(),
            clause_limit(chunk_len as int),
            split_free,
            pending@,
        ),
{
    if split_free && !pending.as_str().is_empty() {
        let clauses = split_free_reading_segments(system, chunk_len, pending.as_str());
        add_items(spans, clauses);
    } else {
        add_pending(spans, pending);
    }
}

/// Cuts a reading at its registered words; the text between them is cut into
/// clauses too where `split_free` says so.
pub fn split_reading_spans_preserving_user_dict(
    user: &Option<Dictionary>,
    system: &Option<Dictionary>,
    chunk_len: usize,
    reading: &str,
    split_free: bool,
) -> (r: Vec<ReadingSpan>)
    ensures
        r.deep_view() == registered_clauses(
            user.deep_view(),
            system.deep_view(),
            clause_limit(chunk_len as int),
            split_free,
            reading@,
            Seq::empty(),
        ),
{
    let chars = chars_of(reading);
    let ghost words = user.deep_view();
    let ghost dict = system.deep_view();
    let ghost limit = clause_limit(chunk_len as int);
    let ghost goal = registered_clauses(words, dict, limit, split_free, reading@, Seq::empty());
    let n: usize = chars.len();
    let mut spans: Vec<ReadingSpan> = Vec::new();
    let mut pending = String::new();
    let mut index: usize = 0;
    assert(chars@.skip(0) =~= reading@);
    assert(spans.deep_view() + goal =~= goal);
    while index < n
        invariant
            index <= n,
            n == chars@.len(),
            words == user.deep_view(),
            dict == system.deep_view(),
            limit == clause_limit(chunk_len as int),
            spans.deep_view() + registered_clauses(
                words,
                dict,
                limit,
                split_free,
                chars@.skip(index as int),
                pending@,
            ) == goal,
        decreases n - index,
    {
        let ghost rest = chars@.skip(index as int);
        let ghost before = spans.deep_view();
        let ghost held = pending@;
        match longest_user_dict_prefix(user, &chars, index) {
            Some((word, surface)) => {
                let len: usize = chars_of(word.as_str()).len();
                let ghost tail = registered_clauses(
                    words,
                    dict,
                    limit,
                    split_free,
                    rest.skip(len as int),
                    Seq::empty(),
                );
                let ghost fixed = SpanView { reading: word@, fixed: Some(surface@) };
                add_between(&mut spans, system, chunk_len, split_free, pending);
                pending = String::new();
                add_item(
                    &mut spans,
                    ReadingSpan { reading: word, fixed_surface: Some(surface) },
                );
                assert(rest.skip(len as int) =~= chars@.skip(index + len));
                assert(before + (between_words(dict, limit, split_free, held) + seq![fixed] + tail)
                    =~= spans.deep_view() + tail);
                index = index + len;
            },
            None => {
                pending.push(chars[index]);
                index = index + 1;
                assert(rest.skip(1) =~= chars@.skip(index as int));
            },
        }
    }
    add_between(&mut spans, system, chunk_len, split_free, pending);
    spans
}

/// The text that registered words give a reading: each registered word
/// replaced by its surface, the rest unchanged.
pub open spec fn replaced_text(spans: Seq<SpanView>) -> Seq<char>
    decreases spans.len(),
{
    if spans.len() == 0 {
        Seq::empty()
    } else {
        replaced_text(spans.drop_last()) + match spans.last().fixed {
            Some(surface) => surface,
            None => spans.last().reading,
        }
    }
}

/// Some span is pinned to a surface.
pub open spec fn has_fixed(spans: Seq<SpanView>) -> bool {
    exists|i: int| 0 <= i < spans.len() && (#[trigger] spans[i]).fixed is Some
}

/// The reading with its registered words replaced; none where it holds no
/// registered word.
pub fn user_dictionary_auto_text(
    user: &Option<Dictionary>,
    system: &Option<Dictionary>,
    chunk_len: usize,
    reading: &str,
) -> (r: Option<String>)
    ensures
        ({
            let spans = registered_clauses(
                user.deep_view(),
                system.deep_view(),
                clause_limit(chunk_len as int),
                false,
                reading@,
                Seq::empty(),
            );
            r.deep_view() == if has_fixed(spans) {
                Some(replaced_text(spans))
            } else {
                None
            }
        }),
{
    let spans = split_reading_spans_preserving_user_dict(user, system, chunk_len, reading, false);
    let ghost all = spans.deep_view();
    let mut text = String::new();
    let mut has_fixed_span: bool = false;
    let mut i: usize = 0;
    while i < spans.len()
        invariant
            i <= spans@.len(),
            all == spans.deep_view(),
            text@ == replaced_text(all.take(i as int)),
            has_fixed_span == has_fixed(all.take(i as int)),
        decreases spans@.len() - i,
    {
        assert(all[i as int] == spans@[i as int].deep_view());
        assert(all.take(i + 1).drop_last() =~= all.take(i as int));
        proof {
            let now = all.take(i as int);
            let next = all.take(i + 1);
            if has_fixed(now) {
                let k = choose|k: int| 0 <= k < now.len() && (#[trigger] now[k]).fixed is Some;
                assert(next[k].fixed is Some);
            }
            if next[i as int].fixed is Some {
                assert(has_fixed(next));
            }
            if has_fixed(next) && next[i as int].fixed is None {
                let k = choose|k: int| 0 <= k < next.len() && (#[trigger] next[k]).fixed is Some;
                assert(now[k].fixed is Some);
            }
        }
        match &spans[i].fixed_surface {
            Some(surface) => {
                has_fixed_span = true;
                text.append(surface.as_str());
            },
            None => {
                text.append(spans[i].reading.as_str());
            },
        }
        i = i + 1;
    }
    assert(all.take(i as int) =~= all);
    if has_fixed_span {
        Some(text)
    } else {
        None
    }
}

proof fn lemma_gathered_reading(pending: Seq<char>)
    ensures
        spans::spans_reading(gathered(pending)) == pending,
{
    if pending.len() > 0 {
        spans::lemma_reading_of_one(spans::free_span(pending));
    } else {
        assert(pending =~= Seq::empty());
    }
}

/// Cutting a reading into clauses keeps it: the readings of the clauses, one
/// after the other, are the reading.
pub proof fn law_free_clauses_keep_the_reading(
    system: Option<Seq<EntryView>>,
    limit: int,
    rest: Seq<char>,
    pending: Seq<char>,
)
    ensures
        spans::spans_reading(free_clauses(system, limit, rest, pending)) == pending + rest,
    decreases rest.len(),
{
    lemma_gathered_reading(pending);
    if rest.len() == 0 {
        assert(pending + rest =~= pending);
    } else {
        lemma_longest_reading(system, rest);
        match dictionary::longest_reading(system, rest) {
            Some(word) => {
                let tail_text = rest.skip(word.len() as int);
                let tail = free_clauses(system, limit, tail_text, Seq::empty());
                law_free_clauses_keep_the_reading(system, limit, tail_text, Seq::empty());
                spans::lemma_reading_of_one(spans::free_span(word));
                spans::lemma_reading_of_concat(gathered(pending), seq![spans::free_span(word)]);
                spans::lemma_reading_of_concat(gathered(pending) + seq![spans::free_span(word)], tail);
                assert(pending + rest =~= pending + word + (Seq::empty() + tail_text));
            },
            None => {
                let more = pending.push(rest[0]);
                if more.len() >= limit {
                    let tail = free_clauses(system, limit, rest.skip(1), Seq::empty());
                    law_free_clauses_keep_the_reading(system, limit, rest.skip(1), Seq::empty());
                    spans::lemma_reading_of_one(spans::free_span(more));
                    spans::lemma_reading_of_concat(seq![spans::free_span(more)], tail);
                    assert(pending + rest =~= more + (Seq::empty() + rest.skip(1)));
                } else {
                    law_free_clauses_keep_the_reading(system, limit, rest.skip(1), more);
                    assert(pending + rest =~= more + rest.skip(1));
                }
            },
        }
    }
}

/// What clauses show, taken together, is what each part of them shows.
pub proof fn lemma_text_of_concat(a: Seq<SpanView>, b: Seq<SpanView>)
    ensures
        replaced_text(a + b) == replaced_text(a) + replaced_text(b),
    decreases b.len(),
{
    if b.len() == 0 {
        assert(a + b =~= a);
        assert(replaced_text(a) + replaced_text(b) =~= replaced_text(a));
    } else {
        lemma_text_of_concat(a, b.drop_last());
        assert((a + b).drop_last() =~= a + b.drop_last());
        assert(replaced_text(a + b) =~= replaced_text(a) + replaced_text(b));
    }
}

/// Free clauses show their readings.
pub proof fn lemma_text_of_free(spans: Seq<SpanView>)
    requires
        forall|i: int| 0 <= i < spans.len() ==> (#[trigger] spans[i]).fixed is None,
    ensures
        replaced_text(spans) == spans::spans_reading(spans),
    decreases spans.len(),
{
    if spans.len() > 0 {
        assert(spans[spans.len() - 1].fixed is None);
        lemma_text_of_free(spans.drop_last());
    }
}

/// No clause that is cut out of a reading is pinned, and none is empty.
pub proof fn lemma_free_clauses_are_free(
    system: Option<Seq<EntryView>>,
    limit: int,
    rest: Seq<char>,
    pending: Seq<char>,
)
    ensures
        forall|i: int|
            0 <= i < free_clauses(system, limit, rest, pending).len() ==> (#[trigger] free_clauses(
                system,
                limit,
                rest,
                pending,
            )[i]).fixed is None && free_clauses(system, limit, rest, pending)[i].reading.len() > 0,
    decreases rest.len(),
{
    if rest.len() > 0 {
        lemma_longest_reading(system, rest);
        match dictionary::longest_reading(system, rest) {
            Some(word) => {
                lemma_free_clauses_are_free(
                    system,
                    limit,
                    rest.skip(word.len() as int),
                    Seq::empty(),
                );
            },
            None => {
                let more = pending.push(rest[0]);
                if more.len() >= limit {
                    lemma_free_clauses_are_free(system, limit, rest.skip(1), Seq::empty());
                } else {
                    lemma_free_clauses_are_free(system, limit, rest.skip(1), more);
                }
            },
        }
    }
}

/// Every clause that is cut out of a reading is a dictionary word or has at
/// most `limit` characters, and none is empty.
pub proof fn law_free_clauses_are_short(
    system: Option<Seq<EntryView>>,
    limit: int,
    rest: Seq<char>,
    pending: Seq<char>,
    i: int,
)
    requires
        limit >= 1,
        pending.len() < limit,
        0 <= i < free_clauses(system, limit, rest, pending).len(),
    ensures
        ({
            let clause = free_clauses(system, limit, rest, pending)[i];
            &&& clause.fixed is None
            &&& clause.reading.len() > 0
            &&& clause.reading.len() <= limit || exists|from: int|
                0 <= from < rest.len() && dictionary::longest_reading(system, #[trigger] rest.skip(from))
                    == Some(clause.reading)
        }),
    decreases rest.len(),
{
    if rest.len() > 0 {
        lemma_longest_reading(system, rest);
        match dictionary::longest_reading(system, rest) {
            Some(word) => {
                let tail_text = rest.skip(word.len() as int);
                let head = gathered(pending) + seq![spans::free_span(word)];
                assert(rest.skip(0) =~= rest);
                if i >= head.len() {
                    law_free_clauses_are_short(
                        system,
                        limit,
                        tail_text,
                        Seq::empty(),
                        i - head.len(),
                    );
                    let clause = free_clauses(system, limit, tail_text, Seq::empty())[i
                        - head.len()];
                    if clause.reading.len() > limit {
                        let from = choose|from: int|
                            0 <= from < tail_text.len() && dictionary::longest_reading(
                                system,
                                #[trigger] tail_text.skip(from),
                            ) == Some(clause.reading);
                        assert(rest.skip(word.len() + from) =~= tail_text.skip(from));
                    }
                }
            },
            None => {
                let more = pending.push(rest[0]);
                let tail_text = rest.skip(1);
                let (held, at) = if more.len() >= limit {
                    (Seq::<char>::empty(), i - 1)
                } else {
                    (more, i)
                };
                if at >= 0 {
                    law_free_clauses_are_short(system, limit, tail_text, held, at);
                    let clause = free_clauses(system, limit, tail_text, held)[at];
                    if clause.reading.len() > limit {
                        let from = choose|from: int|
                            0 <= from < tail_text.len() && dictionary::longest_reading(
                                system,
                                #[trigger] tail_text.skip(from),
                            ) == Some(clause.reading);
                        assert(rest.skip(1 + from) =~= tail_text.skip(from));
                    }
                }
            },
        }
    }
}

proof fn lemma_between_reading(
    system: Option<Seq<EntryView>>,
    limit: int,
    split_free: bool,
    pending: Seq<char>,
)
    ensures
        spans::spans_reading(between_words(system, limit, split_free, pending)) == pending,
{
    lemma_gathered_reading(pending);
    law_free_clauses_keep_the_reading(system, limit, pending, Seq::empty());
    assert(Seq::<char>::empty() + pending =~= pending);
}

/// Cutting a reading at registered words leaves no clause without a reading.
pub proof fn lemma_registered_clauses_are_readable(
    user: Option<Seq<EntryView>>,
    system: Option<Seq<EntryView>>,
    limit: int,
    split_free: bool,
    rest: Seq<char>,
    pending: Seq<char>,
)
    ensures
        spans::readable(registered_clauses(user, system, limit, split_free, rest, pending)),
    decreases rest.len(),
{
    lemma_free_clauses_are_free(system, limit, pending, Seq::empty());
    let head = between_words(system, limit, split_free, pending);
    assert(spans::readable(head));
    if rest.len() > 0 {
        lemma_longest_registered(user, rest);
        match dictionary::longest_registered(user, rest) {
            Some((word, surface)) => {
                let tail_text = rest.skip(word.len() as int);
                lemma_registered_clauses_are_readable(
                    user,
                    system,
                    limit,
                    split_free,
                    tail_text,
                    Seq::empty(),
                );
                let tail = registered_clauses(
                    user,
                    system,
                    limit,
                    split_free,
                    tail_text,
                    Seq::empty(),
                );
                let all = registered_clauses(user, system, limit, split_free, rest, pending);
                assert forall|i: int|
                    0 <= i < all.len() && (#[trigger] all[i]).fixed is None implies all[i].reading.len()
                    > 0 by {
                    if i < head.len() {
                        assert(all[i] == head[i]);
                    } else if i > head.len() {
                        assert(all[i] == tail[i - head.len() - 1]);
                    }
                }
            },
            None => {
                lemma_registered_clauses_are_readable(
                    user,
                    system,
                    limit,
                    split_free,
                    rest.skip(1),
                    pending.push(rest[0]),
                );
            },
        }
    }
}

/// Cutting a reading at registered words keeps it.
pub proof fn law_registered_clauses_keep_the_reading(
    user: Option<Seq<EntryView>>,
    system: Option<Seq<EntryView>>,
    limit: int,
    split_free: bool,
    rest: Seq<char>,
    pending: Seq<char>,
)
    ensures
        spans::spans_reading(registered_clauses(user, system, limit, split_free, rest, pending))
            == pending + rest,
    decreases rest.len(),
{
    lemma_between_reading(system, limit, split_free, pending);
    if rest.len() == 0 {
        assert(pending + rest =~= pending);
    } else {
        lemma_longest_registered(user, rest);
        match dictionary::longest_registered(user, rest) {
            Some((word, surface)) => {
                let tail_text = rest.skip(word.len() as int);
                let fixed = SpanView { reading: word, fixed: Some(surface) };
                let head = between_words(system, limit, split_free, pending);
                let tail = registered_clauses(
                    user,
                    system,
                    limit,
                    split_free,
                    tail_text,
                    Seq::empty(),
                );
                law_registered_clauses_keep_the_reading(
                    user,
                    system,
                    limit,
                    split_free,
                    tail_text,
                    Seq::empty(),
                );
                spans::lemma_reading_of_one(fixed);
                spans::lemma_reading_of_concat(head, seq![fixed]);
                spans::lemma_reading_of_concat(head + seq![fixed], tail);
                assert(pending + rest =~= pending + word + (Seq::empty() + tail_text));
            },
            None => {
                let more = pending.push(rest[0]);
                law_registered_clauses_keep_the_reading(
                    user,
                    system,
                    limit,
                    split_free,
                    rest.skip(1),
                    more,
                );
                assert(pending + rest =~= more + rest.skip(1));
            },
        }
    }
}

} // verus!
