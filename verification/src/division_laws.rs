//! How a conversion begins, how it is divided into clauses, and how it is
//! left.

use vstd::prelude::*;
use crate::action::ActionView;
use crate::alignment;
use crate::candidate::ListView;
use crate::candidate;
use crate::clause_laws;
use crate::clauses;
use crate::consult::{AnswersView, QuestionView, StepView};
use crate::consult;
use crate::conversion;
use crate::conversion_laws;
use crate::engine::{EngineView, InputMode};
use crate::engine;
use crate::segmentation;
use crate::sources;
use crate::spans::SpanView;
use crate::spans;
use crate::state::{SegmentView, StateView};
use crate::typing_laws;

verus! {

/// The clauses of a reading: those that a surface on display is aligned to,
/// where it says something and there is more than one; else those that the
/// registered words cut. On display there is a character for each.
pub proof fn law_what_divides_a_reading(e: EngineView, reading: Seq<char>, surface: Seq<char>)
    ensures
        ({
            let chunk_len = e.config.composing_chunk_len as int;
            let found = clauses::navigation_spans(e, reading, surface);
            let aligned = alignment::aligned_clauses(
                alignment::alignment_task(e.user, e.system, chunk_len, reading, surface),
            );
            let says_something = surface.len() > 0 && surface != reading;
            &&& !says_something ==> clause_laws::cut_at_words(e.user, reading, found)
            &&& says_something && aligned is Some && aligned->0.len() > 1 ==> found
                == spans::coalesced(aligned->0, surface.len() as int)
            &&& says_something && !(aligned is Some && aligned->0.len() > 1) ==> exists|
                plain: Seq<SpanView>,
            |
                #[trigger] clause_laws::cut_at_words(e.user, reading, plain) && found
                    == spans::coalesced(plain, surface.len() as int)
        }),
{
    clause_laws::law_a_reading_is_cut_at_its_words(
        e.user,
        e.system,
        segmentation::clause_limit(e.config.composing_chunk_len as int),
        true,
        reading,
    );
}

/// What a clause out of focus keeps from the display: a pinned word, or its
/// share of a surface that says something.
pub open spec fn keeps(
    spans: Seq<SpanView>,
    reading: Seq<char>,
    surface: Seq<char>,
    k: int,
) -> Option<Seq<char>> {
    if spans[k].fixed is Some {
        spans[k].fixed
    } else if surface.len() > 0 && surface != reading {
        spans::laid_out(surface, spans)[k]
    } else {
        None
    }
}

/// All that a reading has, with a text that is kept in front, where there is
/// one.
pub open spec fn whole_list(
    e: EngineView,
    reading: Seq<char>,
    kept: Option<Seq<char>>,
    skip_learning: bool,
    answers: AnswersView,
    list: ListView,
) -> bool {
    match kept {
        Some(text) => conversion_laws::offers_first(
            e,
            reading,
            text,
            skip_learning,
            answers,
            list,
        ),
        None => conversion_laws::offers(e, reading, skip_learning, answers, list),
    }
}

/// A clause out of focus: the first candidate of its whole list, which begins
/// with the text it keeps, where it keeps one.
pub open spec fn rests(
    e: EngineView,
    reading: Seq<char>,
    kept: Option<Seq<char>>,
    skip_learning: bool,
    answers: AnswersView,
    segment: SegmentView,
) -> bool {
    &&& segment.reading == reading
    &&& segment.needs_expansion
    &&& segment.candidates.cursor == 0
    &&& segment.candidates.candidates.len() == 1
    &&& exists|list: ListView|
        {
            &&& list.candidates.len() > 0
            &&& list.candidates[0] == segment.candidates.candidates[0]
            &&& #[trigger] whole_list(e, reading, kept, skip_learning, answers, list)
        }
}

proof fn lemma_offered(
    e: EngineView,
    reading: Seq<char>,
    kept: Option<Seq<char>>,
    skip_learning: bool,
    answers: AnswersView,
)
    requires
        e.mode.current != InputMode::Emoji,
        kept matches Some(text) ==> text.len() > 0,
    ensures
        match clauses::offered(e, reading, kept, skip_learning, answers) {
            Ok(list) => {
                &&& list.candidates.len() > 0
                &&& list.cursor == 0
                &&& whole_list(e, reading, kept, skip_learning, answers, list)
            },
            Err(question) => conversion_laws::asks(e, reading, answers, question),
        },
{
    match kept {
        Some(text) => {
            conversion_laws::law_a_text_on_display_stays_in_front(
                e,
                reading,
                text,
                skip_learning,
                answers,
            );
        },
        None => {
            conversion_laws::law_a_reading_is_offered_all_it_has(
                e,
                reading,
                skip_learning,
                answers,
            );
            if let Ok(list) = clauses::offered(e, reading, kept, skip_learning, answers) {
                let advice = consult::advice_for(answers.advice, reading)->0;
                sources::law_kana_forms_are_offered(
                    engine::setting(e),
                    reading,
                    advice,
                    skip_learning,
                );
                let shown = sources::conversion_candidates(
                    engine::setting(e),
                    reading,
                    advice,
                    skip_learning,
                );
                assert(candidate::has_text(shown, reading));
                assert(list.candidates.len() == shown.len());
            }
        },
    }
}

/// Clauses out of focus rest, one for each span.
pub open spec fn all_rest(
    e: EngineView,
    spans: Seq<SpanView>,
    reading: Seq<char>,
    surface: Seq<char>,
    skip_learning: bool,
    answers: AnswersView,
    segments: Seq<SegmentView>,
) -> bool {
    forall|k: int|
        0 <= k < segments.len() ==> rests(
            e,
            spans[k].reading,
            keeps(spans, reading, surface, k),
            skip_learning,
            answers,
            #[trigger] segments[k],
        )
}

proof fn lemma_resting(
    e: EngineView,
    spans: Seq<SpanView>,
    reading: Seq<char>,
    surface: Seq<char>,
    skip_learning: bool,
    answers: AnswersView,
    n: int,
)
    requires
        e.mode.current != InputMode::Emoji,
        0 <= n <= spans.len(),
        forall|k: int|
            0 <= k < spans.len() ==> (#[trigger] keeps(spans, reading, surface, k) matches Some(
                text,
            ) ==> text.len() > 0),
    ensures
        match clauses::resting_clauses(e, spans, reading, surface, skip_learning, answers, n) {
            Ok(segments) => segments.len() == n && all_rest(
                e,
                spans,
                reading,
                surface,
                skip_learning,
                answers,
                segments,
            ),
            Err(question) => exists|k: int|
                0 <= k < spans.len() && conversion_laws::asks(
                    e,
                    (#[trigger] spans[k]).reading,
                    answers,
                    question,
                ),
        },
    decreases n,
{
    if n > 0 {
        lemma_resting(e, spans, reading, surface, skip_learning, answers, n - 1);
        let own = spans[n - 1].reading;
        let kept = keeps(spans, reading, surface, n - 1);
        assert(kept == clauses::kept_text(spans, reading, surface, n - 1));
        lemma_offered(e, own, kept, skip_learning, answers);
        if let Ok(before) = clauses::resting_clauses(
            e,
            spans,
            reading,
            surface,
            skip_learning,
            answers,
            n - 1,
        ) {
            match clauses::offered(e, own, kept, skip_learning, answers) {
                Ok(list) => {
                    let segment = clauses::placeholder(own, list.candidates[0]);
                    assert(rests(e, own, kept, skip_learning, answers, segment)) by {
                        assert(list.candidates[0] == segment.candidates.candidates[0]);
                        assert(whole_list(e, own, kept, skip_learning, answers, list));
                    }
                    let after = before.push(segment);
                    assert forall|k: int| 0 <= k < after.len() implies rests(
                        e,
                        spans[k].reading,
                        keeps(spans, reading, surface, k),
                        skip_learning,
                        answers,
                        #[trigger] after[k],
                    ) by {
                        if k < before.len() {
                            assert(after[k] == before[k]);
                        }
                    }
                },
                Err(question) => {
                    assert(conversion_laws::asks(e, spans[n - 1].reading, answers, question));
                },
            }
        }
    }
}

/// The clauses to move among are one for each clause of the reading, in order,
/// each with the candidate that its whole list would select; where the reading
/// is a single clause there are none. What is not known of a clause is asked.
pub proof fn law_clauses_to_move_among(
    e: EngineView,
    reading: Seq<char>,
    surface: Seq<char>,
    skip_learning: bool,
    answers: AnswersView,
)
    requires
        e.mode.current != InputMode::Emoji,
        forall|k: int|
            0 <= k < clauses::navigation_spans(e, reading, surface).len() ==> (#[trigger] keeps(
                clauses::navigation_spans(e, reading, surface),
                reading,
                surface,
                k,
            ) matches Some(text) ==> text.len() > 0),
    ensures
        ({
            let spans = clauses::navigation_spans(e, reading, surface);
            match clauses::navigation_clauses(e, reading, surface, skip_learning, answers) {
                Ok(segments) => {
                    &&& spans.len() <= 1 ==> segments.len() == 0
                    &&& spans.len() > 1 ==> segments.len() == spans.len() && all_rest(
                        e,
                        spans,
                        reading,
                        surface,
                        skip_learning,
                        answers,
                        segments,
                    )
                },
                Err(question) => exists|k: int|
                    0 <= k < spans.len() && conversion_laws::asks(
                        e,
                        (#[trigger] spans[k]).reading,
                        answers,
                        question,
                    ),
            }
        }),
{
    let spans = clauses::navigation_spans(e, reading, surface);
    if spans.len() > 1 {
        lemma_resting(
            e,
            spans,
            reading,
            surface,
            skip_learning,
            answers,
            spans.len() as int,
        );
    }
}

/// A conversion of the whole reading as one clause: all that the reading has,
/// with the text converted while typing in front, where there is one.
pub open spec fn one_clause(
    e: EngineView,
    skip_learning: bool,
    answers: AnswersView,
    list: ListView,
) -> bool {
    let kept = if e.live_text.len() > 0 {
        Some(e.live_text)
    } else {
        None
    };
    whole_list(e, e.text, kept, skip_learning, answers, list)
}

/// The clauses that a text on display is divided into, the first one in focus
/// with its whole list, its own text in front.
pub open spec fn several_clauses(
    e: EngineView,
    shown: Seq<char>,
    skip_learning: bool,
    answers: AnswersView,
    segments: Seq<SegmentView>,
    i: int,
) -> bool {
    clauses::navigation_clauses(e, e.text, shown, skip_learning, answers) matches Ok(apart)
        && apart.len() > 1 && segments.len() == apart.len() && (forall|k: int|
        0 <= k < segments.len() && k != i ==> #[trigger] segments[k] == apart[k])
        && segments[i].reading == apart[i].reading && !segments[i].needs_expansion && (
    apart[i].needs_expansion && conversion_laws::clause_text(apart[i]).len() > 0 && (
    conversion_laws::clause_text(apart[i]) != apart[i].reading || e.mode.current
        != InputMode::Emoji) ==> conversion_laws::offers_first(
        e,
        apart[i].reading,
        conversion_laws::clause_text(apart[i]),
        skip_learning,
        answers,
        segments[i].candidates,
    ))
}

/// A conversion that has begun: one clause, where what its list selects is not
/// divided, else the clauses that this text is divided into, the first one in
/// focus.
pub open spec fn has_begun(
    f: EngineView,
    skip_learning: bool,
    answers: AnswersView,
    list: ListView,
    segments: Seq<SegmentView>,
) -> bool {
    &&& one_clause(f, skip_learning, answers, list)
    &&& list.candidates.len() > 0
    &&& {
        let shown = list.candidates[0].text;
        ||| {
            &&& segments.len() == 1
            &&& segments[0].reading == f.text
            &&& segments[0].candidates == list
            &&& !segments[0].needs_expansion
            &&& clauses::navigation_clauses(f, f.text, shown, skip_learning, answers) matches Ok(
                apart,
            )
            &&& apart.len() <= 1
        }
        ||| several_clauses(f, shown, skip_learning, answers, segments, 0)
    }
}

/// A reading of which nothing is known is asked for.
pub open spec fn asks_for_some(e: EngineView, answers: AnswersView, question: QuestionView) -> bool {
    exists|reading: Seq<char>| #[trigger] conversion_laws::asks(e, reading, answers, question)
}

proof fn lemma_offered_asks(
    e: EngineView,
    reading: Seq<char>,
    kept: Option<Seq<char>>,
    skip_learning: bool,
    answers: AnswersView,
)
    ensures
        clauses::offered(e, reading, kept, skip_learning, answers) matches Err(question)
            ==> asks_for_some(e, answers, question),
{
    conversion_laws::law_a_reading_is_offered_all_it_has(e, reading, skip_learning, answers);
    if let Err(question) = clauses::offered(e, reading, kept, skip_learning, answers) {
        assert(clauses::offered(e, reading, None, skip_learning, answers) == Err::<
            ListView,
            QuestionView,
        >(question));
        assert(conversion_laws::asks(e, reading, answers, question));
    }
}

proof fn lemma_resting_asks(
    e: EngineView,
    spans: Seq<SpanView>,
    reading: Seq<char>,
    surface: Seq<char>,
    skip_learning: bool,
    answers: AnswersView,
    n: int,
)
    ensures
        clauses::resting_clauses(
            e,
            spans,
            reading,
            surface,
            skip_learning,
            answers,
            n,
        ) matches Err(question) ==> asks_for_some(e, answers, question),
    decreases n,
{
    if n > 0 {
        lemma_resting_asks(e, spans, reading, surface, skip_learning, answers, n - 1);
        lemma_offered_asks(
            e,
            spans[n - 1].reading,
            clauses::kept_text(spans, reading, surface, n - 1),
            skip_learning,
            answers,
        );
    }
}

proof fn lemma_division_asks(
    e: EngineView,
    shown: Seq<char>,
    skip_learning: bool,
    answers: AnswersView,
)
    ensures
        clauses::navigation_clauses(e, e.text, shown, skip_learning, answers) matches Err(question)
            ==> asks_for_some(e, answers, question),
{
    let spans = clauses::navigation_spans(e, e.text, shown);
    lemma_resting_asks(
        e,
        spans,
        e.text,
        shown,
        skip_learning,
        answers,
        spans.len() as int,
    );
}

/// Starting a conversion of what was typed, with pending romaji turned into
/// kana: all that the reading has, with the text on display in front, divided
/// into clauses where that text is; where it has nothing, as it may where an
/// emoji is looked for, it goes on being composed. The text converted while
/// typing is given up, and what was typed stays, as do dictionaries, models
/// and settings. What is not known is asked.
pub proof fn law_starting_a_conversion(e: EngineView, skip_learning: bool, answers: AnswersView)
    requires
        e.mode.current != InputMode::Emoji || e.live_text.len() == 0,
    ensures
        match (conversion::flushed(e, answers), conversion::started(e, skip_learning, answers)) {
            (Err(asked), r) => r matches Err(question) && question == asked,
            (Ok(f), Err(question)) => asks_for_some(f, answers, question),
            (Ok(f), Ok((after, result))) => {
                &&& after.text == f.text
                &&& after.live_text.len() == 0
                &&& after.cursor == 0
                &&& after.romaji.len() == 0
                &&& after == EngineView {
                    state: after.state,
                    text: after.text,
                    live_text: after.live_text,
                    cursor: after.cursor,
                    romaji: after.romaji,
                    ..e
                }
                &&& result.consumed
                &&& forall|k: int|
                    0 <= k < result.actions.len() ==> !(#[trigger] result.actions[k] is Commit)
                &&& f.text.len() == 0 ==> after.state == e.state && result.actions.len() == 0
                &&& f.text.len() > 0 ==> match after.state {
                    StateView::Conversion { segments, active_segment, skip_learning: skip, .. } => {
                        &&& active_segment == 0
                        &&& skip == skip_learning
                        &&& exists|list: ListView|
                            #[trigger] has_begun(f, skip_learning, answers, list, segments)
                    },
                    StateView::Composing { preedit, romaji_buffer } => {
                        &&& e.mode.current == InputMode::Emoji
                        &&& exists|list: ListView|
                            #[trigger] one_clause(f, skip_learning, answers, list)
                                && list.candidates.len() == 0
                        &&& preedit.text == f.text && preedit.caret == f.text.len()
                        &&& romaji_buffer.len() == 0
                        &&& result.actions.contains(ActionView::UpdatePreedit(preedit))
                    },
                    StateView::Empty => false,
                }
            },
        },
{
    if let Ok(f) = conversion::flushed(e, answers) {
        if f.text.len() > 0 {
            let kept = conversion::previous(f);
            lemma_offered_asks(f, f.text, kept, skip_learning, answers);
            if e.mode.current != InputMode::Emoji {
                lemma_offered(f, f.text, kept, skip_learning, answers);
            } else {
                conversion_laws::law_a_reading_is_offered_all_it_has(
                    f,
                    f.text,
                    skip_learning,
                    answers,
                );
            }
            if let Ok(list) = clauses::offered(f, f.text, kept, skip_learning, answers) {
                assert(one_clause(f, skip_learning, answers, list));
                if list.candidates.len() > 0 {
                    lemma_begun(f, skip_learning, answers, list);
                } else if let Ok((after, result)) = conversion::started(e, skip_learning, answers) {
                    assert(result.actions[0] == ActionView::UpdatePreedit(
                        after.state->Composing_preedit,
                    ));
                }
            }
        }
    }
}

proof fn lemma_begun(
    f: EngineView,
    skip_learning: bool,
    answers: AnswersView,
    list: ListView,
)
    requires
        f.text.len() > 0,
        clauses::offered(f, f.text, conversion::previous(f), skip_learning, answers) == Ok::<
            ListView,
            QuestionView,
        >(list),
        list.candidates.len() > 0,
        list.cursor == 0,
        one_clause(f, skip_learning, answers, list),
    ensures
        match conversion::begun(f, skip_learning, answers) {
            Ok((after, result)) => after.state is Conversion && has_begun(
                f,
                skip_learning,
                answers,
                list,
                after.state->segments,
            ) && after.state->active_segment == 0,
            Err(question) => asks_for_some(f, answers, question),
        },
{
    let shown = list.candidates[0].text;
    assert(candidate::selected_or(list, f.text) == shown);
    lemma_division_asks(f, shown, skip_learning, answers);
    if let Ok(apart) = clauses::navigation_clauses(f, f.text, shown, skip_learning, answers) {
        if apart.len() > 1 {
            let first = apart[0];
            let text = conversion_laws::clause_text(first);
            assert(clauses::segment_text(first) == text);
            lemma_offered_asks(f, first.reading, Some(text), skip_learning, answers);
            if first.needs_expansion && text.len() > 0 && (text != first.reading
                || f.mode.current != InputMode::Emoji) {
                conversion_laws::law_a_text_on_display_stays_in_front(
                    f,
                    first.reading,
                    text,
                    skip_learning,
                    answers,
                );
            }
        }
    }
}

/// Moving the focus in a conversion that is one clause so far divides what it
/// shows: forward goes to the second clause, backward to the last. Where it is
/// not divided nothing happens.
pub proof fn law_dividing_a_conversion(
    e: EngineView,
    segments: Seq<SegmentView>,
    skip_learning: bool,
    forward: bool,
    answers: AnswersView,
)
    requires
        conversion_laws::converts(e, segments, 0, skip_learning),
        segments.len() == 1,
    ensures
        ({
            let shown = conversion_laws::clause_text(segments[0]);
            &&& conversion::refocused(e, forward, answers) matches Err(question) ==> asks_for_some(
                e,
                answers,
                question,
            )
            &&& conversion::refocused(e, forward, answers) matches Ok((after, result)) ==> {
                &&& clauses::navigation_clauses(e, e.text, shown, skip_learning, answers) matches Ok(
                    apart,
                )
                &&& conversion_laws::only_the_state_differs(e, after)
                &&& apart.len() <= 1 ==> after == e && result.consumed && result.actions.len() == 0
                &&& apart.len() > 1 ==> {
                    &&& after.state matches StateView::Conversion {
                        segments: changed,
                        active_segment,
                        skip_learning: skip,
                        ..
                    }
                    &&& skip == skip_learning
                    &&& active_segment == if forward {
                        1
                    } else {
                        apart.len() - 1
                    }
                    &&& several_clauses(
                        e,
                        shown,
                        skip_learning,
                        answers,
                        changed,
                        active_segment,
                    )
                }
            }
        }),
{
    let shown = conversion_laws::clause_text(segments[0]);
    assert(segments.drop_last() =~= Seq::empty());
    assert(clauses::chosen_text(segments.drop_last()) =~= Seq::empty());
    assert(clauses::chosen_text(segments) =~= shown);
    lemma_division_asks(e, shown, skip_learning, answers);
    if let Ok(apart) = clauses::navigation_clauses(e, e.text, shown, skip_learning, answers) {
        if apart.len() > 1 {
            let i = if forward {
                1
            } else {
                apart.len() - 1
            };
            let own = apart[i];
            let text = conversion_laws::clause_text(own);
            assert(clauses::segment_text(own) == text);
            lemma_offered_asks(e, own.reading, Some(text), skip_learning, answers);
            if own.needs_expansion && text.len() > 0 && (text != own.reading || e.mode.current
                != InputMode::Emoji) {
                conversion_laws::law_a_text_on_display_stays_in_front(
                    e,
                    own.reading,
                    text,
                    skip_learning,
                    answers,
                );
            }
        }
    }
}

/// The pending romaji, character by character, while a reading is typed anew.
pub open spec fn typed_anew(
    reading: Seq<char>,
    answers: AnswersView,
    pending: Seq<Seq<char>>,
) -> bool {
    &&& pending.len() > 0
    &&& pending[0].len() == 0
    &&& pending.len() <= reading.len() + 1
    &&& forall|k: int| 0 <= k < pending.len() - 1 ==> #[trigger] goes_on(reading, answers, pending, k)
}

/// A character makes the next pending romaji of the one before.
pub open spec fn goes_on(
    reading: Seq<char>,
    answers: AnswersView,
    pending: Seq<Seq<char>>,
    k: int,
) -> bool {
    exists|step: StepView|
        #[trigger] typing_laws::makes(answers, pending[k], reading[k], step) && step.rest
            == pending[k + 1]
}

proof fn lemma_replayed(reading: Seq<char>, n: int, answers: AnswersView) -> (pending: Seq<
    Seq<char>,
>)
    requires
        0 <= n <= reading.len(),
    ensures
        typed_anew(reading, answers, pending),
        match conversion::replayed(reading, n, answers) {
            Ok(rest) => pending.len() == n + 1 && pending.last() == rest,
            Err(question) => question matches QuestionView::Type { buffer, ch } && pending.len()
                <= n && buffer == pending.last() && ch == reading[pending.len() - 1] && forall|
                i: int,
            |
                0 <= i < answers.typed.len() ==> !((#[trigger] answers.typed[i]).buffer == buffer
                    && answers.typed[i].ch == ch),
        },
    decreases n,
{
    if n == 0 {
        seq![Seq::empty()]
    } else {
        let before = lemma_replayed(reading, n - 1, answers);
        match conversion::replayed(reading, n - 1, answers) {
            Err(_) => before,
            Ok(buffer) => {
                typing_laws::lemma_step_for(answers.typed, buffer, reading[n - 1]);
                match consult::step_for(answers.typed, buffer, reading[n - 1]) {
                    None => before,
                    Some(step) => {
                        let pending = before.push(step.rest);
                        assert(typing_laws::makes(answers, buffer, reading[n - 1], step));
                        assert forall|k: int| 0 <= k < pending.len() - 1 implies #[trigger] goes_on(
                            reading,
                            answers,
                            pending,
                            k,
                        ) by {
                            assert(pending[k] == before[k]);
                            if k < n - 1 {
                                assert(goes_on(reading, answers, before, k));
                                let s = choose|s: StepView|
                                    #[trigger] typing_laws::makes(
                                        answers,
                                        before[k],
                                        reading[k],
                                        s,
                                    ) && s.rest == before[k + 1];
                                assert(typing_laws::makes(answers, pending[k], reading[k], s));
                            } else {
                                assert(typing_laws::makes(answers, pending[k], reading[k], step));
                            }
                        }
                        pending
                    },
                }
            },
        }
    }
}

/// Leaving a conversion gives the reading back, to be composed on at its end;
/// romaji that the reading ends with is pending again. Nothing is committed,
/// the candidates go, and nothing else changes.
pub proof fn law_leaving_a_conversion(e: EngineView, answers: AnswersView)
    requires
        e.state is Conversion,
        e.text.len() > 0,
    ensures
        match conversion::cancelled(e, answers) {
            Ok((after, result)) => {
                &&& after.text == e.text
                &&& after.cursor == e.text.len()
                &&& after == EngineView {
                    state: after.state,
                    cursor: after.cursor,
                    romaji: after.romaji,
                    ..e
                }
                &&& exists|pending: Seq<Seq<char>>|
                    #[trigger] typed_anew(e.text, answers, pending) && pending.len() == e.text.len()
                        + 1 && after.romaji == pending.last()
                &&& result.consumed
                &&& typing_laws::composes(after, result.actions)
                &&& result.actions.contains(ActionView::HideCandidates)
                &&& forall|k: int|
                    0 <= k < result.actions.len() ==> !(#[trigger] result.actions[k] is Commit)
            },
            Err(question) => exists|pending: Seq<Seq<char>>|
                #[trigger] typed_anew(e.text, answers, pending) && pending.len() <= e.text.len()
                    && question == (QuestionView::Type {
                    buffer: pending.last(),
                    ch: e.text[pending.len() - 1],
                }),
        },
{
    let pending = lemma_replayed(e.text, e.text.len() as int, answers);
    if let Ok((after, result)) = conversion::cancelled(e, answers) {
        typing_laws::lemma_composing_shows(after);
        assert(result.actions[1] == ActionView::HideCandidates);
    }
}

/// Leaving a conversion of nothing leaves nothing on display.
pub proof fn law_leaving_a_conversion_of_nothing(e: EngineView, answers: AnswersView)
    requires
        e.state is Conversion,
        e.text.len() == 0,
    ensures
        conversion::cancelled(e, answers) matches Ok((after, result)) && after == (EngineView {
            state: StateView::Empty,
            cursor: 0,
            ..e
        }) && result.consumed && result.actions.contains(ActionView::HideCandidates)
            && result.actions.contains(ActionView::HideAuxText) && (
        result.actions[0] matches ActionView::UpdatePreedit(p) && p.text.len() == 0),
{
    if let Ok((after, result)) = conversion::cancelled(e, answers) {
        assert(result.actions[1] == ActionView::HideCandidates);
        assert(result.actions[2] == ActionView::HideAuxText);
    }
}

/// A conversion that shows nothing is not committed.
pub proof fn law_nothing_is_committed(
    e: EngineView,
    segments: Seq<SegmentView>,
    i: int,
    skip_learning: bool,
)
    requires
        conversion_laws::converts(e, segments, i, skip_learning),
        conversion_laws::texts_joined(segments, segments.len() as int).len() == 0,
    ensures
        ({
            let (after, result) = conversion::committed(e);
            after == e && result.consumed && result.actions.len() == 0
        }),
{
    conversion_laws::lemma_texts_joined(segments, segments.len() as int);
    assert(segments.take(segments.len() as int) =~= segments);
}

/// Outside a conversion its keys do nothing and are left to the application.
pub proof fn law_outside_a_conversion(
    e: EngineView,
    how: candidate::Navigation,
    forward: bool,
    ch: char,
    answers: AnswersView,
)
    requires
        !(e.state is Conversion),
    ensures
        conversion::committed(e).0 == e,
        !conversion::committed(e).1.consumed,
        conversion::committed(e).1.actions.len() == 0,
        conversion::navigated(e, how).0 == e,
        !conversion::navigated(e, how).1.consumed,
        conversion::navigated(e, how).1.actions.len() == 0,
        conversion::resized(e, forward, answers) matches Ok((after, result)) && after == e
            && !result.consumed && result.actions.len() == 0,
        conversion::refocused(e, forward, answers) matches Ok((after, result)) && after == e
            && !result.consumed && result.actions.len() == 0,
        conversion::cancelled(e, answers) matches Ok((after, result)) && after == e
            && !result.consumed && result.actions.len() == 0,
        conversion::committed_and_typed(e, ch, answers) matches Ok((after, result)) && after == e
            && !result.consumed && result.actions.len() == 0,
        conversion::forgotten(e, answers) matches Ok((after, result)) && after == e
            && result.actions.len() == 0,
{
}

/// An empty text, and a reading that no source has, are never put in front.
pub proof fn law_what_is_never_put_in_front(
    e: EngineView,
    reading: Seq<char>,
    text: Seq<char>,
    skip_learning: bool,
    answers: AnswersView,
)
    requires
        text.len() == 0 || text == reading && (clauses::offered(
            e,
            reading,
            None,
            skip_learning,
            answers,
        ) matches Ok(list) ==> forall|k: int|
            0 <= k < list.candidates.len() ==> (#[trigger] list.candidates[k]).text != text),
    ensures
        clauses::offered(e, reading, Some(text), skip_learning, answers) == clauses::offered(
            e,
            reading,
            None,
            skip_learning,
            answers,
        ),
{
    if let Ok(list) = clauses::offered(e, reading, None, skip_learning, answers) {
        if text.len() > 0 {
            let advice = consult::advice_for(answers.advice, reading)->0;
            let all = sources::conversion_candidates(
                engine::setting(e),
                reading,
                advice,
                skip_learning,
            );
            assert forall|k: int| 0 <= k < all.len() implies (#[trigger] all[k]).text != text by {
                assert(list.candidates[k].text == all[k].text);
            }
            lemma_not_found(all, text, 0);
        }
    }
}

proof fn lemma_not_found(all: Seq<candidate::AnnotatedView>, text: Seq<char>, from: int)
    requires
        0 <= from,
        forall|k: int| 0 <= k < all.len() ==> (#[trigger] all[k]).text != text,
    ensures
        sources::position_of(all, text, from) is None,
    decreases all.len() - from,
{
    if from < all.len() {
        lemma_not_found(all, text, from + 1);
    }
}

} // verus!
