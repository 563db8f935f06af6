//! What the keys of a conversion do, told by the clauses, their candidates and
//! the texts on display.

use vstd::prelude::*;
use crate::action::{ActionView, AuxView};
use crate::advice::{AdviceView, LearnedView};
use crate::candidate::{AnnotatedView, CandidateSource, CandidateView, ListView, Navigation};
use crate::candidate;
use crate::clauses;
use crate::consult::{AnswersView, QuestionView};
use crate::consult;
use crate::conversion;
use crate::engine::{EngineView, InputMode};
use crate::engine;
use crate::preedit::AttributeType;
use crate::sources;
use crate::state::{SegmentView, StateView};

verus! {

/// The services' latest word on a reading.
pub open spec fn advised(answers: AnswersView, reading: Seq<char>, advice: AdviceView) -> bool {
    exists|i: int|
        0 <= i < answers.advice.len() && #[trigger] answers.advice[i] == advice && advice.reading
            == reading && forall|j: int|
            i < j < answers.advice.len() ==> (#[trigger] answers.advice[j]).reading != reading
}

/// The services have said nothing of a reading.
pub open spec fn unadvised(answers: AnswersView, reading: Seq<char>) -> bool {
    forall|i: int|
        0 <= i < answers.advice.len() ==> (#[trigger] answers.advice[i]).reading != reading
}

/// A candidate as it is shown for a reading.
pub open spec fn shown_as(c: CandidateView, a: AnnotatedView, reading: Seq<char>) -> bool {
    &&& c.text == a.text
    &&& c.source == Some(a.source)
    &&& c.description == a.description
    &&& c.reading == Some(
        if a.reading is Some {
            a.reading->0
        } else {
            reading
        },
    )
}

/// The candidates that the sources give a reading in an engine.
pub open spec fn found(
    e: EngineView,
    reading: Seq<char>,
    skip_learning: bool,
    advice: AdviceView,
) -> Seq<AnnotatedView> {
    sources::conversion_candidates(
        sources::Setting {
            user: e.user,
            system: e.system,
            learning: e.learning is Some,
            emoji: e.mode.current == InputMode::Emoji,
        },
        reading,
        advice,
        skip_learning,
    )
}

/// A list holds all candidates of a reading, in order, with the first one
/// selected.
pub open spec fn offers(
    e: EngineView,
    reading: Seq<char>,
    skip_learning: bool,
    answers: AnswersView,
    list: ListView,
) -> bool {
    exists|advice: AdviceView|
        {
            &&& #[trigger] advised(answers, reading, advice)
            &&& list.cursor == 0
            &&& list.candidates.len() == found(e, reading, skip_learning, advice).len()
            &&& forall|k: int|
                0 <= k < list.candidates.len() ==> shown_as(
                    #[trigger] list.candidates[k],
                    found(e, reading, skip_learning, advice)[k],
                    reading,
                )
        }
}

/// A list holds all candidates of a reading, with the one of a given text
/// moved to its front, or put there as a conversion of the model where no
/// source has it, and selected; the others keep their order.
pub open spec fn offers_first(
    e: EngineView,
    reading: Seq<char>,
    text: Seq<char>,
    skip_learning: bool,
    answers: AnswersView,
    list: ListView,
) -> bool {
    exists|advice: AdviceView|
        {
            let all = found(e, reading, skip_learning, advice);
            &&& #[trigger] advised(answers, reading, advice)
            &&& list.cursor == 0
            &&& list.candidates.len() > 0
            &&& list.candidates[0].text == text
            &&& (exists|i: int|
                {
                    &&& 0 <= i < all.len()
                    &&& shown_as(list.candidates[0], #[trigger] all[i], reading)
                    &&& list.candidates.len() == all.len()
                    &&& forall|k: int|
                        1 <= k < list.candidates.len() ==> shown_as(
                            #[trigger] list.candidates[k],
                            all[if k <= i {
                                k - 1
                            } else {
                                k
                            }],
                            reading,
                        )
                }) || {
                &&& forall|i: int| 0 <= i < all.len() ==> (#[trigger] all[i]).text != text
                &&& list.candidates[0].source == Some(CandidateSource::Model)
                &&& list.candidates.len() == all.len() + 1
                &&& forall|k: int|
                    1 <= k < list.candidates.len() ==> shown_as(
                        #[trigger] list.candidates[k],
                        all[k - 1],
                        reading,
                    )
            }
        }
}

/// What is asked of a reading that the services have said nothing of.
pub open spec fn asks(
    e: EngineView,
    reading: Seq<char>,
    answers: AnswersView,
    question: QuestionView,
) -> bool {
    &&& unadvised(answers, reading)
    &&& question matches QuestionView::Reading {
        reading: asked,
        context,
        num_candidates,
        load_model,
    }
    &&& asked == reading
    &&& num_candidates == e.config.num_candidates
    &&& load_model == (e.kanji is None)
    &&& context.len() <= e.config.max_api_context_len || e.config.max_api_context_len == 0
    &&& match e.context {
        Some(around) => match around.left {
            Some(left) => context.len() <= left.len() && context == left.skip(
                left.len() - context.len(),
            ) && (context.len() == left.len() || context.len() == e.config.max_api_context_len),
            None => context.len() == 0,
        },
        None => context.len() == 0,
    }
}

/// The text a clause shows: that of its selected candidate, else its reading.
pub open spec fn clause_text(s: SegmentView) -> Seq<char> {
    if 0 <= s.candidates.cursor < s.candidates.candidates.len() {
        s.candidates.candidates[s.candidates.cursor].text
    } else {
        s.reading
    }
}

proof fn lemma_advice(list: Seq<AdviceView>, reading: Seq<char>)
    ensures
        match consult::advice_for(list, reading) {
            Some(advice) => exists|i: int|
                0 <= i < list.len() && #[trigger] list[i] == advice && advice.reading == reading
                    && forall|j: int|
                    i < j < list.len() ==> (#[trigger] list[j]).reading != reading,
            None => forall|i: int| 0 <= i < list.len() ==> (#[trigger] list[i]).reading != reading,
        },
    decreases list.len(),
{
    if list.len() > 0 {
        let last = list.len() - 1;
        if list.last().reading == reading {
            assert(list[last] == list.last());
        } else {
            let before = list.drop_last();
            lemma_advice(before, reading);
            match consult::advice_for(before, reading) {
                Some(advice) => {
                    let i = choose|i: int|
                        0 <= i < before.len() && #[trigger] before[i] == advice && advice.reading
                            == reading && forall|j: int|
                            i < j < before.len() ==> (#[trigger] before[j]).reading != reading;
                    assert(list[i] == advice);
                    assert forall|j: int| i < j < list.len() implies (#[trigger] list[j]).reading
                        != reading by {
                        if j < last {
                            assert(list[j] == before[j]);
                        }
                    }
                },
                None => {
                    assert forall|i: int| 0 <= i < list.len() implies (
                    #[trigger] list[i]).reading != reading by {
                        if i < last {
                            assert(list[i] == before[i]);
                        }
                    }
                },
            }
        }
    }
}

proof fn lemma_offered(
    e: EngineView,
    reading: Seq<char>,
    skip_learning: bool,
    answers: AnswersView,
)
    ensures
        match clauses::offered(e, reading, None, skip_learning, answers) {
            Ok(list) => offers(e, reading, skip_learning, answers, list),
            Err(question) => asks(e, reading, answers, question),
        },
{
    lemma_advice(answers.advice, reading);
    match consult::advice_for(answers.advice, reading) {
        Some(advice) => {
            assert(advised(answers, reading, advice));
            let list = clauses::offered(e, reading, None, skip_learning, answers)->Ok_0;
            let all = found(e, reading, skip_learning, advice);
            assert(engine::setting(e) == (sources::Setting {
                user: e.user,
                system: e.system,
                learning: e.learning is Some,
                emoji: e.mode.current == InputMode::Emoji,
            }));
            assert(list == candidate::shown_list(all, reading));
        },
        None => {
            let left = engine::left_of(e);
            let limit = e.config.max_api_context_len as int;
            let context = engine::model_context(e);
            if left.len() <= limit {
                assert(context =~= left.skip(left.len() - context.len()));
            }
        },
    }
}

/// The list of a reading holds what all sources give it, in order, with the
/// first one selected; where the services have not said anything of it, they
/// are asked, with the text on the left as far as the model may see it.
pub proof fn law_a_reading_is_offered_all_it_has(
    e: EngineView,
    reading: Seq<char>,
    skip_learning: bool,
    answers: AnswersView,
)
    ensures
        match clauses::offered(e, reading, None, skip_learning, answers) {
            Ok(list) => offers(e, reading, skip_learning, answers, list),
            Err(question) => asks(e, reading, answers, question),
        },
{
    lemma_offered(e, reading, skip_learning, answers);
}

proof fn lemma_position(list: Seq<AnnotatedView>, text: Seq<char>, from: int)
    requires
        0 <= from <= list.len(),
    ensures
        match sources::position_of(list, text, from) {
            Some(i) => from <= i < list.len() && list[i].text == text,
            None => forall|i: int| from <= i < list.len() ==> (#[trigger] list[i]).text != text,
        },
    decreases list.len() - from,
{
    if from < list.len() && list[from].text != text {
        lemma_position(list, text, from + 1);
    }
}

proof fn lemma_offered_first(
    e: EngineView,
    reading: Seq<char>,
    text: Seq<char>,
    skip_learning: bool,
    answers: AnswersView,
)
    requires
        text.len() > 0,
        text != reading || e.mode.current != InputMode::Emoji,
    ensures
        match clauses::offered(e, reading, Some(text), skip_learning, answers) {
            Ok(list) => offers_first(e, reading, text, skip_learning, answers, list),
            Err(question) => asks(e, reading, answers, question),
        },
{
    lemma_offered(e, reading, skip_learning, answers);
    lemma_advice(answers.advice, reading);
    match consult::advice_for(answers.advice, reading) {
        Some(advice) => {
            assert(advised(answers, reading, advice));
            let list = clauses::offered(e, reading, Some(text), skip_learning, answers)->Ok_0;
            let all = found(e, reading, skip_learning, advice);
            assert(engine::setting(e) == (sources::Setting {
                user: e.user,
                system: e.system,
                learning: e.learning is Some,
                emoji: e.mode.current == InputMode::Emoji,
            }));
            sources::law_kana_forms_are_offered(engine::setting(e), reading, advice, skip_learning);
            lemma_position(all, text, 0);
            let front = sources::promoted(all, Some(text), reading);
            assert(list == candidate::shown_list(front, reading));
            match sources::position_of(all, text, 0) {
                Some(i) => {
                    assert(shown_as(list.candidates[0], all[i], reading));
                    assert forall|k: int| 1 <= k < list.candidates.len() implies shown_as(
                        #[trigger] list.candidates[k],
                        all[if k <= i {
                            k - 1
                        } else {
                            k
                        }],
                        reading,
                    ) by {
                        assert(front[k] == all.remove(i)[k - 1]);
                    }
                },
                None => {
                    if text == reading {
                        let i = choose|i: int|
                            0 <= i < all.len() && (#[trigger] all[i]).text == reading;
                        assert(all[i].text != text);
                    }
                    assert forall|k: int| 1 <= k < list.candidates.len() implies shown_as(
                        #[trigger] list.candidates[k],
                        all[k - 1],
                        reading,
                    ) by {
                        assert(front[k] == all[k - 1]);
                    }
                },
            }
        },
        None => {},
    }
}

/// A text that is on display stays in front: the list of a reading begins with
/// it, and loses and reorders nothing else.
pub proof fn law_a_text_on_display_stays_in_front(
    e: EngineView,
    reading: Seq<char>,
    text: Seq<char>,
    skip_learning: bool,
    answers: AnswersView,
)
    requires
        text.len() > 0,
        text != reading || e.mode.current != InputMode::Emoji,
    ensures
        match clauses::offered(e, reading, Some(text), skip_learning, answers) {
            Ok(list) => offers_first(e, reading, text, skip_learning, answers, list),
            Err(question) => asks(e, reading, answers, question),
        },
{
    lemma_offered_first(e, reading, text, skip_learning, answers);
}

/// A conversion as it is before or after a key.
pub open spec fn converts(
    e: EngineView,
    segments: Seq<SegmentView>,
    active: int,
    skip_learning: bool,
) -> bool {
    e.state matches StateView::Conversion {
        segments: s,
        active_segment,
        skip_learning: skip,
        ..
    } && s == segments && active_segment == active && skip == skip_learning && 0 <= active
        < segments.len()
}

/// Only the state of the conversion differs.
pub open spec fn only_the_state_differs(a: EngineView, b: EngineView) -> bool {
    b == EngineView { state: b.state, ..a }
}

/// Growing a clause takes the first character of the next one: both are then
/// offered all that their new readings have, the first candidate selected; a
/// clause with nothing left is gone, and every other clause, the focus and the
/// rest of the engine stay as they were.
pub proof fn law_growing_a_clause(
    e: EngineView,
    segments: Seq<SegmentView>,
    i: int,
    skip_learning: bool,
    answers: AnswersView,
)
    requires
        converts(e, segments, i, skip_learning),
        i + 1 < segments.len(),
        segments[i + 1].reading.len() > 0,
    ensures
        ({
            let given = segments[i + 1].reading[0];
            let longer = segments[i].reading + seq![given];
            let rest = segments[i + 1].reading.skip(1);
            match conversion::resized(e, true, answers) {
                Ok((after, result)) => {
                    &&& only_the_state_differs(e, after)
                    &&& after.state matches StateView::Conversion {
                        segments: changed,
                        active_segment,
                        skip_learning: skip,
                        ..
                    }
                    &&& active_segment == i && skip == skip_learning
                    &&& changed.len() == segments.len() - (if rest.len() == 0 {
                        1int
                    } else {
                        0int
                    })
                    &&& forall|j: int| 0 <= j < i ==> #[trigger] changed[j] == segments[j]
                    &&& changed[i].reading == longer
                    &&& offers(e, longer, skip_learning, answers, changed[i].candidates)
                    &&& !changed[i].needs_expansion
                    &&& rest.len() > 0 ==> {
                        &&& changed[i + 1].reading == rest
                        &&& offers(e, rest, skip_learning, answers, changed[i + 1].candidates)
                        &&& !changed[i + 1].needs_expansion
                        &&& forall|j: int|
                            i + 1 < j < segments.len() ==> #[trigger] changed[j] == segments[j]
                    }
                    &&& rest.len() == 0 ==> forall|j: int|
                        i < j < changed.len() ==> #[trigger] changed[j] == segments[j + 1]
                },
                Err(question) => asks(e, longer, answers, question) || rest.len() > 0 && asks(
                    e,
                    rest,
                    answers,
                    question,
                ),
            }
        }),
{
    let given = segments[i + 1].reading[0];
    let longer = segments[i].reading + seq![given];
    let rest = segments[i + 1].reading.skip(1);
    assert(segments[i].reading.push(given) =~= longer);
    lemma_offered(e, longer, skip_learning, answers);
    lemma_offered(e, rest, skip_learning, answers);
}

/// Shrinking a clause gives its last character to the next one, which is made
/// where there is none: both are then offered all that their new readings
/// have, the first candidate selected, and every other clause, the focus and
/// the rest of the engine stay as they were.
pub proof fn law_shrinking_a_clause(
    e: EngineView,
    segments: Seq<SegmentView>,
    i: int,
    skip_learning: bool,
    answers: AnswersView,
)
    requires
        converts(e, segments, i, skip_learning),
        segments[i].reading.len() > 1,
    ensures
        ({
            let own = segments[i].reading;
            let shorter = own.take(own.len() - 1);
            let next = seq![own[own.len() - 1]] + if i + 1 < segments.len() {
                segments[i + 1].reading
            } else {
                Seq::empty()
            };
            match conversion::resized(e, false, answers) {
                Ok((after, result)) => {
                    &&& only_the_state_differs(e, after)
                    &&& after.state matches StateView::Conversion {
                        segments: changed,
                        active_segment,
                        skip_learning: skip,
                        ..
                    }
                    &&& active_segment == i && skip == skip_learning
                    &&& i + 1 < segments.len() ==> changed.len() == segments.len()
                    &&& i + 1 == segments.len() ==> changed.len() == segments.len() + 1
                    &&& changed[i].reading == shorter
                    &&& offers(e, shorter, skip_learning, answers, changed[i].candidates)
                    &&& changed[i + 1].reading == next
                    &&& offers(e, next, skip_learning, answers, changed[i + 1].candidates)
                    &&& !changed[i].needs_expansion && !changed[i + 1].needs_expansion
                    &&& forall|j: int|
                        0 <= j < segments.len() && j != i && j != i + 1
                            ==> #[trigger] changed[j] == segments[j]
                },
                Err(question) => asks(e, shorter, answers, question) || asks(
                    e,
                    next,
                    answers,
                    question,
                ),
            }
        }),
{
    let own = segments[i].reading;
    let shorter = own.take(own.len() - 1);
    let next = seq![own[own.len() - 1]] + if i + 1 < segments.len() {
        segments[i + 1].reading
    } else {
        Seq::empty()
    };
    assert(own.drop_last() =~= shorter);
    if i + 1 >= segments.len() {
        assert(seq![own.last()] =~= next);
    }
    lemma_offered(e, shorter, skip_learning, answers);
    lemma_offered(e, next, skip_learning, answers);
}

/// Where no character can be moved, moving the end of a clause changes
/// nothing.
pub proof fn law_what_cannot_be_resized_stays(
    e: EngineView,
    segments: Seq<SegmentView>,
    i: int,
    skip_learning: bool,
    answers: AnswersView,
)
    requires
        converts(e, segments, i, skip_learning),
    ensures
        i + 1 == segments.len() || segments[i + 1].reading.len() == 0 ==> (conversion::resized(
            e,
            true,
            answers,
        ) matches Ok((after, result)) && after == e && result.consumed && result.actions.len()
            == 0),
        segments[i].reading.len() <= 1 ==> (conversion::resized(e, false, answers) matches Ok(
            (after, result),
        ) && after == e && result.consumed && result.actions.len() == 0),
{
}

/// Moving the focus among several clauses goes to the clause beside it, around
/// the ends. That clause is offered all that its reading has, its text in
/// front, where its list was not whole; nothing else changes.
pub proof fn law_moving_the_focus(
    e: EngineView,
    segments: Seq<SegmentView>,
    i: int,
    skip_learning: bool,
    forward: bool,
    answers: AnswersView,
)
    requires
        converts(e, segments, i, skip_learning),
        segments.len() > 1,
        forall|j: int|
            0 <= j < segments.len() ==> clause_text(#[trigger] segments[j]).len() > 0 && (
            clause_text(segments[j]) != segments[j].reading || e.mode.current != InputMode::Emoji),
    ensures
        ({
            let n = segments.len() as int;
            let to = if forward {
                (i + 1) % n
            } else {
                (i + n - 1) % n
            };
            match conversion::refocused(e, forward, answers) {
                Ok((after, result)) => {
                    &&& only_the_state_differs(e, after)
                    &&& after.state matches StateView::Conversion {
                        segments: changed,
                        active_segment,
                        skip_learning: skip,
                        ..
                    }
                    &&& active_segment == to && skip == skip_learning
                    &&& changed.len() == n
                    &&& forall|j: int|
                        0 <= j < n && j != to ==> #[trigger] changed[j] == segments[j]
                    &&& changed[to].reading == segments[to].reading
                    &&& !changed[to].needs_expansion
                    &&& !segments[to].needs_expansion ==> changed[to] == segments[to]
                    &&& segments[to].needs_expansion ==> offers_first(
                        e,
                        segments[to].reading,
                        clause_text(segments[to]),
                        skip_learning,
                        answers,
                        changed[to].candidates,
                    )
                },
                Err(question) => segments[to].needs_expansion && asks(
                    e,
                    segments[to].reading,
                    answers,
                    question,
                ),
            }
        }),
{
    let n = segments.len() as int;
    let to = conversion::next_focus(n, i, forward);
    assert(forward ==> to == (i + 1) % n) by (nonlinear_arith)
        requires
            0 <= i < n,
            n > 1,
            to == if i + 1 < n {
                i + 1
            } else {
                0
            } || !forward,
    ;
    assert(!forward ==> to == (i + n - 1) % n) by (nonlinear_arith)
        requires
            0 <= i < n,
            n > 1,
            to == if i > 0 {
                i - 1
            } else {
                n - 1
            } || forward,
    ;
    assert(clauses::segment_text(segments[to]) == clause_text(segments[to]));
    lemma_offered_first(
        e,
        segments[to].reading,
        clause_text(segments[to]),
        skip_learning,
        answers,
    );
}

/// Choosing another candidate moves the selection of the clause in focus and
/// nothing else: a single step goes around the ends, a page up or down keeps
/// to the first place of a page, a digit chooses on the page.
pub proof fn law_choosing_a_candidate(
    e: EngineView,
    segments: Seq<SegmentView>,
    i: int,
    skip_learning: bool,
    how: Navigation,
)
    requires
        converts(e, segments, i, skip_learning),
        e.state->candidates == segments[i].candidates,
        0 <= segments[i].candidates.cursor < segments[i].candidates.candidates.len(),
    ensures
        ({
            let list = segments[i].candidates;
            let n = list.candidates.len() as int;
            let (after, result) = conversion::navigated(e, how);
            let page = list.cursor / 9;
            &&& only_the_state_differs(e, after)
            &&& after.state matches StateView::Conversion {
                segments: changed,
                active_segment,
                skip_learning: skip,
                candidates,
                ..
            }
            &&& active_segment == i && skip == skip_learning
            &&& changed.len() == segments.len()
            &&& forall|j: int|
                0 <= j < segments.len() && j != i ==> #[trigger] changed[j] == segments[j]
            &&& changed[i].reading == segments[i].reading
            &&& changed[i].candidates.candidates == list.candidates
            &&& candidates == changed[i].candidates
            &&& changed[i].candidates.cursor == match how {
                Navigation::Next => (list.cursor + 1) % n,
                Navigation::Previous => (list.cursor + n - 1) % n,
                Navigation::NextPage => if 9 * (page + 1) < n {
                    9 * (page + 1)
                } else {
                    list.cursor
                },
                Navigation::PreviousPage => if page >= 1 {
                    9 * (page - 1)
                } else {
                    list.cursor
                },
                Navigation::Digit(digit) => if 1 <= digit <= 9 && 9 * page + digit - 1 < n {
                    9 * page + digit - 1
                } else {
                    list.cursor
                },
            }
        }),
{
    let list = segments[i].candidates;
    let n = list.candidates.len() as int;
    let c = list.cursor;
    assert((c + 1) % n == if c + 1 < n {
        c + 1
    } else {
        0
    }) by (nonlinear_arith)
        requires
            0 <= c < n,
    ;
    assert((c + n - 1) % n == if c > 0 {
        c - 1
    } else {
        n - 1
    }) by (nonlinear_arith)
        requires
            0 <= c < n,
    ;
    assert(candidate::page_start(list) == 9 * (c / 9));
}

/// The texts of clauses, one behind the other.
pub open spec fn texts_joined(segments: Seq<SegmentView>, k: int) -> Seq<char>
    decreases k,
{
    if k <= 0 {
        Seq::empty()
    } else {
        texts_joined(segments, k - 1) + clause_text(segments[k - 1])
    }
}

/// The texts of the first clauses, one behind the other, are what they show.
pub proof fn lemma_texts_joined(segments: Seq<SegmentView>, k: int)
    requires
        0 <= k <= segments.len(),
    ensures
        texts_joined(segments, k) == clauses::chosen_text(segments.take(k)),
    decreases k,
{
    if k > 0 {
        lemma_texts_joined(segments, k - 1);
        assert(segments.take(k).drop_last() =~= segments.take(k - 1));
        assert(segments.take(k).last() == segments[k - 1]);
    } else {
        assert(segments.take(0) =~= Seq::empty());
    }
}

/// What a clause leaves in the history: its text, under the reading of the
/// selected candidate, else its own.
pub open spec fn remembered_as(s: SegmentView, entry: LearnedView) -> bool {
    &&& entry.surface == clause_text(s)
    &&& entry.reading == if 0 <= s.candidates.cursor < s.candidates.candidates.len()
        && s.candidates.candidates[s.candidates.cursor].reading is Some {
        s.candidates.candidates[s.candidates.cursor].reading->0
    } else {
        s.reading
    }
}

/// What a commit notes for the history: one entry for each clause, in order,
/// where there is a history and no emoji was looked for; else nothing.
pub open spec fn noted(e: EngineView, after: EngineView, segments: Seq<SegmentView>) -> bool {
    if e.learning is None || e.mode.current == InputMode::Emoji {
        after.recorded == e.recorded
    } else {
        &&& after.recorded.len() == e.recorded.len() + segments.len()
        &&& forall|k: int|
            0 <= k < e.recorded.len() ==> #[trigger] after.recorded[k] == e.recorded[k]
        &&& forall|k: int|
            0 <= k < segments.len() ==> remembered_as(
                #[trigger] segments[k],
                after.recorded[e.recorded.len() + k],
            )
    }
}

/// A mode that was entered for a while is left for the one before.
pub open spec fn settled(before: EngineView, after: EngineView) -> bool {
    &&& after.mode.saved is None || before.mode.saved is None
    &&& match before.mode.saved {
        Some(saved) => after.mode.current == saved && after.mode.saved is None,
        None => after.mode == before.mode,
    }
}

/// Committing a conversion gives the texts of its clauses, one behind the
/// other, to the application, notes what each has converted, and leaves
/// nothing typed; dictionaries, models, settings and context stay.
pub proof fn law_committing_a_conversion(
    e: EngineView,
    segments: Seq<SegmentView>,
    i: int,
    skip_learning: bool,
)
    requires
        converts(e, segments, i, skip_learning),
        texts_joined(segments, segments.len() as int).len() > 0,
    ensures
        ({
            let (after, result) = conversion::committed(e);
            let text = texts_joined(segments, segments.len() as int);
            &&& result.consumed
            &&& result.actions.contains(ActionView::Commit(text))
            &&& result.actions.contains(ActionView::HideCandidates)
            &&& forall|k: int|
                0 <= k < result.actions.len() ==> ((
                #[trigger] result.actions[k]) matches ActionView::Commit(t) ==> t == text)
            &&& after.state == StateView::Empty
            &&& after.text.len() == 0 && after.live_text.len() == 0 && after.chunks.len() == 0
            &&& settled(e, after)
            &&& noted(e, after, segments)
            &&& after == EngineView {
                state: after.state,
                text: after.text,
                live_text: after.live_text,
                chunks: after.chunks,
                mode: after.mode,
                recorded: after.recorded,
                ..e
            }
        }),
{
    let n = segments.len() as int;
    lemma_texts_joined(segments, n);
    assert(segments.take(n) =~= segments);
    let (after, result) = conversion::committed(e);
    let text = texts_joined(segments, n);
    assert(result.actions[0] == ActionView::HideCandidates);
    assert(result.actions[2] == ActionView::Commit(text));
    assert forall|k: int| 0 <= k < segments.len() implies remembered_as(
        #[trigger] segments[k],
        clauses::selections(segments)[k],
    ) by {
    }
}

/// Committing a conversion and typing on: the texts of the clauses go to the
/// application and to the history as in a commit, the text on the left grows
/// by them, and the character is typed into an empty text.
pub proof fn law_committing_and_typing_on(
    e: EngineView,
    segments: Seq<SegmentView>,
    i: int,
    skip_learning: bool,
    ch: char,
    answers: AnswersView,
)
    requires
        converts(e, segments, i, skip_learning),
        0 <= e.cursor,
    ensures
        ({
            let text = texts_joined(segments, segments.len() as int);
            conversion::committed_and_typed(e, ch, answers) matches Ok((after, result)) ==> {
                &&& result.consumed
                &&& result.actions.len() > 0 && result.actions[0] == ActionView::Commit(text)
                &&& result.actions.contains(ActionView::HideCandidates)
                &&& after.state is Composing
                &&& result.actions.contains(
                    ActionView::UpdatePreedit(after.state->Composing_preedit),
                )
                &&& noted(e, after, segments)
                &&& settled(e, after)
                &&& after.context matches Some(around)
                &&& around.left == Some(
                    match e.context {
                        Some(c) => match c.left {
                            Some(left) => left + text,
                            None => Seq::empty() + text,
                        },
                        None => Seq::empty() + text,
                    },
                )
                &&& match e.context {
                    Some(c) => match c.right {
                        Some(right) => around.right == Some(right),
                        None => around.right == Some(Seq::<char>::empty()),
                    },
                    None => around.right == Some(Seq::<char>::empty()),
                }
                &&& after.live_text.len() == 0
                &&& after.mode.current == InputMode::Alphabet && e.romaji.len() == 0 ==> after.text
                    == seq![ch]
                &&& after.mode.current != InputMode::Alphabet ==> exists|k: int|
                    0 <= k < answers.typed.len() && (#[trigger] answers.typed[k]).buffer == e.romaji
                        && answers.typed[k].ch == ch && after.text == answers.typed[k].kana
                        && after.romaji == answers.typed[k].rest
            }
        }),
{
    let n = segments.len() as int;
    lemma_texts_joined(segments, n);
    assert(segments.take(n) =~= segments);
    if let Ok((after, result)) = conversion::committed_and_typed(e, ch, answers) {
        lemma_typed(answers, e.romaji, ch, answers.typed.len() as int);
        assert(answers.typed.take(answers.typed.len() as int) =~= answers.typed);
        assert forall|more: Seq<char>| #[trigger] engine::inserted(Seq::empty(), e.cursor, more)
            =~= more by {
        }
        assert(result.actions[1] == ActionView::HideCandidates);
        assert(result.actions[2] == ActionView::UpdatePreedit(after.state->Composing_preedit));
        assert forall|k: int| 0 <= k < segments.len() implies remembered_as(
            #[trigger] segments[k],
            clauses::selections(segments)[k],
        ) by {
        }
    }
}

proof fn lemma_typed(answers: AnswersView, buffer: Seq<char>, ch: char, n: int)
    requires
        0 <= n <= answers.typed.len(),
    ensures
        consult::step_for(answers.typed.take(n), buffer, ch) matches Some(answer) ==> exists|k: int|
            0 <= k < n && #[trigger] answers.typed[k] == answer && answer.buffer == buffer
                && answer.ch == ch,
    decreases n,
{
    if n > 0 {
        lemma_typed(answers, buffer, ch, n - 1);
        assert(answers.typed.take(n).drop_last() =~= answers.typed.take(n - 1));
        assert(answers.typed.take(n).last() == answers.typed[n - 1]);
    }
}

/// The history's latest word on whether a conversion was dropped from it.
pub open spec fn told(
    answers: AnswersView,
    reading: Seq<char>,
    surface: Seq<char>,
    removed: bool,
) -> bool {
    exists|k: int|
        {
            &&& 0 <= k < answers.forgotten.len()
            &&& (#[trigger] answers.forgotten[k]).reading == reading
            &&& answers.forgotten[k].surface == surface
            &&& answers.forgotten[k].removed == removed
            &&& forall|j: int|
                k < j < answers.forgotten.len() ==> !((#[trigger] answers.forgotten[j]).reading
                    == reading && answers.forgotten[j].surface == surface)
        }
}

/// Dropping the selected conversion from the history: only a learned candidate
/// can be dropped, and only where there is a history. It is asked whether the
/// history held the text on display for the reading of the clause; once it is
/// gone, the clause is offered all that its reading still has and nothing else
/// changes.
pub proof fn law_forgetting_a_conversion(
    e: EngineView,
    segments: Seq<SegmentView>,
    i: int,
    skip_learning: bool,
    answers: AnswersView,
)
    requires
        converts(e, segments, i, skip_learning),
        e.state->candidates == segments[i].candidates,
        0 <= segments[i].candidates.cursor < segments[i].candidates.candidates.len(),
    ensures
        ({
            let list = segments[i].candidates;
            let chosen = list.candidates[list.cursor];
            let step = conversion::forgotten(e, answers);
            if chosen.source != Some(CandidateSource::Learning) || e.learning is None {
                step matches Ok((after, result)) && after == e && result.consumed
                    && result.actions.len() == 0
            } else {
                match step {
                    Ok((after, result)) => after == e && result.actions.len() == 0 && told(
                        answers,
                        segments[i].reading,
                        chosen.text,
                        false,
                    ) || {
                        &&& told(answers, segments[i].reading, chosen.text, true)
                        &&& only_the_state_differs(e, after)
                        &&& after.state matches StateView::Conversion {
                            segments: changed,
                            active_segment,
                            skip_learning: skip,
                            ..
                        }
                        &&& active_segment == i && skip == skip_learning
                        &&& changed.len() == segments.len()
                        &&& forall|j: int|
                            0 <= j < segments.len() && j != i ==> #[trigger] changed[j]
                                == segments[j]
                        &&& changed[i].reading == segments[i].reading
                        &&& offers(
                            e,
                            segments[i].reading,
                            skip_learning,
                            answers,
                            changed[i].candidates,
                        )
                    },
                    Err(QuestionView::Forget { reading, surface }) => reading
                        == segments[i].reading && surface == chosen.text && !told(
                        answers,
                        reading,
                        surface,
                        true,
                    ) && !told(answers, reading, surface, false),
                    Err(question) => told(answers, segments[i].reading, chosen.text, true) && asks(
                        e,
                        segments[i].reading,
                        answers,
                        question,
                    ),
                }
            }
        }),
{
    let list = segments[i].candidates;
    let chosen = list.candidates[list.cursor];
    lemma_offered(e, segments[i].reading, skip_learning, answers);
    lemma_forgotten(answers, segments[i].reading, chosen.text, answers.forgotten.len() as int);
    assert(answers.forgotten.take(answers.forgotten.len() as int) =~= answers.forgotten);
}

proof fn lemma_forgotten(answers: AnswersView, reading: Seq<char>, surface: Seq<char>, n: int)
    requires
        0 <= n <= answers.forgotten.len(),
    ensures
        consult::forgotten_for(answers.forgotten.take(n), reading, surface) matches Some(answer)
            ==> exists|k: int|
            0 <= k < n && #[trigger] answers.forgotten[k] == answer && answer.reading == reading
                && answer.surface == surface && forall|j: int|
                k < j < n ==> !((#[trigger] answers.forgotten[j]).reading == reading
                    && answers.forgotten[j].surface == surface),
        consult::forgotten_for(answers.forgotten.take(n), reading, surface) is None ==> forall|
            j: int,
        |
            0 <= j < n ==> !((#[trigger] answers.forgotten[j]).reading == reading
                && answers.forgotten[j].surface == surface),
    decreases n,
{
    if n > 0 {
        lemma_forgotten(answers, reading, surface, n - 1);
        assert(answers.forgotten.take(n).drop_last() =~= answers.forgotten.take(n - 1));
        assert(answers.forgotten.take(n).last() == answers.forgotten[n - 1]);
    }
}

/// How clauses are shown: each mark covers exactly the text of its clause, in
/// order, with one separator between two clauses; the clause in focus is
/// highlighted and the caret stands behind it, the others are underlined.
pub proof fn law_marks_cover_the_clauses(segments: Seq<SegmentView>, active: int, i: int)
    requires
        0 <= active < segments.len(),
        0 <= i < segments.len(),
    ensures
        ({
            let p = clauses::clauses_preedit(segments, active);
            let mark = p.attributes[i];
            &&& p.attributes.len() == segments.len()
            &&& 0 <= mark.start <= mark.end <= p.text.len()
            &&& p.text.subrange(mark.start, mark.end) == clause_text(segments[i])
            &&& i == 0 ==> mark.start == 0
            &&& i + 1 < segments.len() ==> p.attributes[i + 1].start == mark.end + 1
                && p.text[mark.end] == '\u{200B}'
            &&& i + 1 == segments.len() ==> mark.end == p.text.len()
            &&& mark.attr_type == if i == active {
                AttributeType::Highlight
            } else {
                AttributeType::Underline
            }
            &&& p.caret == p.attributes[active].end
        }),
{
    let n = segments.len() as int;
    let p = clauses::clauses_preedit(segments, active);
    lemma_display_grows(segments, i + 1, n);
    lemma_display_grows(segments, i, n);
    lemma_display_grows(segments, i, i + 1);
    let shown = clauses::display_text(segments, i + 1);
    let mark = p.attributes[i];
    assert(shown =~= p.text.take(shown.len() as int));
    if i > 0 {
        let before = clauses::display_text(segments, i).push(clauses::SEGMENT_DISPLAY_SEPARATOR);
        assert(shown == before + clauses::segment_text(segments[i]));
        assert(mark.start == before.len() && mark.end == shown.len());
        assert(shown.subrange(mark.start, mark.end) =~= clause_text(segments[i]));
        assert(p.text.take(shown.len() as int).subrange(mark.start, mark.end) =~= p.text.subrange(
            mark.start,
            mark.end,
        ));
        assert(p.text.subrange(mark.start, mark.end) =~= clause_text(segments[i]));
    } else {
        assert(shown == clauses::segment_text(segments[0]));
        assert(mark.start == 0 && mark.end == shown.len());
        assert(p.text.subrange(mark.start, mark.end) =~= p.text.take(shown.len() as int));
    }
    if i + 1 < n {
        lemma_display_grows(segments, i + 2, n);
        let next = clauses::display_text(segments, i + 2);
        assert(next[mark.end] == clauses::SEGMENT_DISPLAY_SEPARATOR);
        assert(next =~= p.text.take(next.len() as int));
        assert(p.text[mark.end] == next[mark.end]);
    }
}

proof fn lemma_display_grows(segments: Seq<SegmentView>, a: int, b: int)
    requires
        0 <= a <= b <= segments.len(),
    ensures
        clauses::display_text(segments, a).is_prefix_of(clauses::display_text(segments, b)),
    decreases b - a,
{
    if a < b {
        lemma_display_grows(segments, a, b - 1);
        let x = clauses::display_text(segments, a);
        let y = clauses::display_text(segments, b - 1);
        let z = clauses::display_text(segments, b);
        if b >= 2 {
            assert(z =~= y + (seq![clauses::SEGMENT_DISPLAY_SEPARATOR] + clauses::segment_text(
                segments[b - 1],
            )));
            assert(x =~= y.subrange(0, x.len() as int));
            assert(x =~= z.subrange(0, x.len() as int));
        } else {
            assert(x =~= Seq::empty());
            assert(x =~= z.subrange(0, 0));
        }
    }
}

/// Whatever leaves the engine converting and does something shows the very
/// display and list that the engine holds.
pub open spec fn shows_itself(after: EngineView, actions: Seq<ActionView>) -> bool {
    after.state matches StateView::Conversion { preedit, candidates, segments, active_segment, .. }
        ==> actions.len() == 0 || {
        &&& actions.contains(ActionView::UpdatePreedit(preedit))
        &&& actions.contains(ActionView::ShowCandidates(candidates))
        &&& actions.contains(
            ActionView::UpdateAuxText(
                AuxView::Conversion { reading: segments[active_segment].reading, candidates },
            ),
        )
        &&& preedit == clauses::clauses_preedit(segments, active_segment)
        &&& candidates == segments[active_segment].candidates
    }
}

/// Choosing, resizing, moving the focus, forgetting and starting show what
/// they did: the display and the list of the clause in focus, as the engine
/// holds them.
pub proof fn law_a_conversion_shows_itself(
    e: EngineView,
    expand: bool,
    how: Navigation,
    answers: AnswersView,
)
    requires
        engine::focus_exists(e),
    ensures
        shows_itself(conversion::navigated(e, how).0, conversion::navigated(e, how).1.actions),
        conversion::resized(e, expand, answers) matches Ok((after, result)) ==> shows_itself(
            after,
            result.actions,
        ),
        conversion::refocused(e, expand, answers) matches Ok((after, result)) ==> shows_itself(
            after,
            result.actions,
        ),
        conversion::forgotten(e, answers) matches Ok((after, result)) ==> shows_itself(
            after,
            result.actions,
        ),
        !(e.state is Conversion) ==> (conversion::started(e, expand, answers) matches Ok(
            (after, result),
        ) ==> shows_itself(after, result.actions)),
{
    lemma_update_shows(conversion::navigated(e, how).0, conversion::navigated(e, how).1.actions);
    if let Ok((after, result)) = conversion::resized(e, expand, answers) {
        lemma_update_shows(after, result.actions);
    }
    if let Ok((after, result)) = conversion::refocused(e, expand, answers) {
        lemma_update_shows(after, result.actions);
    }
    if let Ok((after, result)) = conversion::forgotten(e, answers) {
        lemma_update_shows(after, result.actions);
    }
    if let Ok((after, result)) = conversion::started(e, expand, answers) {
        lemma_update_shows(after, result.actions);
    }
}

proof fn lemma_update_shows(after: EngineView, actions: Seq<ActionView>)
    ensures
        after.state matches StateView::Conversion {
            preedit,
            candidates,
            segments,
            active_segment,
            ..
        } ==> actions == conversion::update_result(
            preedit,
            candidates,
            segments[active_segment].reading,
        ).actions && preedit == clauses::clauses_preedit(segments, active_segment) && candidates
            == segments[active_segment].candidates ==> shows_itself(after, actions),
{
    if let StateView::Conversion { preedit, candidates, segments, active_segment, .. } =
        after.state {
        let expected = conversion::update_result(
            preedit,
            candidates,
            segments[active_segment].reading,
        ).actions;
        assert(expected[0] == ActionView::UpdatePreedit(preedit));
        assert(expected[1] == ActionView::ShowCandidates(candidates));
        assert(expected[2] == ActionView::UpdateAuxText(
            AuxView::Conversion { reading: segments[active_segment].reading, candidates },
        ));
    }
}

} // verus!
