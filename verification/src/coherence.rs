//! What holds of every conversion, whatever keys are pressed.

use vstd::prelude::*;
use crate::action;
use crate::alignment;
use crate::candidate::Navigation;
use crate::candidate;
use crate::clauses;
use crate::consult::AnswersView;
use crate::consult;
use crate::conversion;
use crate::engine::{EngineView, InputMode};
use crate::engine;
use crate::input;
use crate::keycode::{ConversionCommand, KeyEvent};
use crate::keycode;
use crate::mode;
use crate::model;
use crate::segmentation;
use crate::sources;
use crate::spans::SpanView;
use crate::spans;
use crate::state::{SegmentView, StateView};
use crate::state;

verus! {

proof fn lemma_readings_of_concat(a: Seq<SegmentView>, b: Seq<SegmentView>)
    ensures
        state::readings_text(a + b) == state::readings_text(a) + state::readings_text(b),
    decreases b.len(),
{
    if b.len() == 0 {
        assert(a + b =~= a);
        assert(state::readings_text(b) =~= Seq::empty());
        assert(state::readings_text(a) + state::readings_text(b) =~= state::readings_text(a));
    } else {
        lemma_readings_of_concat(a, b.drop_last());
        assert((a + b).drop_last() =~= a + b.drop_last());
        assert((a + b).last() == b.last());
        assert(state::readings_text(a + b) =~= state::readings_text(a) + state::readings_text(b));
    }
}

proof fn lemma_reading_of_one(s: SegmentView)
    ensures
        state::readings_text(seq![s]) == s.reading,
{
    assert(seq![s].drop_last() =~= Seq::empty());
    assert(state::readings_text(Seq::<SegmentView>::empty()) =~= Seq::empty());
    assert(Seq::empty() + s.reading =~= s.reading);
}

/// The readings before, in and behind the `n` clauses from `i` on.
proof fn lemma_readings_split(s: Seq<SegmentView>, i: int, n: int)
    requires
        0 <= i,
        0 <= n,
        i + n <= s.len(),
    ensures
        state::readings_text(s) == state::readings_text(s.take(i)) + state::readings_text(
            s.subrange(i, i + n),
        ) + state::readings_text(s.skip(i + n)),
{
    lemma_readings_of_concat(s.take(i), s.subrange(i, i + n));
    lemma_readings_of_concat(s.take(i) + s.subrange(i, i + n), s.skip(i + n));
    assert(s.take(i) + s.subrange(i, i + n) + s.skip(i + n) =~= s);
}

proof fn lemma_readings_of_two(s: Seq<SegmentView>)
    requires
        s.len() == 2,
    ensures
        state::readings_text(s) == s[0].reading + s[1].reading,
{
    lemma_readings_of_concat(seq![s[0]], seq![s[1]]);
    lemma_reading_of_one(s[0]);
    lemma_reading_of_one(s[1]);
    assert(s =~= seq![s[0]] + seq![s[1]]);
}

/// Clauses with equal readings read the same.
proof fn lemma_same_readings(a: Seq<SegmentView>, b: Seq<SegmentView>)
    requires
        a.len() == b.len(),
        forall|i: int| 0 <= i < a.len() ==> (#[trigger] a[i]).reading == b[i].reading,
    ensures
        state::readings_text(a) == state::readings_text(b),
    decreases a.len(),
{
    if a.len() > 0 {
        assert forall|i: int| 0 <= i < a.drop_last().len() implies (#[trigger] a.drop_last()[i]).reading
            == b.drop_last()[i].reading by {
            assert(a[i].reading == b[i].reading);
        }
        lemma_same_readings(a.drop_last(), b.drop_last());
        assert(a[a.len() - 1].reading == b[b.len() - 1].reading);
    }
}

proof fn lemma_growing_keeps_the_reading(
    e: EngineView,
    segments: Seq<SegmentView>,
    i: int,
    skip_learning: bool,
    answers: AnswersView,
)
    requires
        0 <= i < segments.len(),
        conversion::resizable(segments, i, true),
    ensures
        conversion::grown(e, segments, i, skip_learning, answers) matches Ok(after)
            ==> state::readings_text(after) == state::readings_text(segments) && i < after.len(),
{
    if let Ok(after) = conversion::grown(e, segments, i, skip_learning, answers) {
        let next = segments[i + 1].reading;
        let rest = next.skip(1);
        let longer = segments[i].reading.push(next[0]);
        lemma_readings_split(segments, i, 2);
        lemma_readings_of_two(segments.subrange(i, i + 2));
        if rest.len() == 0 {
            lemma_readings_split(after, i, 1);
            lemma_reading_of_one(after[i]);
            assert(after.subrange(i, i + 1) =~= seq![after[i]]);
            assert(after.take(i) =~= segments.take(i));
            assert(after.skip(i + 1) =~= segments.skip(i + 2));
            assert(longer =~= segments[i].reading + next);
        } else {
            lemma_readings_split(after, i, 2);
            lemma_readings_of_two(after.subrange(i, i + 2));
            assert(after.take(i) =~= segments.take(i));
            assert(after.skip(i + 2) =~= segments.skip(i + 2));
            assert(longer + rest =~= segments[i].reading + next);
        }
    }
}

proof fn lemma_shrinking_keeps_the_reading(
    e: EngineView,
    segments: Seq<SegmentView>,
    i: int,
    skip_learning: bool,
    answers: AnswersView,
)
    requires
        0 <= i < segments.len(),
        conversion::resizable(segments, i, false),
    ensures
        conversion::shrunk(e, segments, i, skip_learning, answers) matches Ok(after)
            ==> state::readings_text(after) == state::readings_text(segments) && i < after.len(),
{
    if let Ok(after) = conversion::shrunk(e, segments, i, skip_learning, answers) {
        let own = segments[i].reading;
        if i + 1 < segments.len() {
            let next = segments[i + 1].reading;
            lemma_readings_split(segments, i, 2);
            lemma_readings_of_two(segments.subrange(i, i + 2));
            lemma_readings_split(after, i, 2);
            lemma_readings_of_two(after.subrange(i, i + 2));
            assert(after.take(i) =~= segments.take(i));
            assert(after.skip(i + 2) =~= segments.skip(i + 2));
            assert(own.drop_last() + (seq![own.last()] + next) =~= own + next);
        } else {
            lemma_readings_split(segments, i, 1);
            lemma_reading_of_one(segments[i]);
            assert(segments.subrange(i, i + 1) =~= seq![segments[i]]);
            lemma_readings_split(after, i, 2);
            lemma_readings_of_two(after.subrange(i, i + 2));
            assert(after.take(i) =~= segments.take(i));
            assert(after.skip(i + 2) =~= segments.skip(i + 1));
            assert(own.drop_last() + seq![own.last()] =~= own);
        }
    }
}

/// Moving the end of a clause keeps the reading as a whole.
pub proof fn law_resizing_keeps_the_reading(
    e: EngineView,
    segments: Seq<SegmentView>,
    i: int,
    expand: bool,
    skip_learning: bool,
    answers: AnswersView,
)
    requires
        0 <= i < segments.len(),
        conversion::resizable(segments, i, expand),
    ensures
        expand ==> (conversion::grown(e, segments, i, skip_learning, answers) matches Ok(after)
            ==> state::readings_text(after) == state::readings_text(segments) && i < after.len()),
        !expand ==> (conversion::shrunk(e, segments, i, skip_learning, answers) matches Ok(after)
            ==> state::readings_text(after) == state::readings_text(segments) && i < after.len()),
{
    if expand {
        lemma_growing_keeps_the_reading(e, segments, i, skip_learning, answers);
    } else {
        lemma_shrinking_keeps_the_reading(e, segments, i, skip_learning, answers);
    }
}

/// Growing a clause and shrinking it again leaves the readings of the clauses
/// as they were, unless the next clause was used up with another one behind
/// it.
pub proof fn law_growing_then_shrinking_restores_the_clauses(
    e: EngineView,
    segments: Seq<SegmentView>,
    i: int,
    skip_learning: bool,
    answers: AnswersView,
)
    requires
        0 <= i < segments.len(),
        segments[i].reading.len() > 0,
        conversion::resizable(segments, i, true),
        segments[i + 1].reading.len() > 1 || i + 2 == segments.len(),
    ensures
        conversion::grown(e, segments, i, skip_learning, answers) matches Ok(longer) ==> (
        conversion::shrunk(e, longer, i, skip_learning, answers) matches Ok(after) ==> after.len()
            == segments.len() && forall|j: int|
            0 <= j < after.len() ==> (#[trigger] after[j]).reading == segments[j].reading),
{
    let next = segments[i + 1].reading;
    let rest = next.skip(1);
    if let Ok(longer) = conversion::grown(e, segments, i, skip_learning, answers) {
        let reading = segments[i].reading.push(next[0]);
        assert(longer[i].reading == reading);
        assert(reading.drop_last() =~= segments[i].reading);
        assert(reading.last() == next[0]);
        if let Ok(after) = conversion::shrunk(e, longer, i, skip_learning, answers) {
            if rest.len() == 0 {
                assert(seq![next[0]] =~= next);
            }
            assert(seq![next[0]] + rest =~= next);
        }
    }
}

/// Shrinking a clause and growing it again leaves the readings of the clauses
/// as they were.
pub proof fn law_shrinking_then_growing_restores_the_clauses(
    e: EngineView,
    segments: Seq<SegmentView>,
    i: int,
    skip_learning: bool,
    answers: AnswersView,
)
    requires
        0 <= i < segments.len(),
        conversion::resizable(segments, i, false),
        i + 1 < segments.len() ==> segments[i + 1].reading.len() > 0,
    ensures
        conversion::shrunk(e, segments, i, skip_learning, answers) matches Ok(shorter) ==> (
        conversion::grown(e, shorter, i, skip_learning, answers) matches Ok(after) ==> after.len()
            == segments.len() && forall|j: int|
            0 <= j < after.len() ==> (#[trigger] after[j]).reading == segments[j].reading),
{
    let own = segments[i].reading;
    if let Ok(shorter) = conversion::shrunk(e, segments, i, skip_learning, answers) {
        assert(own.drop_last().push(own.last()) =~= own);
        assert(shorter[i].reading == own.drop_last());
        if i + 1 < segments.len() {
            let next = seq![own.last()] + segments[i + 1].reading;
            assert(shorter[i + 1].reading == next);
            assert(next.skip(1) =~= segments[i + 1].reading);
            assert(next[0] == own.last());
        } else {
            assert(shorter[i + 1].reading == seq![own.last()]);
            assert(seq![own.last()].skip(1).len() == 0);
        }
    }
}

/// The dictionaries of an engine hold scores that fit their type.
pub open spec fn dictionaries_fit(e: EngineView) -> bool {
    alignment::scores_fit(e.user) && alignment::scores_fit(e.system)
}

/// Dividing a reading into clauses keeps the reading.
pub proof fn law_navigation_spans_keep_the_reading(
    e: EngineView,
    reading: Seq<char>,
    surface: Seq<char>,
)
    requires
        dictionaries_fit(e),
    ensures
        spans::spans_reading(clauses::navigation_spans(e, reading, surface)) == reading,
{
    let limit = segmentation::clause_limit(e.config.composing_chunk_len as int);
    let plain = segmentation::registered_clauses(
        e.user,
        e.system,
        limit,
        true,
        reading,
        Seq::empty(),
    );
    segmentation::law_registered_clauses_keep_the_reading(
        e.user,
        e.system,
        limit,
        true,
        reading,
        Seq::empty(),
    );
    assert(Seq::empty() + reading =~= reading);
    if clauses::tells_apart(reading, surface) {
        let task = alignment::alignment_task(
            e.user,
            e.system,
            e.config.composing_chunk_len as int,
            reading,
            surface,
        );
        alignment::law_aligned_clauses_keep_the_reading(task);
        spans::law_coalescing_keeps_the_reading(plain, surface.len() as int);
        if let Some(aligned) = alignment::aligned_clauses(task) {
            spans::law_coalescing_keeps_the_reading(aligned, surface.len() as int);
        }
    }
}

/// Outside emoji lookup every clause has something to offer.
proof fn lemma_offers_something(
    e: EngineView,
    reading: Seq<char>,
    preferred: Option<Seq<char>>,
    skip_learning: bool,
    answers: AnswersView,
)
    requires
        e.mode.current != InputMode::Emoji,
    ensures
        clauses::offered(e, reading, preferred, skip_learning, answers) matches Ok(list) ==> (
        list.candidates.len() > 0 && list.cursor == 0),
{
    if let Some(advice) = consult::advice_for(answers.advice, reading) {
        sources::law_kana_forms_are_offered(engine::setting(e), reading, advice, skip_learning);
    }
}

proof fn lemma_resting_readings(
    e: EngineView,
    spans: Seq<SpanView>,
    reading: Seq<char>,
    surface: Seq<char>,
    skip_learning: bool,
    answers: AnswersView,
    n: int,
)
    requires
        e.mode.current != InputMode::Emoji,
        0 <= n <= spans.len(),
    ensures
        clauses::resting_clauses(e, spans, reading, surface, skip_learning, answers, n) matches Ok(
            out,
        ) ==> out.len() == n && state::readings_text(out) == spans::spans_reading(spans.take(n)),
    decreases n,
{
    if n > 0 {
        lemma_resting_readings(e, spans, reading, surface, skip_learning, answers, n - 1);
        lemma_offers_something(
            e,
            spans[n - 1].reading,
            clauses::kept_text(spans, reading, surface, n - 1),
            skip_learning,
            answers,
        );
        assert(spans.take(n).drop_last() =~= spans.take(n - 1));
        if let Ok(out) = clauses::resting_clauses(
            e,
            spans,
            reading,
            surface,
            skip_learning,
            answers,
            n,
        ) {
            if let Ok(before) = clauses::resting_clauses(
                e,
                spans,
                reading,
                surface,
                skip_learning,
                answers,
                n - 1,
            ) {
                assert(out.drop_last() =~= before);
            }
        }
    } else {
        assert(spans.take(0) =~= Seq::empty());
    }
}

/// Outside emoji lookup the clauses to move among read as a whole what was
/// typed.
pub proof fn law_navigation_clauses_keep_the_reading(
    e: EngineView,
    reading: Seq<char>,
    surface: Seq<char>,
    skip_learning: bool,
    answers: AnswersView,
)
    requires
        e.mode.current != InputMode::Emoji,
        dictionaries_fit(e),
    ensures
        clauses::navigation_clauses(e, reading, surface, skip_learning, answers) matches Ok(
            segments,
        ) ==> (segments.len() > 0 ==> segments.len() > 1 && state::readings_text(segments)
            == reading),
{
    let spans = clauses::navigation_spans(e, reading, surface);
    law_navigation_spans_keep_the_reading(e, reading, surface);
    lemma_resting_readings(
        e,
        spans,
        reading,
        surface,
        skip_learning,
        answers,
        spans.len() as int,
    );
    assert(spans.take(spans.len() as int) =~= spans);
}

/// A conversion that hangs together: the clause in focus is the one whose
/// candidates are on display, the display shows the clauses, and the clauses
/// read as a whole what was typed.
pub open spec fn coherent(e: EngineView) -> bool {
    match e.state {
        StateView::Conversion { preedit, candidates, segments, active_segment, .. } => {
            &&& 0 <= active_segment < segments.len()
            &&& candidates == segments[active_segment].candidates
            &&& preedit == clauses::clauses_preedit(segments, active_segment)
            &&& state::readings_text(segments) == e.text
        },
        _ => true,
    }
}

proof fn lemma_update_keeps_readings(s: Seq<SegmentView>, i: int, x: SegmentView)
    requires
        0 <= i < s.len(),
        x.reading == s[i].reading,
    ensures
        state::readings_text(s.update(i, x)) == state::readings_text(s),
{
    lemma_same_readings(s.update(i, x), s);
}

/// Starting a conversion makes one that hangs together.
pub proof fn law_starting_is_coherent(e: EngineView, skip_learning: bool, answers: AnswersView)
    requires
        e.mode.current != InputMode::Emoji,
        dictionaries_fit(e),
        !(e.state is Conversion),
    ensures
        conversion::started(e, skip_learning, answers) matches Ok((after, _)) ==> coherent(after),
{
    if let Ok(f) = conversion::flushed(e, answers) {
        if let Ok(list) = clauses::offered(
            f,
            f.text,
            conversion::previous(f),
            skip_learning,
            answers,
        ) {
            law_navigation_clauses_keep_the_reading(
                f,
                f.text,
                candidate::selected_or(list, f.text),
                skip_learning,
                answers,
            );
            let one = SegmentView { reading: f.text, candidates: list, needs_expansion: false };
            lemma_reading_of_one(one);
            if let Ok(several) = clauses::navigation_clauses(
                f,
                f.text,
                candidate::selected_or(list, f.text),
                skip_learning,
                answers,
            ) {
                if several.len() > 1 {
                    if let Ok(focused) = clauses::focused(f, several, 0, skip_learning, answers) {
                        if several[0].needs_expansion {
                            lemma_update_keeps_readings(several, 0, focused[0]);
                        }
                    }
                }
            }
        }
    }
}

/// Choosing among the candidates keeps a conversion together.
pub proof fn law_navigation_is_coherent(e: EngineView, how: Navigation)
    requires
        coherent(e),
    ensures
        coherent(conversion::navigated(e, how).0),
{
    if let StateView::Conversion { candidates, segments, active_segment, .. } = e.state {
        let list = candidate::moved(candidates, how);
        lemma_update_keeps_readings(
            segments,
            active_segment,
            SegmentView { candidates: list, ..segments[active_segment] },
        );
    }
}

/// Moving the focus keeps a conversion together.
pub proof fn law_moving_the_focus_is_coherent(e: EngineView, forward: bool, answers: AnswersView)
    requires
        e.mode.current != InputMode::Emoji,
        dictionaries_fit(e),
        coherent(e),
    ensures
        conversion::refocused(e, forward, answers) matches Ok((after, _)) ==> coherent(after),
{
    if let StateView::Conversion { segments, active_segment, skip_learning, .. } = e.state {
        if segments.len() <= 1 {
            let surface = clauses::chosen_text(segments);
            law_navigation_clauses_keep_the_reading(e, e.text, surface, skip_learning, answers);
            if let Ok(several) = clauses::navigation_clauses(
                e,
                e.text,
                surface,
                skip_learning,
                answers,
            ) {
                if several.len() > 1 {
                    let i = if forward {
                        1
                    } else {
                        several.len() - 1
                    };
                    if let Ok(after) = clauses::focused(e, several, i, skip_learning, answers) {
                        if several[i].needs_expansion {
                            lemma_update_keeps_readings(several, i, after[i]);
                        }
                    }
                }
            }
        } else {
            let i = conversion::next_focus(segments.len() as int, active_segment, forward);
            if let Ok(after) = clauses::focused(e, segments, i, skip_learning, answers) {
                if segments[i].needs_expansion {
                    lemma_update_keeps_readings(segments, i, after[i]);
                }
            }
        }
    }
}

/// Moving the end of a clause keeps a conversion together.
pub proof fn law_resizing_is_coherent(e: EngineView, expand: bool, answers: AnswersView)
    requires
        coherent(e),
    ensures
        conversion::resized(e, expand, answers) matches Ok((after, _)) ==> coherent(after),
{
    if let StateView::Conversion { segments, active_segment, skip_learning, .. } = e.state {
        if conversion::resizable(segments, active_segment, expand) {
            law_resizing_keeps_the_reading(
                e,
                segments,
                active_segment,
                expand,
                skip_learning,
                answers,
            );
        }
    }
}

/// Dropping a learned conversion keeps a conversion together.
pub proof fn law_forgetting_is_coherent(e: EngineView, answers: AnswersView)
    requires
        coherent(e),
    ensures
        conversion::forgotten(e, answers) matches Ok((after, _)) ==> coherent(after),
{
    if let StateView::Conversion { segments, active_segment, skip_learning, .. } = e.state {
        if let Ok(segment) = conversion::listed(
            e,
            segments[active_segment].reading,
            skip_learning,
            answers,
        ) {
            lemma_update_keeps_readings(segments, active_segment, segment);
        }
    }
}

/// Outside emoji lookup no key ever breaks a conversion apart: the clauses go
/// on reading what was typed, and the display goes on showing them.
pub proof fn law_every_key_is_coherent(e: EngineView, key: KeyEvent, answers: AnswersView)
    requires
        e.mode.current != InputMode::Emoji,
        dictionaries_fit(e),
        coherent(e),
    ensures
        input::key_step(e, key, answers) matches Ok((after, _)) ==> coherent(after),
{
    if !(e.state is Conversion) {
        law_starting_is_coherent(e, true, answers);
        law_starting_is_coherent(e, false, answers);
    }
    law_moving_the_focus_is_coherent(e, true, answers);
    law_moving_the_focus_is_coherent(e, false, answers);
    law_resizing_is_coherent(e, true, answers);
    law_resizing_is_coherent(e, false, answers);
    law_forgetting_is_coherent(e, answers);
    if let ConversionCommand::Navigate(how) = keycode::command_of(key) {
        law_navigation_is_coherent(e, how);
    }
}

proof fn lemma_resting_asks(
    e: EngineView,
    spans: Seq<SpanView>,
    reading: Seq<char>,
    surface: Seq<char>,
    skip_learning: bool,
    answers: AnswersView,
    n: int,
)
    ensures
        clauses::resting_clauses(e, spans, reading, surface, skip_learning, answers, n) matches Err(
            question,
        ) ==> !consult::settled(answers, question),
    decreases n,
{
    if n > 0 {
        lemma_resting_asks(e, spans, reading, surface, skip_learning, answers, n - 1);
    }
}

proof fn lemma_navigation_asks(
    e: EngineView,
    reading: Seq<char>,
    surface: Seq<char>,
    skip_learning: bool,
    answers: AnswersView,
)
    ensures
        clauses::navigation_clauses(e, reading, surface, skip_learning, answers) matches Err(
            question,
        ) ==> !consult::settled(answers, question),
{
    let spans = clauses::navigation_spans(e, reading, surface);
    lemma_resting_asks(e, spans, reading, surface, skip_learning, answers, spans.len() as int);
}

proof fn lemma_auto_asks(
    e: EngineView,
    spans: Seq<SpanView>,
    left: Seq<char>,
    answers: AnswersView,
    n: int,
)
    ensures
        model::with_spans(e, spans, left, answers, n) matches Err(question) ==> !consult::settled(
            answers,
            question,
        ),
    decreases n,
{
    if n > 0 {
        lemma_auto_asks(e, spans, left, answers, n - 1);
    }
}

proof fn lemma_starting_asks(e: EngineView, skip_learning: bool, answers: AnswersView)
    ensures
        conversion::started(e, skip_learning, answers) matches Err(question) ==> !consult::settled(
            answers,
            question,
        ),
{
    if let Ok(f) = conversion::flushed(e, answers) {
        if let Ok(list) = clauses::offered(
            f,
            f.text,
            conversion::previous(f),
            skip_learning,
            answers,
        ) {
            lemma_navigation_asks(
                f,
                f.text,
                candidate::selected_or(list, f.text),
                skip_learning,
                answers,
            );
        }
    }
}

proof fn lemma_toggling_asks(e: EngineView, answers: AnswersView)
    ensures
        mode::live_toggled(e, answers) matches Err(question) ==> !consult::settled(
            answers,
            question,
        ),
{
    let switched = EngineView { live_enabled: !e.live_enabled, ..e };
    let spans = segmentation::registered_clauses(
        e.user,
        e.system,
        segmentation::clause_limit(e.config.composing_chunk_len as int),
        false,
        e.text,
        Seq::empty(),
    );
    lemma_auto_asks(
        switched,
        spans,
        engine::model_context(switched),
        answers,
        spans.len() as int,
    );
}

proof fn lemma_moving_asks(e: EngineView, forward: bool, answers: AnswersView)
    ensures
        conversion::refocused(e, forward, answers) matches Err(question) ==> !consult::settled(answers, question),
{
    if let StateView::Conversion { segments, skip_learning, .. } = e.state {
        lemma_navigation_asks(
            e,
            e.text,
            clauses::chosen_text(segments),
            skip_learning,
            answers,
        );
    }
}

proof fn lemma_resizing_asks(e: EngineView, expand: bool, answers: AnswersView)
    ensures
        conversion::resized(e, expand, answers) matches Err(question) ==> !consult::settled(answers, question),
{
}

proof fn lemma_forgetting_asks(e: EngineView, answers: AnswersView)
    ensures
        conversion::forgotten(e, answers) matches Err(question) ==> !consult::settled(answers, question),
{
}

proof fn lemma_typing_asks(e: EngineView, ch: char, answers: AnswersView)
    ensures
        conversion::committed_and_typed(e, ch, answers) matches Err(question) ==> !consult::settled(answers, question),
{
}

proof fn lemma_script_asks(e: EngineView, target: InputMode, answers: AnswersView)
    ensures
        mode::in_script(e, target, answers) matches Err(question) ==> !consult::settled(answers, question),
{
}

proof fn lemma_conversion_asks(e: EngineView, key: KeyEvent, answers: AnswersView)
    ensures
        conversion::conversion_step(e, key, answers) matches Err(question) ==> !consult::settled(answers, question),
{
    match keycode::command_of(key) {
        ConversionCommand::Shrink => lemma_resizing_asks(e, false, answers),
        ConversionCommand::Expand => lemma_resizing_asks(e, true, answers),
        ConversionCommand::PreviousSegment => lemma_moving_asks(e, false, answers),
        ConversionCommand::NextSegment => lemma_moving_asks(e, true, answers),
        ConversionCommand::Forget => lemma_forgetting_asks(e, answers),
        ConversionCommand::CommitAndType(ch) => lemma_typing_asks(e, ch, answers),
        ConversionCommand::Cancel => lemma_replay_asks(e.text, e.text.len() as int, answers),
        _ => {},
    }
}

/// Nothing is asked twice: what a key asks, its answers do not yet settle.
pub proof fn law_questions_are_open(e: EngineView, key: KeyEvent, answers: AnswersView)
    ensures
        input::key_step(e, key, answers) matches Err(question) ==> !consult::settled(
            answers,
            question,
        ),
{
    lemma_starting_asks(e, true, answers);
    lemma_starting_asks(e, false, answers);
    lemma_toggling_asks(e, answers);
    lemma_script_asks(e, InputMode::Hiragana, answers);
    lemma_script_asks(e, InputMode::Katakana, answers);
    lemma_replay_asks(e.text, e.text.len() as int, answers);
    lemma_conversion_asks(e, key, answers);
}

/// Starting a conversion leaves a clause in focus.
pub proof fn law_starting_keeps_a_focus(e: EngineView, skip_learning: bool, answers: AnswersView)
    requires
        engine::focus_exists(e),
    ensures
        conversion::started(e, skip_learning, answers) matches Ok((after, _))
            ==> engine::focus_exists(after),
{
}

/// Whatever key is pressed, a conversion has a clause in focus.
pub proof fn law_every_key_keeps_a_focus(e: EngineView, key: KeyEvent, answers: AnswersView)
    requires
        engine::focus_exists(e),
    ensures
        input::key_step(e, key, answers) matches Ok((after, _)) ==> engine::focus_exists(after),
{
    law_starting_keeps_a_focus(e, true, answers);
    law_starting_keeps_a_focus(e, false, answers);
}

/// In alphabet mode a key puts its character at the cursor as it is, a space
/// too, and the composition goes on.
pub proof fn law_alphabet_is_literal(e: EngineView, key: KeyEvent, answers: AnswersView)
    requires
        e.state is Composing,
        e.mode.current == InputMode::Alphabet,
        e.romaji.len() == 0,
        !key.modifiers.control_key,
        !key.modifiers.alt_key,
        keycode::char_of(key.keysym) is Some,
    ensures
        input::key_step(e, key, answers) matches Ok((after, _)) && after.text == engine::inserted(
            e.text,
            e.cursor,
            seq![keycode::char_of(key.keysym)->0],
        ) && after.state is Composing && after.mode.current == InputMode::Alphabet,
{
}

/// A text without the separators of clauses.
pub open spec fn without_separators(text: Seq<char>) -> Seq<char> {
    text.filter(|c: char| c != clauses::SEGMENT_DISPLAY_SEPARATOR)
}

proof fn lemma_display_is_chosen(segments: Seq<SegmentView>, k: int)
    requires
        0 <= k <= segments.len(),
    ensures
        without_separators(clauses::display_text(segments, k)) == without_separators(
            clauses::chosen_text(segments.take(k)),
        ),
    decreases k,
{
    let keep = |c: char| c != clauses::SEGMENT_DISPLAY_SEPARATOR;
    if k == 0 {
        assert(segments.take(0) =~= Seq::empty());
    } else {
        lemma_display_is_chosen(segments, k - 1);
        let own = clauses::segment_text(segments[k - 1]);
        let before = clauses::chosen_text(segments.take(k - 1));
        assert(segments.take(k).drop_last() =~= segments.take(k - 1));
        assert(clauses::chosen_text(segments.take(k)) == before + own);
        Seq::filter_distributes_over_add(before, own, keep);
        if k == 1 {
            assert(before =~= Seq::empty());
            assert(before + own =~= own);
        } else {
            let shown = clauses::display_text(segments, k - 1);
            let sep = seq![clauses::SEGMENT_DISPLAY_SEPARATOR];
            assert(shown.push(clauses::SEGMENT_DISPLAY_SEPARATOR) =~= shown + sep);
            Seq::filter_distributes_over_add(shown + sep, own, keep);
            Seq::filter_distributes_over_add(shown, sep, keep);
            reveal_with_fuel(Seq::filter, 2);
            assert(sep.drop_last() =~= Seq::empty());
            assert(sep.filter(keep) =~= Seq::empty());
            assert(shown.filter(keep) + Seq::empty() =~= shown.filter(keep));
        }
    }
}

/// What is committed is what is on display, but for the separators.
pub proof fn law_commit_is_what_is_shown(e: EngineView)
    requires
        coherent(e),
        e.state is Conversion,
    ensures
        ({
            let (after, result) = conversion::committed(e);
            let segments = e.state->segments;
            let text = clauses::chosen_text(segments);
            &&& without_separators(e.state->Conversion_preedit.text) == without_separators(text)
            &&& text.len() > 0 ==> result.actions.last() == action::ActionView::Commit(text)
                && after.state == StateView::Empty && after.text.len() == 0
        }),
{
    let segments = e.state->segments;
    lemma_display_is_chosen(segments, segments.len() as int);
    assert(segments.take(segments.len() as int) =~= segments);
}

proof fn lemma_replay_asks(reading: Seq<char>, n: int, answers: AnswersView)
    ensures
        conversion::replayed(reading, n, answers) matches Err(question) ==> !consult::settled(
            answers,
            question,
        ),
    decreases n,
{
    if n > 0 {
        lemma_replay_asks(reading, n - 1, answers);
    }
}

/// Leaving a conversion gives the reading back as it was typed; the display
/// shows it, with the romaji behind it that is pending again.
pub proof fn law_cancelling_gives_the_reading_back(e: EngineView, answers: AnswersView)
    requires
        e.state is Conversion,
        e.text.len() > 0,
        e.live_text.len() == 0,
        e.mode.current != InputMode::Katakana,
    ensures
        match conversion::replayed(e.text, e.text.len() as int, answers) {
            Ok(pending) => conversion::cancelled(e, answers) matches Ok((after, _)) && {
                &&& after.state is Composing
                &&& after.text == e.text
                &&& after.romaji == pending
                &&& after.state->Composing_preedit.text == e.text + pending
                &&& after.state->Composing_preedit.caret == e.text.len() + pending.len()
            },
            Err(question) => conversion::cancelled(e, answers) == Err::<
                (EngineView, action::ResultView),
                consult::QuestionView,
            >(question),
        },
{
    if let Ok(pending) = conversion::replayed(e.text, e.text.len() as int, answers) {
        assert(engine::inserted(e.text, e.text.len() as int, pending) =~= e.text + pending);
    }
}

/// Putting the text into a kana script drops the selection and keeps the
/// reading up to its script; nothing is committed.
pub proof fn law_scripts_keep_the_reading(e: EngineView, target: InputMode, answers: AnswersView)
    requires
        e.romaji.len() == 0,
    ensures
        mode::in_script(e, target, answers) matches Ok((after, result)) && {
            &&& after.state is Composing
            &&& after.text.len() == e.text.len()
            &&& target != InputMode::Hiragana ==> after.text == e.text
            &&& forall|i: int|
                0 <= i < result.actions.len() ==> !((#[trigger] result.actions[i]) is Commit)
        },
{
}

/// Switching conversion while typing twice is as good as not at all, but for
/// the display of a text that is being composed.
pub proof fn law_toggling_twice(e: EngineView, answers: AnswersView)
    ensures
        mode::live_toggled(e, answers) matches Ok((once, _)) ==> once.live_enabled
            == !e.live_enabled && once.text == e.text && (!(e.state is Composing) ==> (
        mode::live_toggled(once, answers) matches Ok((twice, _)) && twice == e)),
{
}

/// Two lists of clauses that show the same texts.
pub open spec fn same_texts(a: Seq<SegmentView>, b: Seq<SegmentView>) -> bool {
    a.len() == b.len() && forall|i: int|
        0 <= i < a.len() ==> clauses::segment_text(#[trigger] a[i]) == clauses::segment_text(b[i])
}

proof fn lemma_same_display(a: Seq<SegmentView>, b: Seq<SegmentView>, k: int)
    requires
        same_texts(a, b),
        0 <= k <= a.len(),
    ensures
        clauses::display_text(a, k) == clauses::display_text(b, k),
    decreases k,
{
    if k > 0 {
        lemma_same_display(a, b, k - 1);
        assert(clauses::segment_text(a[k - 1]) == clauses::segment_text(b[k - 1]));
    }
}

proof fn lemma_offered_prefers(
    e: EngineView,
    reading: Seq<char>,
    text: Seq<char>,
    skip_learning: bool,
    answers: AnswersView,
)
    requires
        e.mode.current != InputMode::Emoji,
        text.len() > 0,
    ensures
        clauses::offered(e, reading, Some(text), skip_learning, answers) matches Ok(list) ==> (
        candidate::selected(list) matches Some(c) && c.text == text),
{
    if let Some(advice) = consult::advice_for(answers.advice, reading) {
        sources::law_preferred_text_is_selected(
            engine::setting(e),
            reading,
            text,
            skip_learning,
            advice,
        );
    }
}

/// Focusing a clause completes its list and changes no text on display.
pub proof fn law_focusing_keeps_the_texts(
    e: EngineView,
    segments: Seq<SegmentView>,
    i: int,
    skip_learning: bool,
    answers: AnswersView,
)
    requires
        e.mode.current != InputMode::Emoji,
        0 <= i < segments.len(),
        clauses::segment_text(segments[i]).len() > 0,
    ensures
        clauses::focused(e, segments, i, skip_learning, answers) matches Ok(after) ==> same_texts(
            segments,
            after,
        ) && !after[i].needs_expansion,
{
    lemma_offered_prefers(
        e,
        segments[i].reading,
        clauses::segment_text(segments[i]),
        skip_learning,
        answers,
    );
}

/// Moving the focus among the clauses changes no text on display.
pub proof fn law_moving_the_focus_keeps_the_display(
    e: EngineView,
    forward: bool,
    answers: AnswersView,
)
    requires
        e.mode.current != InputMode::Emoji,
        coherent(e),
        e.state is Conversion,
        e.state->segments.len() > 1,
        forall|i: int|
            0 <= i < e.state->segments.len() ==> clauses::segment_text(
                #[trigger] e.state->segments[i],
            ).len() > 0,
    ensures
        conversion::refocused(e, forward, answers) matches Ok((after, _)) ==> (after.state matches StateView::Conversion {
            preedit,
            ..
        } && preedit.text == e.state->Conversion_preedit.text),
{
    let segments = e.state->segments;
    let skip_learning = e.state->skip_learning;
    let i = conversion::next_focus(segments.len() as int, e.state->active_segment, forward);
    law_focusing_keeps_the_texts(e, segments, i, skip_learning, answers);
    if let Ok(after) = clauses::focused(e, segments, i, skip_learning, answers) {
        lemma_same_display(segments, after, segments.len() as int);
    }
}

/// Moving the focus changes no list but the one it completes: every clause
/// stays as it is, the one moved to as well where its list is whole.
pub proof fn law_moving_the_focus_keeps_the_lists(
    e: EngineView,
    forward: bool,
    answers: AnswersView,
    j: int,
)
    requires
        engine::focus_exists(e),
        e.state is Conversion,
        e.state->segments.len() > 1,
        0 <= j < e.state->segments.len(),
        j == conversion::next_focus(
            e.state->segments.len() as int,
            e.state->active_segment,
            forward,
        ) ==> !e.state->segments[j].needs_expansion,
    ensures
        conversion::refocused(e, forward, answers) matches Ok((after, _)) ==> (after.state matches StateView::Conversion {
            segments,
            ..
        } && segments.len() == e.state->segments.len() && segments[j] == e.state->segments[j]),
{
}

/// The text on display divides over the clauses: each keeps a part of it, and
/// together they keep all of it.
pub open spec fn divides(e: EngineView, reading: Seq<char>, surface: Seq<char>) -> bool {
    let spans = clauses::navigation_spans(e, reading, surface);
    let kept = Seq::new(spans.len(), |i: int| clauses::kept_text(spans, reading, surface, i));
    &&& forall|i: int|
        0 <= i < spans.len() ==> (#[trigger] kept[i] matches Some(text) && text.len() > 0)
    &&& spans::pieces_text(kept) == surface
}

proof fn lemma_resting_texts(
    e: EngineView,
    spans: Seq<SpanView>,
    reading: Seq<char>,
    surface: Seq<char>,
    skip_learning: bool,
    answers: AnswersView,
    n: int,
)
    requires
        e.mode.current != InputMode::Emoji,
        0 <= n <= spans.len(),
        forall|i: int|
            0 <= i < spans.len() ==> (#[trigger] clauses::kept_text(spans, reading, surface, i)
                matches Some(text) && text.len() > 0),
    ensures
        clauses::resting_clauses(e, spans, reading, surface, skip_learning, answers, n) matches Ok(
            out,
        ) ==> out.len() == n && clauses::chosen_text(out) == spans::pieces_text(
            Seq::new(n as nat, |i: int| clauses::kept_text(spans, reading, surface, i)),
        ) && forall|i: int|
            0 <= i < n ==> clauses::segment_text(#[trigger] out[i]).len() > 0,
    decreases n,
{
    let kept = Seq::new(n as nat, |i: int| clauses::kept_text(spans, reading, surface, i));
    if n > 0 {
        lemma_resting_texts(e, spans, reading, surface, skip_learning, answers, n - 1);
        let own = clauses::kept_text(spans, reading, surface, n - 1);
        lemma_offered_prefers(e, spans[n - 1].reading, own->0, skip_learning, answers);
        assert(kept.drop_last() =~= Seq::new(
            (n - 1) as nat,
            |i: int| clauses::kept_text(spans, reading, surface, i),
        ));
        if let Ok(out) = clauses::resting_clauses(
            e,
            spans,
            reading,
            surface,
            skip_learning,
            answers,
            n,
        ) {
            if let Ok(before) = clauses::resting_clauses(
                e,
                spans,
                reading,
                surface,
                skip_learning,
                answers,
                n - 1,
            ) {
                assert(out.drop_last() =~= before);
                assert(clauses::segment_text(out.last()) == own->0);
                assert forall|i: int| 0 <= i < n implies clauses::segment_text(
                    #[trigger] out[i],
                ).len() > 0 by {
                    if i < n - 1 {
                        assert(out[i] == before[i]);
                    }
                }
            }
        }
    }
}

proof fn lemma_same_chosen(a: Seq<SegmentView>, b: Seq<SegmentView>)
    requires
        same_texts(a, b),
    ensures
        clauses::chosen_text(a) == clauses::chosen_text(b),
    decreases a.len(),
{
    if a.len() > 0 {
        assert forall|i: int| 0 <= i < a.drop_last().len() implies clauses::segment_text(
            #[trigger] a.drop_last()[i],
        ) == clauses::segment_text(b.drop_last()[i]) by {
            assert(clauses::segment_text(a[i]) == clauses::segment_text(b[i]));
        }
        lemma_same_chosen(a.drop_last(), b.drop_last());
        assert(clauses::segment_text(a[a.len() - 1]) == clauses::segment_text(b[b.len() - 1]));
    }
}

/// Starting a conversion leaves the text that was on display while typing as
/// it is, wherever that text divides over the clauses.
pub proof fn law_starting_keeps_the_display(
    e: EngineView,
    skip_learning: bool,
    answers: AnswersView,
)
    requires
        e.mode.current != InputMode::Emoji,
        e.romaji.len() == 0,
        e.text.len() > 0,
        e.live_text.len() > 0,
        clauses::navigation_spans(e, e.text, e.live_text).len() <= 1 || divides(
            e,
            e.text,
            e.live_text,
        ),
    ensures
        conversion::started(e, skip_learning, answers) matches Ok((after, _)) ==> (after.state matches StateView::Conversion {
            segments,
            ..
        } && clauses::chosen_text(segments) == e.live_text),
{
    lemma_offered_prefers(e, e.text, e.live_text, skip_learning, answers);
    if let Ok(list) = clauses::offered(e, e.text, Some(e.live_text), skip_learning, answers) {
        let one = SegmentView { reading: e.text, candidates: list, needs_expansion: false };
        assert(seq![one].drop_last() =~= Seq::empty());
        assert(clauses::chosen_text(Seq::<SegmentView>::empty()) =~= Seq::empty());
        assert(Seq::empty() + e.live_text =~= e.live_text);
        assert(clauses::chosen_text(seq![one]) == e.live_text);
        let spans = clauses::navigation_spans(e, e.text, e.live_text);
        if spans.len() > 1 {
            let kept = Seq::new(
                spans.len(),
                |i: int| clauses::kept_text(spans, e.text, e.live_text, i),
            );
            assert forall|i: int| 0 <= i < spans.len() implies (#[trigger] clauses::kept_text(
                spans,
                e.text,
                e.live_text,
                i,
            ) matches Some(text) && text.len() > 0) by {
                assert(kept[i] == clauses::kept_text(spans, e.text, e.live_text, i));
            }
            lemma_resting_texts(
                e,
                spans,
                e.text,
                e.live_text,
                skip_learning,
                answers,
                spans.len() as int,
            );
            if let Ok(several) = clauses::navigation_clauses(
                e,
                e.text,
                e.live_text,
                skip_learning,
                answers,
            ) {
                law_focusing_keeps_the_texts(e, several, 0, skip_learning, answers);
                if let Ok(after) = clauses::focused(e, several, 0, skip_learning, answers) {
                    lemma_same_chosen(several, after);
                }
            }
        }
    }
}

proof fn lemma_no_anchors(surface: Seq<char>, spans: Seq<SpanView>, idx: int)
    requires
        0 <= idx <= spans.len(),
        forall|i: int| 0 <= i < spans.len() ==> (#[trigger] spans[i]).fixed is None,
    ensures
        spans::anchored(surface, spans, idx, 0, 0) == Some(spans::shared_out(surface, spans)),
    decreases spans.len() - idx,
{
    if idx < spans.len() {
        lemma_no_anchors(surface, spans, idx + 1);
    } else {
        assert(surface.subrange(0, surface.len() as int) =~= surface);
        assert(spans.subrange(0, spans.len() as int) =~= spans);
    }
}

/// Where no registered or aligned word binds a clause, any text on display
/// divides over the clauses.
pub proof fn law_free_clauses_divide_the_display(
    e: EngineView,
    reading: Seq<char>,
    surface: Seq<char>,
)
    requires
        dictionaries_fit(e),
        reading.len() > 0,
        clauses::tells_apart(reading, surface),
        forall|i: int|
            0 <= i < clauses::navigation_spans(e, reading, surface).len() ==> (
            #[trigger] clauses::navigation_spans(e, reading, surface)[i]).fixed is None,
    ensures
        divides(e, reading, surface),
{
    let spans = clauses::navigation_spans(e, reading, surface);
    let kept = Seq::new(spans.len(), |i: int| clauses::kept_text(spans, reading, surface, i));
    law_navigation_spans_keep_the_reading(e, reading, surface);
    lemma_no_anchors(surface, spans, 0);
    spans::law_sharing_keeps_the_surface(surface, spans);
    assert(kept =~= spans::shared_out(surface, spans));
    lemma_spans_fit_the_surface(e, reading, surface);
    assert forall|i: int| 0 <= i < spans.len() implies (#[trigger] kept[i] matches Some(text)
        && text.len() > 0) by {
        spans::law_every_span_gets_a_piece(surface, spans, i);
    }
}

/// Wherever the words that bind clauses are found in the text on display and
/// the text between them fills the free clauses there, that text divides over
/// the clauses.
pub proof fn law_anchored_clauses_divide_the_display(
    e: EngineView,
    reading: Seq<char>,
    surface: Seq<char>,
)
    requires
        dictionaries_fit(e),
        clauses::tells_apart(reading, surface),
        spans::anchors_fill(surface, clauses::navigation_spans(e, reading, surface), 0, 0, 0),
    ensures
        divides(e, reading, surface),
{
    let spans = clauses::navigation_spans(e, reading, surface);
    let kept = Seq::new(spans.len(), |i: int| clauses::kept_text(spans, reading, surface, i));
    let limit = segmentation::clause_limit(e.config.composing_chunk_len as int);
    let plain = segmentation::registered_clauses(
        e.user,
        e.system,
        limit,
        true,
        reading,
        Seq::empty(),
    );
    let task = alignment::alignment_task(
        e.user,
        e.system,
        e.config.composing_chunk_len as int,
        reading,
        surface,
    );
    segmentation::lemma_registered_clauses_are_readable(
        e.user,
        e.system,
        limit,
        true,
        reading,
        Seq::empty(),
    );
    spans::lemma_coalescing_keeps_readable(plain, surface.len() as int);
    if let Some(aligned) = alignment::aligned_clauses(task) {
        assert forall|i: int|
            0 <= i < aligned.len() && (
            #[trigger] aligned[i]).fixed is None implies aligned[i].reading.len() > 0 by {
            alignment::law_aligned_clauses_are_not_empty(task, i);
        }
        spans::lemma_coalescing_keeps_readable(aligned, surface.len() as int);
    }
    spans::law_anchors_divide_the_surface(surface, spans);
    let laid = spans::laid_out(surface, spans);
    assert forall|i: int| 0 <= i < spans.len() implies #[trigger] kept[i] == laid[i] by {
        spans::law_anchors_keep_fixed_surfaces(surface, spans, i);
    }
    assert(kept =~= laid);
}

proof fn lemma_pinned_text(spans: Seq<SpanView>, pieces: Seq<Option<Seq<char>>>)
    requires
        pieces.len() == spans.len(),
        forall|i: int|
            0 <= i < spans.len() ==> (#[trigger] spans[i]).fixed is Some && spans[i].fixed
                == pieces[i],
    ensures
        spans::pieces_text(pieces) == segmentation::replaced_text(spans),
    decreases spans.len(),
{
    if spans.len() > 0 {
        assert(spans[spans.len() - 1].fixed == pieces[spans.len() - 1]);
        assert forall|i: int| 0 <= i < spans.drop_last().len() implies (
        #[trigger] spans.drop_last()[i]).fixed is Some && spans.drop_last()[i].fixed
            == pieces.drop_last()[i] by {
            assert(spans.drop_last()[i] == spans[i]);
        }
        lemma_pinned_text(spans.drop_last(), pieces.drop_last());
    }
}

proof fn lemma_pinned_len(spans: Seq<SpanView>)
    requires
        forall|i: int|
            0 <= i < spans.len() ==> ((#[trigger] spans[i]).fixed matches Some(word) && word.len()
                > 0),
    ensures
        spans.len() <= segmentation::replaced_text(spans).len(),
    decreases spans.len(),
{
    if spans.len() > 0 {
        assert(spans[spans.len() - 1].fixed is Some);
        assert forall|i: int| 0 <= i < spans.drop_last().len() implies ((
        #[trigger] spans.drop_last()[i]).fixed matches Some(word) && word.len() > 0) by {
            assert(spans.drop_last()[i] == spans[i]);
        }
        lemma_pinned_len(spans.drop_last());
    }
}

/// Where the text on display is a run of dictionary words, each of them a
/// clause, it divides over the clauses.
pub proof fn law_pinned_clauses_divide_the_display(
    e: EngineView,
    reading: Seq<char>,
    surface: Seq<char>,
)
    requires
        dictionaries_fit(e),
        clauses::tells_apart(reading, surface),
        alignment::aligned_clauses(
            alignment::alignment_task(
                e.user,
                e.system,
                e.config.composing_chunk_len as int,
                reading,
                surface,
            ),
        ) matches Some(aligned) && aligned.len() > 1 && forall|i: int|
            0 <= i < aligned.len() ==> (#[trigger] aligned[i]).fixed is Some,
    ensures
        divides(e, reading, surface),
{
    let task = alignment::alignment_task(
        e.user,
        e.system,
        e.config.composing_chunk_len as int,
        reading,
        surface,
    );
    let aligned = alignment::aligned_clauses(task)->0;
    alignment::law_aligned_clauses_show_the_surface(task);
    assert forall|i: int| 0 <= i < aligned.len() implies ((#[trigger] aligned[i]).fixed matches Some(
        word,
    ) && word.len() > 0) by {
        alignment::law_aligned_clauses_are_not_empty(task, i);
    }
    lemma_pinned_len(aligned);
    let spans = clauses::navigation_spans(e, reading, surface);
    assert(spans == aligned);
    let kept = Seq::new(spans.len(), |i: int| clauses::kept_text(spans, reading, surface, i));
    lemma_pinned_text(spans, kept);
}

proof fn lemma_spans_fit_the_surface(e: EngineView, reading: Seq<char>, surface: Seq<char>)
    requires
        clauses::tells_apart(reading, surface),
    ensures
        clauses::navigation_spans(e, reading, surface).len() <= surface.len(),
{
    let limit = segmentation::clause_limit(e.config.composing_chunk_len as int);
    let plain = segmentation::registered_clauses(
        e.user,
        e.system,
        limit,
        true,
        reading,
        Seq::empty(),
    );
    let task = alignment::alignment_task(
        e.user,
        e.system,
        e.config.composing_chunk_len as int,
        reading,
        surface,
    );
    spans::law_coalescing_keeps_the_reading(plain, surface.len() as int);
    if let Some(aligned) = alignment::aligned_clauses(task) {
        spans::law_coalescing_keeps_the_reading(aligned, surface.len() as int);
    }
}

/// A text typed right behind a commit sees the committed text on its left.
pub proof fn law_typing_on_sees_the_commit(e: EngineView, ch: char, answers: AnswersView)
    requires
        e.state is Conversion,
    ensures
        conversion::committed_and_typed(e, ch, answers) matches Ok((after, result)) ==> {
            &&& engine::left_of(after) == engine::left_of(e) + clauses::chosen_text(
                e.state->segments,
            )
            &&& engine::right_of(after) == engine::right_of(e)
            &&& result.actions[0] == action::ActionView::Commit(
                clauses::chosen_text(e.state->segments),
            )
        },
{
}

/// What was looked up as an emoji never gets into the history; any other
/// conversion does, clause by clause, where there is a history.
pub proof fn law_what_is_recorded(e: EngineView)
    requires
        e.state is Conversion,
        clauses::chosen_text(e.state->segments).len() > 0,
    ensures
        ({
            let after = conversion::committed(e).0;
            if e.mode.current == InputMode::Emoji || e.learning is None {
                after.recorded == e.recorded
            } else {
                after.recorded == e.recorded + clauses::selections(e.state->segments)
            }
        }),
{
}

} // verus!
