//! Converting: starting a conversion, choosing among candidates and clauses,
//! and committing or leaving it.

use vstd::prelude::*;
use crate::action::{ActionView, AuxText, AuxView, EngineAction, EngineResult, ResultView};
use crate::action;
use crate::advice::{LearnedEntry, LearnedView};
use crate::candidate::{CandidateList, CandidateSource, ListView, Navigation};
use crate::candidate;
use crate::clauses::build_conversion_preedit_from_segments;
use crate::clauses;
use crate::consult::{Answers, AnswersView, Question, QuestionView};
use crate::consult::{find_flushed, find_forgotten, find_step};
use crate::consult;
use crate::engine::{ContextView, EngineView, InputMethodEngine, InputMode, MetricsView};
use crate::engine;
use crate::input;
use crate::keycode::{ConversionCommand, KeyEvent};
use crate::keycode::conversion_command;
use crate::keycode;
use crate::lists::{add_item, add_items};
use crate::preedit::{Preedit, PreeditView};
use crate::preedit;
use crate::state::{ConversionSegment, InputState, SegmentView, StateView};
use crate::state::copied;
use crate::state;
use crate::text::{char_count, chars_of, joined, text_of_range};

verus! {

/// A step of the engine: the engine afterwards and what is to be done, or
/// what has to be known first.
pub type Step = Result<(EngineView, ResultView), QuestionView>;

/// What is to be done when the candidates or the clauses have changed.
pub open spec fn update_result(preedit: PreeditView, list: ListView, reading: Seq<char>) -> ResultView {
    action::consumed(
        seq![
            ActionView::UpdatePreedit(preedit),
            ActionView::ShowCandidates(list),
            ActionView::UpdateAuxText(AuxView::Conversion { reading, candidates: list }),
        ],
    )
}

/// The engine converting, with a clause in focus.
pub open spec fn converting(
    e: EngineView,
    segments: Seq<SegmentView>,
    active: int,
    skip_learning: bool,
) -> EngineView {
    EngineView {
        state: StateView::Conversion {
            preedit: clauses::clauses_preedit(segments, active),
            candidates: segments[active].candidates,
            segments,
            active_segment: active,
            skip_learning,
        },
        ..e
    }
}

/// The engine converting, with a clause in focus, shown as such.
pub open spec fn shown(
    e: EngineView,
    segments: Seq<SegmentView>,
    active: int,
    skip_learning: bool,
) -> Step {
    Ok(
        (
            converting(e, segments, active, skip_learning),
            update_result(
                clauses::clauses_preedit(segments, active),
                segments[active].candidates,
                segments[active].reading,
            ),
        ),
    )
}

/// The engine with pending romaji turned into kana at the cursor.
pub open spec fn flushed(e: EngineView, answers: AnswersView) -> Result<EngineView, QuestionView> {
    if e.romaji.len() == 0 {
        Ok(e)
    } else {
        match consult::flushed_for(answers.flushed, e.romaji) {
            Some(answer) => Ok(
                EngineView {
                    text: engine::inserted(e.text, e.cursor, answer.kana),
                    cursor: engine::cursor_in(e.text, e.cursor) + answer.kana.len(),
                    romaji: Seq::empty(),
                    ..e
                },
            ),
            None => Err(QuestionView::Flush { buffer: e.romaji }),
        }
    }
}

/// The text converted while typing is preferred, where there is one.
pub open spec fn previous(e: EngineView) -> Option<Seq<char>> {
    if e.live_text.len() > 0 {
        Some(e.live_text)
    } else {
        None
    }
}

/// A conversion of the whole reading: what is on display stays selected, and
/// where the reading has several clauses the first one is in focus.
pub open spec fn begun(e: EngineView, skip_learning: bool, answers: AnswersView) -> Step {
    let after = EngineView { live_text: Seq::empty(), cursor: 0, ..e };
    if e.text.len() == 0 {
        Ok((after, action::consumed(Seq::empty())))
    } else {
        match clauses::offered(e, e.text, previous(e), skip_learning, answers) {
            Err(question) => Err(question),
            Ok(list) => if list.candidates.len() == 0 {
                let preedit = preedit::underlined(e.text, e.text.len() as int);
                Ok(
                    (
                        EngineView {
                            state: StateView::Composing { preedit, romaji_buffer: Seq::empty() },
                            ..after
                        },
                        action::consumed(seq![ActionView::UpdatePreedit(preedit)]),
                    ),
                )
            } else {
                match clauses::navigation_clauses(
                    e,
                    e.text,
                    candidate::selected_or(list, e.text),
                    skip_learning,
                    answers,
                ) {
                    Err(question) => Err(question),
                    Ok(segments) => if segments.len() > 1 {
                        match clauses::focused(e, segments, 0, skip_learning, answers) {
                            Err(question) => Err(question),
                            Ok(segments) => shown(after, segments, 0, skip_learning),
                        }
                    } else {
                        shown(
                            after,
                            seq![
                                SegmentView {
                                    reading: e.text,
                                    candidates: list,
                                    needs_expansion: false,
                                },
                            ],
                            0,
                            skip_learning,
                        )
                    },
                }
            },
        }
    }
}

/// Starting a conversion.
pub open spec fn started(e: EngineView, skip_learning: bool, answers: AnswersView) -> Step {
    match flushed(e, answers) {
        Ok(e) => begun(e, skip_learning, answers),
        Err(question) => Err(question),
    }
}

fn update_actions(preedit: Preedit, candidates: CandidateList, reading: &str) -> (r: EngineResult)
    ensures
        r.deep_view() == update_result(preedit.deep_view(), candidates.deep_view(), reading@),
{
    let aux = AuxText::Conversion { reading: reading.to_owned(), candidates: candidates.clone() };
    let r = EngineResult::consumed().with_action(
        EngineAction::UpdatePreedit(preedit),
    ).with_action(EngineAction::ShowCandidates(candidates)).with_action(
        EngineAction::UpdateAuxText(aux),
    );
    assert(r.deep_view().actions =~= update_result(
        preedit.deep_view(),
        candidates.deep_view(),
        reading@,
    ).actions);
    r
}

impl InputMethodEngine {
    /// Goes over to converting, with a clause in focus.
    pub fn enter_conversion_state(
        &mut self,
        segments: Vec<ConversionSegment>,
        active_segment: usize,
        skip_learning: bool,
    ) -> (r: EngineResult)
        requires
            active_segment < segments@.len(),
        ensures
            shown(
                old(self).deep_view(),
                segments.deep_view(),
                active_segment as int,
                skip_learning,
            ) == Ok::<(EngineView, ResultView), QuestionView>(
                (final(self).deep_view(), r.deep_view()),
            ),
    {
        assert(segments.deep_view()[active_segment as int]
            == segments@[active_segment as int].deep_view());
        let candidates = segments[active_segment].candidates.clone();
        let reading = segments[active_segment].reading.clone();
        let preedit = build_conversion_preedit_from_segments(&segments, active_segment);
        self.state = InputState::Conversion {
            preedit: preedit.clone(),
            candidates: candidates.clone(),
            segments,
            active_segment,
            skip_learning,
        };
        update_actions(preedit, candidates, reading.as_str())
    }

    /// Turns pending romaji into kana at the cursor.
    pub fn flush_romaji_to_composed(&mut self, answers: &Answers) -> (r: Result<(), Question>)
        ensures
            match r {
                Ok(()) => flushed(old(self).deep_view(), answers.deep_view()) == Ok::<
                    EngineView,
                    QuestionView,
                >(final(self).deep_view()),
                Err(question) => flushed(old(self).deep_view(), answers.deep_view()) == Err::<
                    EngineView,
                    QuestionView,
                >(question.deep_view()) && final(self).deep_view() == old(self).deep_view(),
            },
    {
        if self.converters.romaji.buffer.as_str().is_empty() {
            return Ok(());
        }
        match find_flushed(&answers.flushed, self.converters.romaji.buffer.as_str()) {
            Some(answer) => {
                self.input_buf.insert(answer.kana.as_str());
                self.converters.romaji.buffer = String::new();
                Ok(())
            },
            None => Err(Question::Flush { buffer: self.converters.romaji.buffer.clone() }),
        }
    }
}

impl InputMethodEngine {
    /// The whole reading as one clause, if it has any candidate.
    fn build_initial_conversion_segment(&self, skip_learning: bool, answers: &Answers) -> (r: Result<
        Option<ConversionSegment>,
        Question,
    >)
        ensures
            match (
                r,
                clauses::offered(
                    self.deep_view(),
                    self.deep_view().text,
                    previous(self.deep_view()),
                    skip_learning,
                    answers.deep_view(),
                ),
            ) {
                (Ok(Some(segment)), Ok(list)) => list.candidates.len() > 0 && segment.deep_view()
                    == (SegmentView {
                    reading: self.deep_view().text,
                    candidates: list,
                    needs_expansion: false,
                }),
                (Ok(None), Ok(list)) => list.candidates.len() == 0,
                (Err(question), Err(expected)) => question.deep_view() == expected,
                _ => false,
            },
    {
        let reading = self.input_buf.text.clone();
        let preferred: Option<String> = if self.live.text.as_str().is_empty() {
            None
        } else {
            Some(self.live.text.clone())
        };
        match self.candidates_for(reading.as_str(), &preferred, skip_learning, answers) {
            Ok(list) => if list.is_empty() {
                Ok(None)
            } else {
                Ok(
                    Some(
                        ConversionSegment { reading, candidates: list, needs_expansion: false },
                    ),
                )
            },
            Err(question) => Err(question),
        }
    }

    fn begin_conversion(&mut self, skip_learning: bool, answers: &Answers) -> (r: Result<
        EngineResult,
        Question,
    >)
        requires
            old(self).deep_view().romaji.len() == 0,
        ensures
            engine::answered(
                begun(old(self).deep_view(), skip_learning, answers.deep_view()),
                old(self).deep_view(),
                final(self).deep_view(),
                r,
            ),
    {
        let reading = self.input_buf.text.clone();
        if reading.as_str().is_empty() {
            self.live.text = String::new();
            self.input_buf.cursor_pos = 0;
            return Ok(EngineResult::consumed());
        }
        let segment = match self.build_initial_conversion_segment(skip_learning, answers) {
            Ok(Some(segment)) => segment,
            Ok(None) => {
                let preedit = Preedit::with_text_underlined(reading.as_str());
                self.live.text = String::new();
                self.input_buf.cursor_pos = 0;
                self.state = InputState::Composing {
                    preedit: preedit.clone(),
                    romaji_buffer: String::new(),
                };
                let result = EngineResult::consumed().with_action(
                    EngineAction::UpdatePreedit(preedit),
                );
                assert(result.deep_view().actions =~= seq![
                    ActionView::UpdatePreedit(preedit.deep_view()),
                ]);
                return Ok(result);
            },
            Err(question) => return Err(question),
        };
        let surface: String = match segment.candidates.selected_text() {
            Some(text) => text.to_owned(),
            None => reading.clone(),
        };
        let several = match self.build_navigation_segments(
            reading.as_str(),
            surface.as_str(),
            skip_learning,
            answers,
        ) {
            Ok(several) => several,
            Err(question) => return Err(question),
        };
        let segments = if several.len() > 1 {
            match self.focus_segment(several, 0, skip_learning, answers) {
                Ok(segments) => segments,
                Err(question) => return Err(question),
            }
        } else {
            let mut one: Vec<ConversionSegment> = Vec::new();
            assert(one.deep_view() =~= Seq::empty());
            add_item(&mut one, segment);
            assert(one.deep_view() =~= seq![segment.deep_view()]);
            one
        };
        assert(segments@.len() == segments.deep_view().len());
        self.live.text = String::new();
        self.input_buf.cursor_pos = 0;
        Ok(self.enter_conversion_state(segments, 0, skip_learning))
    }

    /// Starts a conversion of what was typed. What was on display stays
    /// selected; learned conversions are left out on request.
    pub fn start_conversion(&mut self, skip_learning: bool, answers: &Answers) -> (r: Result<
        EngineResult,
        Question,
    >)
        ensures
            engine::answered(
                started(old(self).deep_view(), skip_learning, answers.deep_view()),
                old(self).deep_view(),
                final(self).deep_view(),
                r,
            ),
            engine::focus_exists(old(self).deep_view()) ==> engine::focus_exists(
                final(self).deep_view(),
            ),
    {
        let text = self.input_buf.text.clone();
        let cursor: usize = self.input_buf.cursor_pos;
        let romaji = self.converters.romaji.buffer.clone();
        if let Err(question) = self.flush_romaji_to_composed(answers) {
            return Err(question);
        }
        match self.begin_conversion(skip_learning, answers) {
            Ok(result) => Ok(result),
            Err(question) => {
                self.input_buf.text = text;
                self.input_buf.cursor_pos = cursor;
                self.converters.romaji.buffer = romaji;
                Err(question)
            },
        }
    }
}

/// Choosing another candidate for the clause in focus.
pub open spec fn navigated(e: EngineView, how: Navigation) -> (EngineView, ResultView) {
    match e.state {
        StateView::Conversion { candidates, segments, active_segment, skip_learning, .. } => {
            let list = candidate::moved(candidates, how);
            let present = 0 <= active_segment < segments.len();
            let after = if present {
                segments.update(
                    active_segment,
                    SegmentView { candidates: list, ..segments[active_segment] },
                )
            } else {
                segments
            };
            let preedit = clauses::clauses_preedit(after, active_segment);
            (
                EngineView {
                    state: StateView::Conversion {
                        preedit,
                        candidates: list,
                        segments: after,
                        active_segment,
                        skip_learning,
                    },
                    ..e
                },
                update_result(
                    preedit,
                    list,
                    if present {
                        segments[active_segment].reading
                    } else {
                        Seq::empty()
                    },
                ),
            )
        },
        _ => (e, action::not_consumed()),
    }
}

/// Moving the focus to the next clause or the one before, around the ends. A
/// conversion that is a single clause so far is divided first.
pub open spec fn refocused(e: EngineView, forward: bool, answers: AnswersView) -> Step {
    match e.state {
        StateView::Conversion { segments, active_segment, skip_learning, .. } => {
            if segments.len() <= 1 {
                match clauses::navigation_clauses(
                    e,
                    e.text,
                    clauses::chosen_text(segments),
                    skip_learning,
                    answers,
                ) {
                    Err(question) => Err(question),
                    Ok(several) => if several.len() > 1 {
                        let i = if forward {
                            1
                        } else {
                            several.len() - 1
                        };
                        match clauses::focused(e, several, i, skip_learning, answers) {
                            Err(question) => Err(question),
                            Ok(after) => shown(e, after, i, skip_learning),
                        }
                    } else {
                        Ok((e, action::consumed(Seq::empty())))
                    },
                }
            } else {
                let i = next_focus(segments.len() as int, active_segment, forward);
                match clauses::focused(e, segments, i, skip_learning, answers) {
                    Err(question) => Err(question),
                    Ok(after) => shown(e, after, i, skip_learning),
                }
            }
        },
        _ => Ok((e, action::not_consumed())),
    }
}

/// The clause beside the one in focus, around the ends.
pub open spec fn next_focus(len: int, active: int, forward: bool) -> int {
    if forward {
        if active + 1 < len {
            active + 1
        } else {
            0
        }
    } else if active > 0 {
        active - 1
    } else {
        len - 1
    }
}

/// A clause with the list of its reading.
pub open spec fn listed(
    e: EngineView,
    reading: Seq<char>,
    skip_learning: bool,
    answers: AnswersView,
) -> Result<SegmentView, QuestionView> {
    match clauses::offered(e, reading, None, skip_learning, answers) {
        Ok(list) => Ok(SegmentView { reading, candidates: list, needs_expansion: false }),
        Err(question) => Err(question),
    }
}

/// The clauses with clause `i` one character longer, which the next one gives
/// away; a clause that has nothing left is gone.
pub open spec fn grown(
    e: EngineView,
    segments: Seq<SegmentView>,
    i: int,
    skip_learning: bool,
    answers: AnswersView,
) -> Result<Seq<SegmentView>, QuestionView> {
    let next = segments[i + 1].reading;
    let rest = next.skip(1);
    match listed(e, segments[i].reading.push(next[0]), skip_learning, answers) {
        Err(question) => Err(question),
        Ok(longer) => if rest.len() == 0 {
            Ok(segments.update(i, longer).remove(i + 1))
        } else {
            match listed(e, rest, skip_learning, answers) {
                Err(question) => Err(question),
                Ok(shorter) => Ok(segments.update(i, longer).update(i + 1, shorter)),
            }
        },
    }
}

/// The clauses with clause `i` one character shorter, which the next one
/// gets; it is made where there is none.
pub open spec fn shrunk(
    e: EngineView,
    segments: Seq<SegmentView>,
    i: int,
    skip_learning: bool,
    answers: AnswersView,
) -> Result<Seq<SegmentView>, QuestionView> {
    let own = segments[i].reading;
    match listed(e, own.drop_last(), skip_learning, answers) {
        Err(question) => Err(question),
        Ok(shorter) => if i + 1 < segments.len() {
            match listed(e, seq![own.last()] + segments[i + 1].reading, skip_learning, answers) {
                Err(question) => Err(question),
                Ok(longer) => Ok(segments.update(i, shorter).update(i + 1, longer)),
            }
        } else {
            match listed(e, seq![own.last()], skip_learning, answers) {
                Err(question) => Err(question),
                Ok(made) => Ok(segments.update(i, shorter).push(made)),
            }
        },
    }
}

/// Whether the clause in focus can give away or get a character.
pub open spec fn resizable(segments: Seq<SegmentView>, i: int, expand: bool) -> bool {
    if expand {
        i + 1 < segments.len() && segments[i + 1].reading.len() > 0
    } else {
        segments[i].reading.len() > 1
    }
}

/// Moving the end of the clause in focus by one character.
pub open spec fn resized(e: EngineView, expand: bool, answers: AnswersView) -> Step {
    match e.state {
        StateView::Conversion { segments, active_segment, skip_learning, .. } => {
            if !resizable(segments, active_segment, expand) {
                Ok((e, action::consumed(Seq::empty())))
            } else {
                match if expand {
                    grown(e, segments, active_segment, skip_learning, answers)
                } else {
                    shrunk(e, segments, active_segment, skip_learning, answers)
                } {
                    Err(question) => Err(question),
                    Ok(after) => shown(e, after, active_segment, skip_learning),
                }
            }
        },
        _ => Ok((e, action::not_consumed())),
    }
}

impl InputMethodEngine {
    /// Chooses another candidate for the clause in focus.
    pub fn navigate_candidate(&mut self, how: Navigation) -> (r: EngineResult)
        ensures
            (final(self).deep_view(), r.deep_view()) == navigated(old(self).deep_view(), how),
    {
        let (mut list, mut segments, active, skip_learning) = match &self.state {
            InputState::Conversion { candidates, segments, active_segment, skip_learning, .. } => (
                candidates.clone(),
                copied(segments),
                *active_segment,
                *skip_learning,
            ),
            _ => return EngineResult::not_consumed(),
        };
        let ghost before = segments.deep_view();
        list.navigate(how);
        let mut reading = String::new();
        if active < segments.len() {
            assert(before[active as int] == segments@[active as int].deep_view());
            reading = segments[active].reading.clone();
            let changed = ConversionSegment {
                reading: segments[active].reading.clone(),
                candidates: list.clone(),
                needs_expansion: segments[active].needs_expansion,
            };
            let ghost view = changed.deep_view();
            segments.set(active, changed);
            assert(segments.deep_view() =~= before.update(active as int, view));
        } else {
            assert(reading@ =~= Seq::empty());
        }
        let preedit = build_conversion_preedit_from_segments(&segments, active);
        self.state = InputState::Conversion {
            preedit: preedit.clone(),
            candidates: list.clone(),
            segments,
            active_segment: active,
            skip_learning,
        };
        update_actions(preedit, list, reading.as_str())
    }

    /// Moves the focus to the next clause or the one before.
    pub fn move_conversion_segment(&mut self, forward: bool, answers: &Answers) -> (r: Result<
        EngineResult,
        Question,
    >)
        requires
            engine::focus_exists(old(self).deep_view()),
        ensures
            engine::answered(
                refocused(old(self).deep_view(), forward, answers.deep_view()),
                old(self).deep_view(),
                final(self).deep_view(),
                r,
            ),
    {
        let (segments, active, skip_learning) = match &self.state {
            InputState::Conversion { segments, active_segment, skip_learning, .. } => (
                copied(segments),
                *active_segment,
                *skip_learning,
            ),
            _ => return Ok(EngineResult::not_consumed()),
        };
        if segments.len() <= 1 {
            let surface = match self.selected_conversion_info() {
                Some((text, _)) => text,
                None => String::new(),
            };
            let reading = self.input_buf.text.clone();
            let several = match self.build_navigation_segments(
                reading.as_str(),
                surface.as_str(),
                skip_learning,
                answers,
            ) {
                Ok(several) => several,
                Err(question) => return Err(question),
            };
            if several.len() <= 1 {
                return Ok(EngineResult::consumed());
            }
            let i: usize = if forward {
                1
            } else {
                several.len() - 1
            };
            assert(several@.len() == several.deep_view().len());
            let after = match self.focus_segment(several, i, skip_learning, answers) {
                Ok(after) => after,
                Err(question) => return Err(question),
            };
            assert(after@.len() == after.deep_view().len());
            return Ok(self.enter_conversion_state(after, i, skip_learning));
        }
        let n: usize = segments.len();
        let i: usize = if forward {
            if active + 1 < n {
                active + 1
            } else {
                0
            }
        } else if active > 0 {
            active - 1
        } else {
            n - 1
        };
        let after = match self.focus_segment(segments, i, skip_learning, answers) {
            Ok(after) => after,
            Err(question) => return Err(question),
        };
        assert(after@.len() == after.deep_view().len());
        Ok(self.enter_conversion_state(after, i, skip_learning))
    }

    fn list_segment(&self, reading: String, skip_learning: bool, answers: &Answers) -> (r: Result<
        ConversionSegment,
        Question,
    >)
        ensures
            match r {
                Ok(segment) => listed(
                    self.deep_view(),
                    reading@,
                    skip_learning,
                    answers.deep_view(),
                ) == Ok::<SegmentView, QuestionView>(segment.deep_view()),
                Err(question) => listed(
                    self.deep_view(),
                    reading@,
                    skip_learning,
                    answers.deep_view(),
                ) == Err::<SegmentView, QuestionView>(question.deep_view()),
            },
    {
        match self.candidates_for(reading.as_str(), &None, skip_learning, answers) {
            Ok(list) => Ok(
                ConversionSegment { reading, candidates: list, needs_expansion: false },
            ),
            Err(question) => Err(question),
        }
    }

    fn grow_segment(
        &self,
        segments: Vec<ConversionSegment>,
        i: usize,
        skip_learning: bool,
        answers: &Answers,
    ) -> (r: Result<Vec<ConversionSegment>, Question>)
        requires
            i + 1 < segments@.len(),
            segments.deep_view()[i + 1].reading.len() > 0,
        ensures
            clauses::built(
                grown(
                    self.deep_view(),
                    segments.deep_view(),
                    i as int,
                    skip_learning,
                    answers.deep_view(),
                ),
                r,
            ),
    {
        let ghost before = segments.deep_view();
        let mut segments = segments;
        assert(before[i as int] == segments@[i as int].deep_view());
        assert(before[i + 1] == segments@[i + 1].deep_view());
        let len: usize = segments.len();
        let next = chars_of(segments[i + 1].reading.as_str());
        let n: usize = next.len();
        let mut reading = segments[i].reading.clone();
        reading.push(next[0]);
        let longer = match self.list_segment(reading, skip_learning, answers) {
            Ok(longer) => longer,
            Err(question) => return Err(question),
        };
        let ghost longer_view = longer.deep_view();
        let rest = text_of_range(&next, 1, n);
        assert(rest@ =~= before[i + 1].reading.skip(1));
        if n == 1 {
            segments.set(i, longer);
            segments.remove(i + 1);
            assert(segments.deep_view() =~= before.update(i as int, longer_view).remove(i + 1));
            return Ok(segments);
        }
        match self.list_segment(rest, skip_learning, answers) {
            Ok(shorter) => {
                let ghost shorter_view = shorter.deep_view();
                segments.set(i, longer);
                segments.set(i + 1, shorter);
                assert(segments.deep_view() =~= before.update(i as int, longer_view).update(
                    i + 1,
                    shorter_view,
                ));
                Ok(segments)
            },
            Err(question) => Err(question),
        }
    }

    fn shrink_segment(
        &self,
        segments: Vec<ConversionSegment>,
        i: usize,
        skip_learning: bool,
        answers: &Answers,
    ) -> (r: Result<Vec<ConversionSegment>, Question>)
        requires
            i < segments@.len(),
            segments.deep_view()[i as int].reading.len() > 1,
        ensures
            clauses::built(
                shrunk(
                    self.deep_view(),
                    segments.deep_view(),
                    i as int,
                    skip_learning,
                    answers.deep_view(),
                ),
                r,
            ),
    {
        let ghost before = segments.deep_view();
        let mut segments = segments;
        assert(before[i as int] == segments@[i as int].deep_view());
        let own = chars_of(segments[i].reading.as_str());
        let n: usize = own.len();
        let reading = text_of_range(&own, 0, n - 1);
        assert(reading@ =~= before[i as int].reading.drop_last());
        let shorter = match self.list_segment(reading, skip_learning, answers) {
            Ok(shorter) => shorter,
            Err(question) => return Err(question),
        };
        let ghost shorter_view = shorter.deep_view();
        let moved = text_of_range(&own, n - 1, n);
        assert(moved@ =~= seq![before[i as int].reading.last()]);
        let len: usize = segments.len();
        if i + 1 < len {
            assert(before[i + 1] == segments@[i + 1].deep_view());
            let reading = joined(moved.as_str(), segments[i + 1].reading.as_str());
            match self.list_segment(reading, skip_learning, answers) {
                Ok(longer) => {
                    let ghost longer_view = longer.deep_view();
                    segments.set(i, shorter);
                    segments.set(i + 1, longer);
                    assert(segments.deep_view() =~= before.update(i as int, shorter_view).update(
                        i + 1,
                        longer_view,
                    ));
                    Ok(segments)
                },
                Err(question) => Err(question),
            }
        } else {
            match self.list_segment(moved, skip_learning, answers) {
                Ok(made) => {
                    let ghost made_view = made.deep_view();
                    segments.set(i, shorter);
                    segments.push(made);
                    assert(segments.deep_view() =~= before.update(i as int, shorter_view).push(
                        made_view,
                    ));
                    Ok(segments)
                },
                Err(question) => Err(question),
            }
        }
    }

    /// Moves the end of the clause in focus by one character, and converts
    /// the two clauses that changed anew.
    pub fn resize_conversion_segment(&mut self, expand: bool, answers: &Answers) -> (r: Result<
        EngineResult,
        Question,
    >)
        requires
            engine::focus_exists(old(self).deep_view()),
        ensures
            engine::answered(
                resized(old(self).deep_view(), expand, answers.deep_view()),
                old(self).deep_view(),
                final(self).deep_view(),
                r,
            ),
    {
        let (segments, active, skip_learning) = match &self.state {
            InputState::Conversion { segments, active_segment, skip_learning, .. } => (
                copied(segments),
                *active_segment,
                *skip_learning,
            ),
            _ => return Ok(EngineResult::not_consumed()),
        };
        let ghost before = segments.deep_view();
        assert(before[active as int] == segments@[active as int].deep_view());
        let n: usize = segments.len();
        let built = if expand {
            if active + 1 >= n {
                return Ok(EngineResult::consumed());
            }
            assert(before[active + 1] == segments@[active + 1].deep_view());
            if segments[active + 1].reading.as_str().is_empty() {
                return Ok(EngineResult::consumed());
            }
            self.grow_segment(segments, active, skip_learning, answers)
        } else {
            if char_count(segments[active].reading.as_str()) <= 1 {
                return Ok(EngineResult::consumed());
            }
            self.shrink_segment(segments, active, skip_learning, answers)
        };
        match built {
            Ok(after) => {
                assert(after@.len() == after.deep_view().len());
                Ok(self.enter_conversion_state(after, active, skip_learning))
            },
            Err(question) => Err(question),
        }
    }
}

/// The engine with nothing typed, after a text was committed.
pub open spec fn emptied(e: EngineView) -> EngineView {
    EngineView {
        state: StateView::Empty,
        text: Seq::empty(),
        live_text: Seq::empty(),
        chunks: Seq::empty(),
        mode: engine::settled_mode(e.mode),
        ..e
    }
}

/// The engine after conversions were noted for the history; emoji are not.
pub open spec fn remembered(e: EngineView, list: Seq<LearnedView>) -> EngineView {
    if e.mode.current == InputMode::Emoji || e.learning is None {
        e
    } else {
        EngineView { recorded: e.recorded + list, ..e }
    }
}

/// Committing the conversion: its text goes to the application and its
/// conversions to the history.
pub open spec fn committed(e: EngineView) -> (EngineView, ResultView) {
    match e.state {
        StateView::Conversion { segments, .. } => {
            let text = clauses::chosen_text(segments);
            if text.len() == 0 {
                (e, action::consumed(Seq::empty()))
            } else {
                (
                    emptied(remembered(e, clauses::selections(segments))),
                    action::consumed(
                        seq![
                            ActionView::HideCandidates,
                            ActionView::HideAuxText,
                            ActionView::Commit(text),
                        ],
                    ),
                )
            }
        },
        _ => (e, action::not_consumed()),
    }
}

/// The engine with committed text added to what is on its left.
pub open spec fn advanced(e: EngineView, text: Seq<char>) -> EngineView {
    EngineView {
        context: Some(
            ContextView {
                left: Some(engine::left_of(e) + text),
                right: Some(engine::right_of(e)),
            },
        ),
        ..e
    }
}

/// Committing the conversion and typing on: the new text sees the committed
/// one on its left.
pub open spec fn committed_and_typed(e: EngineView, ch: char, answers: AnswersView) -> Step {
    match e.state {
        StateView::Conversion { segments, .. } => {
            let text = clauses::chosen_text(segments);
            let after = advanced(emptied(remembered(e, clauses::selections(segments))), text);
            match input::typed(after, ch, answers) {
                Ok((typing, result)) => Ok(
                    (
                        typing,
                        action::consumed(
                            seq![ActionView::Commit(text), ActionView::HideCandidates]
                                + result.actions,
                        ),
                    ),
                ),
                Err(question) => Err(question),
            }
        },
        _ => Ok((e, action::not_consumed())),
    }
}

/// The romaji that is pending once the first `n` characters of a reading were
/// typed anew.
pub open spec fn replayed(reading: Seq<char>, n: int, answers: AnswersView) -> Result<
    Seq<char>,
    QuestionView,
>
    decreases n,
{
    if n <= 0 {
        Ok(Seq::empty())
    } else {
        match replayed(reading, n - 1, answers) {
            Ok(buffer) => match consult::step_for(answers.typed, buffer, reading[n - 1]) {
                Some(step) => Ok(step.rest),
                None => Err(QuestionView::Type { buffer, ch: reading[n - 1] }),
            },
            Err(question) => Err(question),
        }
    }
}

/// Leaving the conversion: back to composing the reading. The reading is
/// replayed, so that romaji in it may be pending again.
pub open spec fn cancelled(e: EngineView, answers: AnswersView) -> Step {
    if !(e.state is Conversion) {
        Ok((e, action::not_consumed()))
    } else if e.text.len() == 0 {
        Ok(
            (
                EngineView { state: StateView::Empty, cursor: 0, ..e },
                action::consumed(
                    seq![
                        ActionView::UpdatePreedit(preedit::unmarked(Seq::empty())),
                        ActionView::HideCandidates,
                        ActionView::HideAuxText,
                    ],
                ),
            ),
        )
    } else {
        match replayed(e.text, e.text.len() as int, answers) {
            Err(question) => Err(question),
            Ok(pending) => {
                let reading = EngineView {
                    cursor: e.text.len() as int,
                    romaji: pending,
                    ..e
                };
                Ok(
                    (
                        engine::composing(reading),
                        action::consumed(
                            seq![
                                ActionView::UpdatePreedit(engine::composing_preedit(reading)),
                                ActionView::HideCandidates,
                                ActionView::UpdateAuxText(AuxView::Composing),
                            ],
                        ),
                    ),
                )
            },
        }
    }
}

proof fn lemma_replay_stops(reading: Seq<char>, i: int, n: int, answers: AnswersView)
    requires
        0 <= i <= n,
        replayed(reading, i, answers) is Err,
    ensures
        replayed(reading, n, answers) == replayed(reading, i, answers),
    decreases n,
{
    if i < n {
        lemma_replay_stops(reading, i, n - 1, answers);
    }
}

/// Types a reading anew and says what romaji is then pending.
fn replay_reading(reading: &str, answers: &Answers) -> (r: Result<String, Question>)
    ensures
        match r {
            Ok(pending) => replayed(reading@, reading@.len() as int, answers.deep_view()) == Ok::<
                Seq<char>,
                QuestionView,
            >(pending@),
            Err(question) => replayed(reading@, reading@.len() as int, answers.deep_view())
                == Err::<Seq<char>, QuestionView>(question.deep_view()),
        },
{
    let chars = chars_of(reading);
    let mut pending = String::new();
    assert(pending@ =~= Seq::empty());
    let mut i: usize = 0;
    while i < chars.len()
        invariant
            i <= chars@.len(),
            chars@ == reading@,
            replayed(reading@, i as int, answers.deep_view()) == Ok::<Seq<char>, QuestionView>(
                pending@,
            ),
        decreases chars@.len() - i,
    {
        match find_step(&answers.typed, pending.as_str(), chars[i]) {
            Some(step) => {
                pending = step.rest.clone();
            },
            None => {
                let ghost next = replayed(reading@, i + 1, answers.deep_view());
                proof {
                    assert(next is Err);
                    lemma_replay_stops(
                        reading@,
                        i + 1,
                        reading@.len() as int,
                        answers.deep_view(),
                    );
                }
                return Err(Question::Type { buffer: pending, ch: chars[i] });
            },
        }
        i = i + 1;
    }
    Ok(pending)
}

/// Whether the selected candidate was learned.
pub open spec fn deletable(e: EngineView) -> bool {
    match state::shown_candidates(e.state) {
        Some(list) => match candidate::selected(list) {
            Some(c) => c.source == Some(CandidateSource::Learning),
            None => false,
        },
        None => false,
    }
}

/// Dropping the selected conversion from the history: once it is gone, the
/// clause is converted anew.
pub open spec fn forgotten(e: EngineView, answers: AnswersView) -> Step {
    let nothing = Ok((e, action::consumed(Seq::empty())));
    if !deletable(e) || e.learning is None {
        nothing
    } else {
        match e.state {
            StateView::Conversion { segments, active_segment, skip_learning, .. } => {
                if !(0 <= active_segment < segments.len()) {
                    nothing
                } else {
                    let reading = segments[active_segment].reading;
                    match candidate::selected(segments[active_segment].candidates) {
                        None => nothing,
                        Some(c) => match consult::forgotten_for(
                            answers.forgotten,
                            reading,
                            c.text,
                        ) {
                            None => Err(QuestionView::Forget { reading, surface: c.text }),
                            Some(answer) => if !answer.removed {
                                nothing
                            } else {
                                match listed(e, reading, skip_learning, answers) {
                                    Err(question) => Err(question),
                                    Ok(segment) => shown(
                                        e,
                                        segments.update(active_segment, segment),
                                        active_segment,
                                        skip_learning,
                                    ),
                                }
                            },
                        },
                    }
                }
            },
            _ => nothing,
        }
    }
}

impl InputMethodEngine {
    fn record_conversion_learning(&mut self, selections: Vec<LearnedEntry>)
        ensures
            final(self).deep_view() == remembered(old(self).deep_view(), selections.deep_view()),
    {
        if self.mode.current == InputMode::Emoji {
            return;
        }
        let ghost e = self.deep_view();
        let ghost all = selections.deep_view();
        let mut i: usize = 0;
        assert(e.recorded + all.take(0) =~= e.recorded);
        while i < selections.len()
            invariant
                i <= selections@.len(),
                all == selections.deep_view(),
                e.mode.current != InputMode::Emoji,
                self.deep_view() == remembered(e, all.take(i as int)),
            decreases selections@.len() - i,
        {
            let entry = &selections[i];
            assert(all[i as int] == entry.deep_view());
            assert(e.recorded + all.take(i + 1) =~= (e.recorded + all.take(i as int)).push(
                all[i as int],
            ));
            self.record_learning(entry.reading.as_str(), entry.surface.as_str());
            i = i + 1;
        }
        assert(all.take(i as int) =~= all);
    }

    /// Leaves nothing typed, after a text was committed.
    pub fn empty_after_commit(&mut self)
        ensures
            final(self).deep_view() == emptied(old(self).deep_view()),
    {
        self.state = InputState::Empty;
        self.input_buf.text = String::new();
        self.live.text = String::new();
        self.chunks = Vec::new();
        assert(self.chunks.deep_view() =~= Seq::empty());
        self.mode.exit_temporary();
    }

    /// Commits the conversion.
    pub fn commit_conversion(&mut self) -> (r: EngineResult)
        ensures
            (final(self).deep_view(), r.deep_view()) == committed(old(self).deep_view()),
    {
        let (text, selections) = match self.selected_conversion_info() {
            Some(info) => info,
            None => return EngineResult::not_consumed(),
        };
        if text.as_str().is_empty() {
            return EngineResult::consumed();
        }
        self.record_conversion_learning(selections);
        self.empty_after_commit();
        let ghost view = text@;
        let r = EngineResult::consumed().with_action(EngineAction::HideCandidates).with_action(
            EngineAction::HideAuxText,
        ).with_action(EngineAction::Commit(text));
        assert(r.deep_view().actions =~= seq![
            ActionView::HideCandidates,
            ActionView::HideAuxText,
            ActionView::Commit(view),
        ]);
        r
    }

    /// Adds committed text to what is on the left: the application cannot
    /// tell it before the new text is converted.
    fn advance_surrounding_context_after_commit(&mut self, committed: &str)
        ensures
            final(self).deep_view() == advanced(old(self).deep_view(), committed@),
    {
        let (left, right) = match &self.surrounding_context {
            Some(context) => {
                let left = match &context.left {
                    Some(left) => left.clone(),
                    None => String::new(),
                };
                let right = match &context.right {
                    Some(right) => right.clone(),
                    None => String::new(),
                };
                (left, right)
            },
            None => (String::new(), String::new()),
        };
        let left = joined(left.as_str(), committed);
        self.set_surrounding_context(left.as_str(), right.as_str());
    }

    /// Commits the conversion and types on.
    pub fn commit_conversion_and_continue(&mut self, ch: char, answers: &Answers) -> (r: Result<
        EngineResult,
        Question,
    >)
        ensures
            engine::answered(
                committed_and_typed(old(self).deep_view(), ch, answers.deep_view()),
                old(self).deep_view(),
                final(self).deep_view(),
                r,
            ),
    {
        let (text, selections) = match self.selected_conversion_info() {
            Some(info) => info,
            None => return Ok(EngineResult::not_consumed()),
        };
        let settled = match self.mode.saved {
            Some(saved) => saved,
            None => self.mode.current,
        };
        if settled == InputMode::Alphabet {
            if !self.converters.romaji.buffer.as_str().is_empty() && find_flushed(
                &answers.flushed,
                self.converters.romaji.buffer.as_str(),
            ).is_none() {
                return Err(Question::Flush { buffer: self.converters.romaji.buffer.clone() });
            }
        } else if find_step(
            &answers.typed,
            self.converters.romaji.buffer.as_str(),
            ch,
        ).is_none() {
            return Err(Question::Type { buffer: self.converters.romaji.buffer.clone(), ch });
        }
        self.record_conversion_learning(selections);
        self.empty_after_commit();
        self.advance_surrounding_context_after_commit(text.as_str());
        let ghost view = text@;
        match self.start_input(ch, answers) {
            Ok(typing) => {
                let mut result = EngineResult::consumed().with_action(
                    EngineAction::Commit(text),
                ).with_action(EngineAction::HideCandidates);
                assert(result.deep_view().actions =~= seq![
                    ActionView::Commit(view),
                    ActionView::HideCandidates,
                ]);
                add_items(&mut result.actions, typing.actions);
                Ok(result)
            },
            Err(question) => Err(question),
        }
    }

    /// Leaves the conversion and goes back to composing the reading.
    pub fn cancel_conversion(&mut self, answers: &Answers) -> (r: Result<EngineResult, Question>)
        ensures
            engine::answered(
                cancelled(old(self).deep_view(), answers.deep_view()),
                old(self).deep_view(),
                final(self).deep_view(),
                r,
            ),
    {
        if !matches!(self.state, InputState::Conversion { .. }) {
            return Ok(EngineResult::not_consumed());
        }
        let ghost expected = cancelled(self.deep_view(), answers.deep_view());
        if self.input_buf.text.as_str().is_empty() {
            self.state = InputState::Empty;
            self.input_buf.text = String::new();
            self.input_buf.cursor_pos = 0;
            assert(self.input_buf.text@ =~= old(self).deep_view().text);
            let r = EngineResult::consumed().with_action(
                EngineAction::UpdatePreedit(Preedit::new()),
            ).with_action(EngineAction::HideCandidates).with_action(EngineAction::HideAuxText);
            assert(r.deep_view().actions =~= expected->Ok_0.1.actions);
            return Ok(r);
        }
        let pending = match replay_reading(self.input_buf.text.as_str(), answers) {
            Ok(pending) => pending,
            Err(question) => return Err(question),
        };
        self.input_buf.cursor_pos = char_count(self.input_buf.text.as_str());
        self.converters.romaji.buffer = pending;
        let preedit = self.set_composing_state();
        let r = EngineResult::consumed().with_action(
            EngineAction::UpdatePreedit(preedit),
        ).with_action(EngineAction::HideCandidates).with_action(
            EngineAction::UpdateAuxText(AuxText::Composing),
        );
        assert(r.deep_view().actions =~= expected->Ok_0.1.actions);
        Ok(r)
    }

    /// Whether the selected candidate was learned, so that it can be dropped.
    pub fn selected_is_deletable(&self) -> (r: bool)
        ensures
            r == deletable(self.deep_view()),
    {
        match self.state.candidates() {
            Some(list) => match list.selected() {
                Some(c) => c.is_deletable(),
                None => false,
            },
            None => false,
        }
    }

    /// Drops the selected conversion from the history and converts its clause
    /// anew; does nothing where it was not learned.
    pub fn delete_selected_candidate_from_history(&mut self, answers: &Answers) -> (r: Result<
        EngineResult,
        Question,
    >)
        ensures
            engine::answered(
                forgotten(old(self).deep_view(), answers.deep_view()),
                old(self).deep_view(),
                final(self).deep_view(),
                r,
            ),
    {
        if !self.selected_is_deletable() || self.learning.is_none() {
            return Ok(EngineResult::consumed());
        }
        let (mut segments, active, skip_learning) = match &self.state {
            InputState::Conversion { segments, active_segment, skip_learning, .. } => (
                copied(segments),
                *active_segment,
                *skip_learning,
            ),
            _ => return Ok(EngineResult::consumed()),
        };
        if active >= segments.len() {
            return Ok(EngineResult::consumed());
        }
        let ghost before = segments.deep_view();
        assert(before[active as int] == segments@[active as int].deep_view());
        let reading = segments[active].reading.clone();
        let surface = match segments[active].candidates.selected_text() {
            Some(text) => text.to_owned(),
            None => return Ok(EngineResult::consumed()),
        };
        match find_forgotten(&answers.forgotten, reading.as_str(), surface.as_str()) {
            None => return Err(Question::Forget { reading, surface }),
            Some(answer) => {
                if !answer.removed {
                    return Ok(EngineResult::consumed());
                }
            },
        }
        match self.list_segment(reading, skip_learning, answers) {
            Ok(segment) => {
                let ghost view = segment.deep_view();
                segments.set(active, segment);
                assert(segments.deep_view() =~= before.update(active as int, view));
                Ok(self.enter_conversion_state(segments, active, skip_learning))
            },
            Err(question) => Err(question),
        }
    }
}

/// What a key does to a conversion.
pub open spec fn conversion_step(e: EngineView, key: KeyEvent, answers: AnswersView) -> Step {
    match keycode::command_of(key) {
        ConversionCommand::Commit => Ok(committed(e)),
        ConversionCommand::Cancel => cancelled(e, answers),
        ConversionCommand::Navigate(how) => Ok(navigated(e, how)),
        ConversionCommand::Shrink => resized(e, false, answers),
        ConversionCommand::Expand => resized(e, true, answers),
        ConversionCommand::PreviousSegment => refocused(e, false, answers),
        ConversionCommand::NextSegment => refocused(e, true, answers),
        ConversionCommand::Forget => forgotten(e, answers),
        ConversionCommand::CommitAndType(ch) => committed_and_typed(e, ch, answers),
        ConversionCommand::Pass => Ok((e, action::not_consumed())),
    }
}

impl InputMethodEngine {
    /// Handles a key during a conversion.
    pub fn process_key_conversion(&mut self, key: &KeyEvent, answers: &Answers) -> (r: Result<
        EngineResult,
        Question,
    >)
        requires
            engine::focus_exists(old(self).deep_view()),
        ensures
            engine::answered(
                conversion_step(old(self).deep_view(), *key, answers.deep_view()),
                old(self).deep_view(),
                final(self).deep_view(),
                r,
            ),
    {
        match conversion_command(key) {
            ConversionCommand::Commit => Ok(self.commit_conversion()),
            ConversionCommand::Cancel => self.cancel_conversion(answers),
            ConversionCommand::Navigate(how) => Ok(self.navigate_candidate(how)),
            ConversionCommand::Shrink => self.resize_conversion_segment(false, answers),
            ConversionCommand::Expand => self.resize_conversion_segment(true, answers),
            ConversionCommand::PreviousSegment => self.move_conversion_segment(false, answers),
            ConversionCommand::NextSegment => self.move_conversion_segment(true, answers),
            ConversionCommand::Forget => self.delete_selected_candidate_from_history(answers),
            ConversionCommand::CommitAndType(ch) => self.commit_conversion_and_continue(
                ch,
                answers,
            ),
            ConversionCommand::Pass => Ok(EngineResult::not_consumed()),
        }
    }
}

impl InputMethodEngine {
    /// Selects the candidate at a position of the page on display, counted
    /// from zero. The conversion goes on. How long it took is noted.
    pub fn select_candidate_on_page(&mut self, page_index: usize) -> (r: EngineResult)
        requires
            page_index < usize::MAX,
        ensures
            ({
                let e = old(self).deep_view();
                let timed = EngineView {
                    metrics: MetricsView {
                        conversion_ms: 0,
                        process_key_ms: final(self).deep_view().metrics.process_key_ms,
                        ..e.metrics
                    },
                    ..e
                };
                (final(self).deep_view(), r.deep_view()) == navigated(
                    timed,
                    Navigation::Digit((page_index + 1) as usize),
                )
            }),
    {
        let start = std::time::Instant::now();
        self.metrics.conversion_ms = 0;
        let result = self.navigate_candidate(Navigation::Digit(page_index + 1));
        self.metrics.process_key_ms = start.elapsed().as_millis() as u64;
        result
    }
}

} // verus!
