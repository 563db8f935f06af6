//! The clauses of a conversion: how they are shown, how a reading is divided
//! into them and what each has to offer.

use vstd::prelude::*;
use crate::advice::{LearnedEntry, LearnedView};
use crate::alignment::split_navigation_spans_aligned_to_surface;
use crate::alignment;
use crate::candidate::{Candidate, CandidateList, ListView};
use crate::candidate;
use crate::consult::{Answers, AnswersView, Question, QuestionView};
use crate::consult::find_advice;
use crate::consult;
use crate::engine::{EngineView, InputMethodEngine, InputMode};
use crate::engine;
use crate::lists::add_item;
use crate::preedit::{AttributeType, AttributeView, Preedit, PreeditAttribute, PreeditView};
use crate::segmentation::split_reading_spans_preserving_user_dict;
use crate::segmentation;
use crate::sources::candidate_list_for_conversion_segment;
use crate::sources;
use crate::spans::{ReadingSpan, SpanView};
use crate::spans::{coalesce_spans_to_surface_len, split_surface_preserving_fixed_spans};
use crate::spans;
use crate::state::{ConversionSegment, InputState, SegmentView, StateView};
use crate::text::{char_count, joined, same_text};

verus! {

/// Stands between two clauses on display; it has no width.
pub const SEGMENT_DISPLAY_SEPARATOR: char = '\u{200B}';

/// The text a clause shows.
pub open spec fn segment_text(segment: SegmentView) -> Seq<char> {
    candidate::selected_or(segment.candidates, segment.reading)
}

/// The first `k` clauses as they are shown.
pub open spec fn display_text(segments: Seq<SegmentView>, k: int) -> Seq<char>
    decreases k,
{
    if k <= 0 {
        Seq::empty()
    } else if k == 1 {
        segment_text(segments[0])
    } else {
        display_text(segments, k - 1).push(SEGMENT_DISPLAY_SEPARATOR) + segment_text(
            segments[k - 1],
        )
    }
}

/// The mark on clause `i`.
pub open spec fn clause_mark(segments: Seq<SegmentView>, active: int, i: int) -> AttributeView {
    AttributeView {
        start: if i == 0 {
            0
        } else {
            display_text(segments, i).len() as int + 1
        },
        end: display_text(segments, i + 1).len() as int,
        attr_type: if i == active {
            AttributeType::Highlight
        } else {
            AttributeType::Underline
        },
    }
}

/// How the clauses are shown: the one in focus highlighted with the caret
/// behind it, the others underlined.
pub open spec fn clauses_preedit(segments: Seq<SegmentView>, active: int) -> PreeditView {
    PreeditView {
        text: display_text(segments, segments.len() as int),
        caret: display_text(
            segments,
            if active + 1 < segments.len() {
                active + 1
            } else {
                segments.len() as int
            },
        ).len() as int,
        attributes: Seq::new(segments.len(), |i: int| clause_mark(segments, active, i)),
    }
}

fn text_of_segment(segment: &ConversionSegment) -> (r: String)
    ensures
        r@ == segment_text(segment.deep_view()),
{
    match segment.candidates.selected_text() {
        Some(text) => text.to_owned(),
        None => segment.reading.clone(),
    }
}

/// How the clauses are shown.
pub fn build_conversion_preedit_from_segments(
    segments: &Vec<ConversionSegment>,
    active_segment: usize,
) -> (r: Preedit)
    ensures
        r.deep_view() == clauses_preedit(segments.deep_view(), active_segment as int),
{
    let ghost all = segments.deep_view();
    let ghost marks = clauses_preedit(all, active_segment as int).attributes;
    let mut caret: usize = 0;
    let mut text = String::new();
    let mut attributes: Vec<PreeditAttribute> = Vec::new();
    let mut i: usize = 0;
    assert(attributes.deep_view() =~= marks.take(0));
    while i < segments.len()
        invariant
            i <= segments@.len(),
            all == segments.deep_view(),
            marks == clauses_preedit(all, active_segment as int).attributes,
            text@ == display_text(all, i as int),
            caret == display_text(
                all,
                if active_segment + 1 < i {
                    active_segment + 1
                } else {
                    i as int
                },
            ).len(),
            attributes.deep_view() == marks.take(i as int),
        decreases segments@.len() - i,
    {
        assert(all[i as int] == segments@[i as int].deep_view());
        if i > 0 {
            text.push(SEGMENT_DISPLAY_SEPARATOR);
        }
        let start: usize = char_count(text.as_str());
        let own = text_of_segment(&segments[i]);
        text = joined(text.as_str(), own.as_str());
        assert(text@ =~= display_text(all, i + 1));
        let end: usize = char_count(text.as_str());
        if i <= active_segment {
            caret = end;
        }
        let attr_type = if i == active_segment {
            AttributeType::Highlight
        } else {
            AttributeType::Underline
        };
        let mark = PreeditAttribute { start, end, attr_type };
        assert(mark.deep_view() == marks[i as int]);
        add_item(&mut attributes, mark);
        i = i + 1;
        assert(attributes.deep_view() =~= marks.take(i as int));
    }
    assert(marks.take(i as int) =~= marks);
    Preedit { text, caret, attributes }
}

/// The texts of the clauses, one behind the other.
pub open spec fn chosen_text(segments: Seq<SegmentView>) -> Seq<char>
    decreases segments.len(),
{
    if segments.len() == 0 {
        Seq::empty()
    } else {
        chosen_text(segments.drop_last()) + segment_text(segments.last())
    }
}

/// What a clause has converted: the text on display, and the reading of the
/// selected candidate, else that of the clause.
pub open spec fn selection(segment: SegmentView) -> LearnedView {
    LearnedView {
        reading: match candidate::selected(segment.candidates) {
            Some(c) => match c.reading {
                Some(own) => own,
                None => segment.reading,
            },
            None => segment.reading,
        },
        surface: segment_text(segment),
    }
}

/// What the clauses have converted.
pub open spec fn selections(segments: Seq<SegmentView>) -> Seq<LearnedView> {
    Seq::new(segments.len(), |i: int| selection(segments[i]))
}

impl InputMethodEngine {
    /// The text of the conversion and what each clause has converted.
    pub fn selected_conversion_info(&self) -> (r: Option<(String, Vec<LearnedEntry>)>)
        ensures
            match (r, self.deep_view().state) {
                (Some((text, list)), StateView::Conversion { segments, .. }) => text@
                    == chosen_text(segments) && list.deep_view() == selections(segments),
                (None, StateView::Conversion { .. }) => false,
                (None, _) => true,
                (Some(_), _) => false,
            },
    {
        match &self.state {
            InputState::Conversion { segments, .. } => {
                let ghost all = segments.deep_view();
                let mut text = String::new();
                let mut list: Vec<LearnedEntry> = Vec::new();
                let mut i: usize = 0;
                assert(list.deep_view() =~= selections(all).take(0));
                assert(all.take(0) =~= Seq::empty());
                while i < segments.len()
                    invariant
                        i <= segments@.len(),
                        all == segments.deep_view(),
                        text@ == chosen_text(all.take(i as int)),
                        list.deep_view() == selections(all).take(i as int),
                    decreases segments@.len() - i,
                {
                    let segment = &segments[i];
                    assert(all[i as int] == segment.deep_view());
                    assert(all.take(i + 1).drop_last() =~= all.take(i as int));
                    let chosen: Candidate = match segment.candidates.selected() {
                        Some(c) => c.clone(),
                        None => Candidate::with_reading(
                            segment.reading.as_str(),
                            segment.reading.as_str(),
                        ),
                    };
                    text = joined(text.as_str(), chosen.text.as_str());
                    let reading = match chosen.reading {
                        Some(own) => own,
                        None => segment.reading.clone(),
                    };
                    let entry = LearnedEntry { reading, surface: chosen.text };
                    assert(entry.deep_view() == selection(all[i as int]));
                    add_item(&mut list, entry);
                    i = i + 1;
                    assert(list.deep_view() =~= selections(all).take(i as int));
                }
                assert(all.take(i as int) =~= all);
                assert(selections(all).take(i as int) =~= selections(all));
                Some((text, list))
            },
            _ => None,
        }
    }
}

/// What has to be known of a reading before it can be converted.
pub open spec fn reading_question(e: EngineView, reading: Seq<char>) -> QuestionView {
    QuestionView::Reading {
        reading,
        context: engine::model_context(e),
        num_candidates: e.config.num_candidates as int,
        load_model: e.kanji is None,
    }
}

/// The list of candidates of a reading, once its advice is known.
pub open spec fn offered(
    e: EngineView,
    reading: Seq<char>,
    preferred: Option<Seq<char>>,
    skip_learning: bool,
    answers: AnswersView,
) -> Result<ListView, QuestionView> {
    match consult::advice_for(answers.advice, reading) {
        Some(advice) => Ok(
            sources::clause_candidates(
                engine::setting(e),
                reading,
                preferred,
                skip_learning,
                advice,
            ),
        ),
        None => Err(reading_question(e, reading)),
    }
}

/// Whether the text on display differs from the reading, so that it says
/// something about the clauses.
pub open spec fn tells_apart(reading: Seq<char>, surface: Seq<char>) -> bool {
    surface.len() > 0 && surface != reading
}

/// The clauses of a reading as the dictionaries and the text on display tell
/// them, each at least one character wide on display.
pub open spec fn navigation_spans(
    e: EngineView,
    reading: Seq<char>,
    surface: Seq<char>,
) -> Seq<SpanView> {
    let plain = segmentation::registered_clauses(
        e.user,
        e.system,
        segmentation::clause_limit(e.config.composing_chunk_len as int),
        true,
        reading,
        Seq::empty(),
    );
    if tells_apart(reading, surface) {
        let aligned = alignment::aligned_clauses(
            alignment::alignment_task(
                e.user,
                e.system,
                e.config.composing_chunk_len as int,
                reading,
                surface,
            ),
        );
        let clauses = match aligned {
            Some(clauses) => if clauses.len() > 1 {
                clauses
            } else {
                plain
            },
            None => plain,
        };
        spans::coalesced(clauses, surface.len() as int)
    } else {
        plain
    }
}

/// The text that clause `i` keeps from the display.
pub open spec fn kept_text(
    spans: Seq<SpanView>,
    reading: Seq<char>,
    surface: Seq<char>,
    i: int,
) -> Option<Seq<char>> {
    match spans[i].fixed {
        Some(word) => Some(word),
        None => if tells_apart(reading, surface) {
            spans::laid_out(surface, spans)[i]
        } else {
            None
        },
    }
}

/// A clause whose list holds one candidate so far.
pub open spec fn placeholder(reading: Seq<char>, c: candidate::CandidateView) -> SegmentView {
    SegmentView {
        reading,
        candidates: candidate::fresh_list(seq![c]),
        needs_expansion: true,
    }
}

/// A clause out of focus holds the candidate that its whole list would select:
/// the one with the text kept from the display, else the best one. Without any
/// candidate there is no clause.
pub open spec fn resting_clause(
    e: EngineView,
    reading: Seq<char>,
    kept: Option<Seq<char>>,
    skip_learning: bool,
    answers: AnswersView,
) -> Result<Option<SegmentView>, QuestionView> {
    match offered(e, reading, kept, skip_learning, answers) {
        Ok(list) => Ok(
            match candidate::selected(list) {
                Some(c) => Some(placeholder(reading, c)),
                None => None,
            },
        ),
        Err(question) => Err(question),
    }
}

/// The first `n` clauses out of focus.
pub open spec fn resting_clauses(
    e: EngineView,
    spans: Seq<SpanView>,
    reading: Seq<char>,
    surface: Seq<char>,
    skip_learning: bool,
    answers: AnswersView,
    n: int,
) -> Result<Seq<SegmentView>, QuestionView>
    decreases n,
{
    if n <= 0 {
        Ok(Seq::empty())
    } else {
        match resting_clauses(e, spans, reading, surface, skip_learning, answers, n - 1) {
            Ok(before) => match resting_clause(
                e,
                spans[n - 1].reading,
                kept_text(spans, reading, surface, n - 1),
                skip_learning,
                answers,
            ) {
                Ok(Some(segment)) => Ok(before.push(segment)),
                Ok(None) => Ok(before),
                Err(question) => Err(question),
            },
            Err(question) => Err(question),
        }
    }
}

/// The clauses to move among, none of them in focus yet; none at all where
/// the reading is a single clause.
pub open spec fn navigation_clauses(
    e: EngineView,
    reading: Seq<char>,
    surface: Seq<char>,
    skip_learning: bool,
    answers: AnswersView,
) -> Result<Seq<SegmentView>, QuestionView> {
    let spans = navigation_spans(e, reading, surface);
    if spans.len() <= 1 {
        Ok(Seq::empty())
    } else {
        resting_clauses(e, spans, reading, surface, skip_learning, answers, spans.len() as int)
    }
}

/// The clauses with one of them in focus: its list is completed, its text
/// stays on display.
pub open spec fn focused(
    e: EngineView,
    segments: Seq<SegmentView>,
    i: int,
    skip_learning: bool,
    answers: AnswersView,
) -> Result<Seq<SegmentView>, QuestionView> {
    if !segments[i].needs_expansion {
        Ok(segments)
    } else {
        match offered(
            e,
            segments[i].reading,
            Some(segment_text(segments[i])),
            skip_learning,
            answers,
        ) {
            Ok(list) => Ok(
                segments.update(
                    i,
                    SegmentView {
                        reading: segments[i].reading,
                        candidates: list,
                        needs_expansion: false,
                    },
                ),
            ),
            Err(question) => Err(question),
        }
    }
}

/// A list of clauses that was built, or what has to be known first.
pub open spec fn built(
    expected: Result<Seq<SegmentView>, QuestionView>,
    r: Result<Vec<ConversionSegment>, Question>,
) -> bool {
    match r {
        Ok(segments) => expected == Ok::<Seq<SegmentView>, QuestionView>(segments.deep_view()),
        Err(question) => expected == Err::<Seq<SegmentView>, QuestionView>(question.deep_view()),
    }
}

fn tells(reading: &str, surface: &str) -> (r: bool)
    ensures
        r == tells_apart(reading@, surface@),
{
    !surface.is_empty() && !same_text(surface, reading)
}

fn single(reading: &str, c: Candidate) -> (r: ConversionSegment)
    ensures
        r.deep_view() == placeholder(reading@, c.deep_view()),
{
    let mut one: Vec<Candidate> = Vec::new();
    assert(one.deep_view() =~= Seq::empty());
    add_item(&mut one, c);
    assert(one.deep_view() =~= seq![c.deep_view()]);
    ConversionSegment {
        reading: reading.to_owned(),
        candidates: CandidateList::new(one),
        needs_expansion: true,
    }
}

impl InputMethodEngine {
    /// Asks for what has to be known of a reading.
    pub fn ask_reading(&self, reading: &str) -> (r: Question)
        ensures
            r.deep_view() == reading_question(self.deep_view(), reading@),
    {
        Question::Reading {
            reading: reading.to_owned(),
            context: self.truncate_context_for_api(),
            num_candidates: self.config.num_candidates,
            load_model: self.converters.kanji.is_none(),
        }
    }

    /// The list of candidates of a reading; a preferred text is selected.
    pub fn candidates_for(
        &self,
        reading: &str,
        preferred: &Option<String>,
        skip_learning: bool,
        answers: &Answers,
    ) -> (r: Result<CandidateList, Question>)
        ensures
            match r {
                Ok(list) => offered(
                    self.deep_view(),
                    reading@,
                    preferred.deep_view(),
                    skip_learning,
                    answers.deep_view(),
                ) == Ok::<ListView, QuestionView>(list.deep_view()),
                Err(question) => offered(
                    self.deep_view(),
                    reading@,
                    preferred.deep_view(),
                    skip_learning,
                    answers.deep_view(),
                ) == Err::<ListView, QuestionView>(question.deep_view()),
            },
    {
        match find_advice(&answers.advice, reading) {
            Some(advice) => Ok(
                candidate_list_for_conversion_segment(
                    &self.dicts.user,
                    &self.dicts.system,
                    self.learning.is_some(),
                    self.mode.current == InputMode::Emoji,
                    reading,
                    preferred,
                    skip_learning,
                    advice,
                ),
            ),
            None => Err(self.ask_reading(reading)),
        }
    }

    /// The clauses of a reading, as the dictionaries and the display tell
    /// them.
    fn spans_to_move_among(&self, reading: &str, surface: &str) -> (r: Vec<ReadingSpan>)
        ensures
            r.deep_view() == navigation_spans(self.deep_view(), reading@, surface@),
            spans::spans_reading(r.deep_view()) == reading@,
    {
        let chunk_len: usize = self.config.composing_chunk_len;
        let ghost e = self.deep_view();
        proof {
            segmentation::law_registered_clauses_keep_the_reading(
                e.user,
                e.system,
                segmentation::clause_limit(chunk_len as int),
                true,
                reading@,
                Seq::empty(),
            );
            assert(Seq::empty() + reading@ =~= reading@);
        }
        if !tells(reading, surface) {
            return split_reading_spans_preserving_user_dict(
                &self.dicts.user,
                &self.dicts.system,
                chunk_len,
                reading,
                true,
            );
        }
        let ghost task = alignment::alignment_task(
            e.user,
            e.system,
            chunk_len as int,
            reading@,
            surface@,
        );
        proof {
            alignment::lemma_dictionary_fits(&self.dicts.user);
            alignment::lemma_dictionary_fits(&self.dicts.system);
            alignment::law_aligned_clauses_keep_the_reading(task);
        }
        let aligned = split_navigation_spans_aligned_to_surface(
            &self.dicts.user,
            &self.dicts.system,
            chunk_len,
            reading,
            surface,
        );
        let clauses = match aligned {
            Some(clauses) => if clauses.len() > 1 {
                clauses
            } else {
                split_reading_spans_preserving_user_dict(
                    &self.dicts.user,
                    &self.dicts.system,
                    chunk_len,
                    reading,
                    true,
                )
            },
            None => split_reading_spans_preserving_user_dict(
                &self.dicts.user,
                &self.dicts.system,
                chunk_len,
                reading,
                true,
            ),
        };
        let n: usize = char_count(reading);
        proof {
            assert(spans::spans_reading(clauses.deep_view()) == reading@);
            spans::lemma_reading_is_measured(clauses.deep_view());
            spans::law_coalescing_keeps_the_reading(clauses.deep_view(), surface@.len() as int);
        }
        coalesce_spans_to_surface_len(clauses, surface)
    }

    /// A clause out of focus, if it has anything to show.
    fn resting(
        &self,
        reading: &str,
        kept: &Option<String>,
        skip_learning: bool,
        answers: &Answers,
    ) -> (r: Result<Option<ConversionSegment>, Question>)
        ensures
            match r {
                Ok(segment) => resting_clause(
                    self.deep_view(),
                    reading@,
                    kept.deep_view(),
                    skip_learning,
                    answers.deep_view(),
                ) == Ok::<Option<SegmentView>, QuestionView>(segment.deep_view()),
                Err(question) => resting_clause(
                    self.deep_view(),
                    reading@,
                    kept.deep_view(),
                    skip_learning,
                    answers.deep_view(),
                ) == Err::<Option<SegmentView>, QuestionView>(question.deep_view()),
            },
    {
        match self.candidates_for(reading, kept, skip_learning, answers) {
            Ok(list) => match list.selected() {
                Some(c) => Ok(Some(single(reading, c.clone()))),
                None => Ok(None),
            },
            Err(question) => Err(question),
        }
    }

    /// The clauses of a reading to move among; none where it is a single one.
    pub fn build_navigation_segments(
        &self,
        reading: &str,
        surface: &str,
        skip_learning: bool,
        answers: &Answers,
    ) -> (r: Result<Vec<ConversionSegment>, Question>)
        ensures
            built(
                navigation_clauses(
                    self.deep_view(),
                    reading@,
                    surface@,
                    skip_learning,
                    answers.deep_view(),
                ),
                r,
            ),
    {
        let clauses = self.spans_to_move_among(reading, surface);
        let ghost all = clauses.deep_view();
        let mut out: Vec<ConversionSegment> = Vec::new();
        assert(out.deep_view() =~= Seq::empty());
        if clauses.len() <= 1 {
            return Ok(out);
        }
        let n: usize = char_count(reading);
        proof {
            spans::lemma_reading_is_measured(all);
        }
        let apart = tells(reading, surface);
        let pieces: Vec<Option<String>> = if apart {
            split_surface_preserving_fixed_spans(surface, &clauses)
        } else {
            Vec::new()
        };
        proof {
            if apart {
                spans::law_anchors_keep_fixed_surfaces(surface@, all, 0);
            }
        }
        let mut i: usize = 0;
        while i < clauses.len()
            invariant
                i <= clauses@.len(),
                all == clauses.deep_view(),
                all == navigation_spans(self.deep_view(), reading@, surface@),
                all.len() > 1,
                apart == tells_apart(reading@, surface@),
                apart ==> pieces.deep_view() == spans::laid_out(surface@, all) && pieces@.len()
                    == clauses@.len(),
                resting_clauses(
                    self.deep_view(),
                    all,
                    reading@,
                    surface@,
                    skip_learning,
                    answers.deep_view(),
                    i as int,
                ) == Ok::<Seq<SegmentView>, QuestionView>(out.deep_view()),
            decreases clauses@.len() - i,
        {
            let clause = &clauses[i];
            assert(all[i as int] == clause.deep_view());
            let kept: Option<String> = match &clause.fixed_surface {
                Some(word) => Some(word.clone()),
                None => if apart {
                    assert(pieces.deep_view()[i as int] == pieces@[i as int].deep_view());
                    pieces[i].clone()
                } else {
                    None
                },
            };
            assert(kept.deep_view() == kept_text(all, reading@, surface@, i as int));
            match self.resting(clause.reading.as_str(), &kept, skip_learning, answers) {
                Ok(Some(segment)) => {
                    add_item(&mut out, segment);
                },
                Ok(None) => {},
                Err(question) => {
                    proof {
                        lemma_question_stays(
                            self.deep_view(),
                            all,
                            reading@,
                            surface@,
                            skip_learning,
                            answers.deep_view(),
                            i + 1,
                            all.len() as int,
                        );
                    }
                    return Err(question);
                },
            }
            i = i + 1;
        }
        Ok(out)
    }

    /// The clauses with one of them in focus.
    pub fn focus_segment(
        &self,
        segments: Vec<ConversionSegment>,
        i: usize,
        skip_learning: bool,
        answers: &Answers,
    ) -> (r: Result<Vec<ConversionSegment>, Question>)
        requires
            i < segments@.len(),
        ensures
            built(
                focused(
                    self.deep_view(),
                    segments.deep_view(),
                    i as int,
                    skip_learning,
                    answers.deep_view(),
                ),
                r,
            ),
    {
        let ghost all = segments.deep_view();
        let mut segments = segments;
        assert(all[i as int] == segments@[i as int].deep_view());
        if !segments[i].needs_expansion {
            return Ok(segments);
        }
        let reading = segments[i].reading.clone();
        let shown = Some(text_of_segment(&segments[i]));
        match self.candidates_for(reading.as_str(), &shown, skip_learning, answers) {
            Ok(list) => {
                let full = ConversionSegment { reading, candidates: list, needs_expansion: false };
                let ghost view = full.deep_view();
                segments.set(i, full);
                assert(segments.deep_view() =~= all.update(i as int, view));
                Ok(segments)
            },
            Err(question) => Err(question),
        }
    }
}

proof fn lemma_question_stays(
    e: EngineView,
    spans: Seq<SpanView>,
    reading: Seq<char>,
    surface: Seq<char>,
    skip_learning: bool,
    answers: AnswersView,
    i: int,
    n: int,
)
    requires
        0 <= i <= n,
        resting_clauses(e, spans, reading, surface, skip_learning, answers, i) is Err,
    ensures
        resting_clauses(e, spans, reading, surface, skip_learning, answers, n)
            == resting_clauses(e, spans, reading, surface, skip_learning, answers, i),
    decreases n - i,
{
    if i < n {
        lemma_question_stays(e, spans, reading, surface, skip_learning, answers, i, n - 1);
    }
}

} // verus!
