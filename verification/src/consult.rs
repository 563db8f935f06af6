//! What the engine asks the services around it, and their answers.
//!
//! The engine itself runs no model, reads no history and knows no romaji
//! rules. Where it needs such a thing for a key, it changes nothing and hands
//! out a question; the same key is then given again with the answer.

use vstd::prelude::*;
use crate::advice::{AdviceView, ReadingAdvice};
use crate::text::same_text;

verus! {

/// What the engine has to know to go on.
pub enum Question {
    /// All that the services say of a reading. The model is to see `context`
    /// on its left and to give `num_candidates` conversions, and is to be
    /// loaded first where `load_model` says so.
    Reading { reading: String, context: String, num_candidates: usize, load_model: bool },
    /// The model's single conversion of a reading behind `context`.
    Convert { reading: String, context: String },
    /// Whether the history held the conversion; it is to be dropped.
    Forget { reading: String, surface: String },
    /// The kana of romaji that will not be continued.
    Flush { buffer: String },
    /// What a further character makes of pending romaji.
    Type { buffer: String, ch: char },
}

#[verifier::ext_equal]
pub enum QuestionView {
    Reading { reading: Seq<char>, context: Seq<char>, num_candidates: int, load_model: bool },
    Convert { reading: Seq<char>, context: Seq<char> },
    Forget { reading: Seq<char>, surface: Seq<char> },
    Flush { buffer: Seq<char> },
    Type { buffer: Seq<char>, ch: char },
}

impl DeepView for Question {
    type V = QuestionView;

    open spec fn deep_view(&self) -> QuestionView {
        match *self {
            Question::Reading { reading, context, num_candidates, load_model } =>
                QuestionView::Reading {
                reading: reading@,
                context: context@,
                num_candidates: num_candidates as int,
                load_model,
            },
            Question::Convert { reading, context } => QuestionView::Convert {
                reading: reading@,
                context: context@,
            },
            Question::Forget { reading, surface } => QuestionView::Forget {
                reading: reading@,
                surface: surface@,
            },
            Question::Flush { buffer } => QuestionView::Flush { buffer: buffer@ },
            Question::Type { buffer, ch } => QuestionView::Type { buffer: buffer@, ch },
        }
    }
}

/// The model's conversion of a reading, if it has one.
pub struct Converted {
    pub reading: String,
    pub context: String,
    pub text: Option<String>,
}

#[verifier::ext_equal]
pub struct ConvertedView {
    pub reading: Seq<char>,
    pub context: Seq<char>,
    pub text: Option<Seq<char>>,
}

impl DeepView for Converted {
    type V = ConvertedView;

    open spec fn deep_view(&self) -> ConvertedView {
        ConvertedView {
            reading: self.reading@,
            context: self.context@,
            text: self.text.deep_view(),
        }
    }
}

/// Whether a conversion was in the history.
pub struct Forgotten {
    pub reading: String,
    pub surface: String,
    pub removed: bool,
}

#[verifier::ext_equal]
pub struct ForgottenView {
    pub reading: Seq<char>,
    pub surface: Seq<char>,
    pub removed: bool,
}

impl DeepView for Forgotten {
    type V = ForgottenView;

    open spec fn deep_view(&self) -> ForgottenView {
        ForgottenView { reading: self.reading@, surface: self.surface@, removed: self.removed }
    }
}

/// The kana of romaji that is not continued.
pub struct Flushed {
    pub buffer: String,
    pub kana: String,
}

#[verifier::ext_equal]
pub struct FlushedView {
    pub buffer: Seq<char>,
    pub kana: Seq<char>,
}

impl DeepView for Flushed {
    type V = FlushedView;

    open spec fn deep_view(&self) -> FlushedView {
        FlushedView { buffer: self.buffer@, kana: self.kana@ }
    }
}

/// What a character makes of pending romaji: finished kana, and what is still
/// pending.
pub struct RomajiStep {
    pub buffer: String,
    pub ch: char,
    pub kana: String,
    pub rest: String,
}

#[verifier::ext_equal]
pub struct StepView {
    pub buffer: Seq<char>,
    pub ch: char,
    pub kana: Seq<char>,
    pub rest: Seq<char>,
}

impl DeepView for RomajiStep {
    type V = StepView;

    open spec fn deep_view(&self) -> StepView {
        StepView { buffer: self.buffer@, ch: self.ch, kana: self.kana@, rest: self.rest@ }
    }
}

/// The answers given so far for the key at hand.
pub struct Answers {
    pub advice: Vec<ReadingAdvice>,
    pub converted: Vec<Converted>,
    pub forgotten: Vec<Forgotten>,
    pub flushed: Vec<Flushed>,
    pub typed: Vec<RomajiStep>,
}

#[verifier::ext_equal]
pub struct AnswersView {
    pub advice: Seq<AdviceView>,
    pub converted: Seq<ConvertedView>,
    pub forgotten: Seq<ForgottenView>,
    pub flushed: Seq<FlushedView>,
    pub typed: Seq<StepView>,
}

impl DeepView for Answers {
    type V = AnswersView;

    open spec fn deep_view(&self) -> AnswersView {
        AnswersView {
            advice: self.advice.deep_view(),
            converted: self.converted.deep_view(),
            forgotten: self.forgotten.deep_view(),
            flushed: self.flushed.deep_view(),
            typed: self.typed.deep_view(),
        }
    }
}

/// No answers.
pub open spec fn no_answers() -> AnswersView {
    AnswersView {
        advice: Seq::empty(),
        converted: Seq::empty(),
        forgotten: Seq::empty(),
        flushed: Seq::empty(),
        typed: Seq::empty(),
    }
}

impl Answers {
    /// No answers.
    pub fn new() -> (r: Self)
        ensures
            r.deep_view() == no_answers(),
    {
        let r = Answers {
            advice: Vec::new(),
            converted: Vec::new(),
            forgotten: Vec::new(),
            flushed: Vec::new(),
            typed: Vec::new(),
        };
        assert(r.deep_view() =~= no_answers());
        r
    }
}

/// What the services say of a reading; the latest counts.
pub open spec fn advice_for(list: Seq<AdviceView>, reading: Seq<char>) -> Option<AdviceView>
    decreases list.len(),
{
    if list.len() == 0 {
        None
    } else if list.last().reading == reading {
        Some(list.last())
    } else {
        advice_for(list.drop_last(), reading)
    }
}

/// What the services say of a reading.
pub fn find_advice<'a>(list: &'a Vec<ReadingAdvice>, reading: &str) -> (r: Option<&'a ReadingAdvice>)
    ensures
        match r {
            Some(x) => advice_for(list.deep_view(), reading@) == Some(x.deep_view()),
            None => advice_for(list.deep_view(), reading@) is None,
        },
{
    let ghost all = list.deep_view();
    let mut i: usize = list.len();
    assert(all.take(i as int) =~= all);
    while i > 0
        invariant
            i <= list@.len(),
            all == list.deep_view(),
            advice_for(all, reading@) == advice_for(all.take(i as int), reading@),
        decreases i,
    {
        assert(all.take(i as int).last() == list@[i - 1].deep_view());
        assert(all.take(i as int).drop_last() =~= all.take(i - 1));
        let x = &list[i - 1];
        if same_text(x.reading.as_str(), reading) {
            return Some(x);
        }
        i = i - 1;
    }
    None
}

/// The model's conversion of a reading behind a context; the latest counts.
pub open spec fn conversion_for(list: Seq<ConvertedView>, reading: Seq<char>, context: Seq<char>) -> Option<ConvertedView>
    decreases list.len(),
{
    if list.len() == 0 {
        None
    } else if list.last().reading == reading && list.last().context == context {
        Some(list.last())
    } else {
        conversion_for(list.drop_last(), reading, context)
    }
}

/// The model's conversion of a reading behind a context.
pub fn find_converted<'a>(list: &'a Vec<Converted>, reading: &str, context: &str) -> (r: Option<&'a Converted>)
    ensures
        match r {
            Some(x) => conversion_for(list.deep_view(), reading@, context@) == Some(x.deep_view()),
            None => conversion_for(list.deep_view(), reading@, context@) is None,
        },
{
    let ghost all = list.deep_view();
    let mut i: usize = list.len();
    assert(all.take(i as int) =~= all);
    while i > 0
        invariant
            i <= list@.len(),
            all == list.deep_view(),
            conversion_for(all, reading@, context@) == conversion_for(all.take(i as int), reading@, context@),
        decreases i,
    {
        assert(all.take(i as int).last() == list@[i - 1].deep_view());
        assert(all.take(i as int).drop_last() =~= all.take(i - 1));
        let x = &list[i - 1];
        if same_text(x.reading.as_str(), reading) && same_text(x.context.as_str(), context) {
            return Some(x);
        }
        i = i - 1;
    }
    None
}

/// Whether a conversion was dropped from the history; the latest counts.
pub open spec fn forgotten_for(list: Seq<ForgottenView>, reading: Seq<char>, surface: Seq<char>) -> Option<ForgottenView>
    decreases list.len(),
{
    if list.len() == 0 {
        None
    } else if list.last().reading == reading && list.last().surface == surface {
        Some(list.last())
    } else {
        forgotten_for(list.drop_last(), reading, surface)
    }
}

/// Whether a conversion was dropped from the history.
pub fn find_forgotten<'a>(list: &'a Vec<Forgotten>, reading: &str, surface: &str) -> (r: Option<&'a Forgotten>)
    ensures
        match r {
            Some(x) => forgotten_for(list.deep_view(), reading@, surface@) == Some(x.deep_view()),
            None => forgotten_for(list.deep_view(), reading@, surface@) is None,
        },
{
    let ghost all = list.deep_view();
    let mut i: usize = list.len();
    assert(all.take(i as int) =~= all);
    while i > 0
        invariant
            i <= list@.len(),
            all == list.deep_view(),
            forgotten_for(all, reading@, surface@) == forgotten_for(all.take(i as int), reading@, surface@),
        decreases i,
    {
        assert(all.take(i as int).last() == list@[i - 1].deep_view());
        assert(all.take(i as int).drop_last() =~= all.take(i - 1));
        let x = &list[i - 1];
        if same_text(x.reading.as_str(), reading) && same_text(x.surface.as_str(), surface) {
            return Some(x);
        }
        i = i - 1;
    }
    None
}

/// The kana of romaji that is not continued; the latest counts.
pub open spec fn flushed_for(list: Seq<FlushedView>, buffer: Seq<char>) -> Option<FlushedView>
    decreases list.len(),
{
    if list.len() == 0 {
        None
    } else if list.last().buffer == buffer {
        Some(list.last())
    } else {
        flushed_for(list.drop_last(), buffer)
    }
}

/// The kana of romaji that is not continued.
pub fn find_flushed<'a>(list: &'a Vec<Flushed>, buffer: &str) -> (r: Option<&'a Flushed>)
    ensures
        match r {
            Some(x) => flushed_for(list.deep_view(), buffer@) == Some(x.deep_view()),
            None => flushed_for(list.deep_view(), buffer@) is None,
        },
{
    let ghost all = list.deep_view();
    let mut i: usize = list.len();
    assert(all.take(i as int) =~= all);
    while i > 0
        invariant
            i <= list@.len(),
            all == list.deep_view(),
            flushed_for(all, buffer@) == flushed_for(all.take(i as int), buffer@),
        decreases i,
    {
        assert(all.take(i as int).last() == list@[i - 1].deep_view());
        assert(all.take(i as int).drop_last() =~= all.take(i - 1));
        let x = &list[i - 1];
        if same_text(x.buffer.as_str(), buffer) {
            return Some(x);
        }
        i = i - 1;
    }
    None
}

/// What a character makes of pending romaji; the latest counts.
pub open spec fn step_for(list: Seq<StepView>, buffer: Seq<char>, ch: char) -> Option<StepView>
    decreases list.len(),
{
    if list.len() == 0 {
        None
    } else if list.last().buffer == buffer && list.last().ch == ch {
        Some(list.last())
    } else {
        step_for(list.drop_last(), buffer, ch)
    }
}

/// What a character makes of pending romaji.
pub fn find_step<'a>(list: &'a Vec<RomajiStep>, buffer: &str, ch: char) -> (r: Option<&'a RomajiStep>)
    ensures
        match r {
            Some(x) => step_for(list.deep_view(), buffer@, ch) == Some(x.deep_view()),
            None => step_for(list.deep_view(), buffer@, ch) is None,
        },
{
    let ghost all = list.deep_view();
    let mut i: usize = list.len();
    assert(all.take(i as int) =~= all);
    while i > 0
        invariant
            i <= list@.len(),
            all == list.deep_view(),
            step_for(all, buffer@, ch) == step_for(all.take(i as int), buffer@, ch),
        decreases i,
    {
        assert(all.take(i as int).last() == list@[i - 1].deep_view());
        assert(all.take(i as int).drop_last() =~= all.take(i - 1));
        let x = &list[i - 1];
        if same_text(x.buffer.as_str(), buffer) && x.ch == ch {
            return Some(x);
        }
        i = i - 1;
    }
    None
}

/// Whether the answers already settle a question.
pub open spec fn settled(answers: AnswersView, question: QuestionView) -> bool {
    match question {
        QuestionView::Reading { reading, .. } => advice_for(answers.advice, reading) is Some,
        QuestionView::Convert { reading, context } => conversion_for(
            answers.converted,
            reading,
            context,
        ) is Some,
        QuestionView::Forget { reading, surface } => forgotten_for(
            answers.forgotten,
            reading,
            surface,
        ) is Some,
        QuestionView::Flush { buffer } => flushed_for(answers.flushed, buffer) is Some,
        QuestionView::Type { buffer, ch } => step_for(answers.typed, buffer, ch) is Some,
    }
}

} // verus!
