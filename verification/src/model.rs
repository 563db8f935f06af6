//! Running the conversion models, and converting while typing.

use vstd::prelude::*;
use crate::candidate::merge_candidates_dedup;
use crate::candidate;
use crate::clause_laws;
use crate::consult::{Answers, AnswersView, Question, QuestionView};
use crate::consult::find_converted;
use crate::consult;
use crate::engine::{EngineView, InputMethodEngine, MetricsView};
use crate::engine;
use crate::kana::{contains_kana, hiragana_to_katakana, suspicious_auto_conversion};
use crate::kana;
use crate::segmentation::split_reading_spans_preserving_user_dict;
use crate::segmentation;
use crate::spans::SpanView;
use crate::text::joined;

verus! {

/// Which models convert, and how many conversions each is to give.
#[derive(Debug, Clone, Copy, PartialEq, Eq, Structural)]
pub enum ConversionStrategy {
    /// The best conversion of the main model, then those of the light one.
    ParallelBeam { beam_width: usize },
    LightModelOnly,
    MainModelOnly,
    MainModelBeam { beam_width: usize },
}

/// What the models are to do: how many conversions each is to give, if any.
pub struct ModelQuery {
    pub katakana: String,
    pub context: String,
    pub main: Option<usize>,
    pub light: Option<usize>,
}

#[verifier::ext_equal]
pub struct QueryView {
    pub katakana: Seq<char>,
    pub context: Seq<char>,
    pub main: Option<usize>,
    pub light: Option<usize>,
}

impl DeepView for ModelQuery {
    type V = QueryView;

    open spec fn deep_view(&self) -> QueryView {
        QueryView {
            katakana: self.katakana@,
            context: self.context@,
            main: self.main,
            light: self.light,
        }
    }
}

/// What the models gave, and how long it took.
pub struct ModelReply {
    pub main: Vec<String>,
    pub light: Vec<String>,
    pub elapsed_ms: u64,
}

#[verifier::ext_equal]
pub struct ReplyView {
    pub main: Seq<Seq<char>>,
    pub light: Seq<Seq<char>>,
    pub elapsed_ms: u64,
}

impl DeepView for ModelReply {
    type V = ReplyView;

    open spec fn deep_view(&self) -> ReplyView {
        ReplyView {
            main: self.main.deep_view(),
            light: self.light.deep_view(),
            elapsed_ms: self.elapsed_ms,
        }
    }
}

/// What the models are to do for a reading. They see it in katakana. A
/// reading without kana is not for them, and neither is one whose model is
/// not loaded.
pub open spec fn model_query(
    e: EngineView,
    reading: Seq<char>,
    context: Seq<char>,
    strategy: ConversionStrategy,
) -> Option<QueryView> {
    let katakana = kana::in_katakana(reading);
    if !kana::any_char(reading, |c: char| kana::kana(c)) || e.kanji is None {
        None
    } else {
        match strategy {
            ConversionStrategy::ParallelBeam { beam_width } => if e.light_kanji is None {
                None
            } else {
                Some(QueryView { katakana, context, main: Some(1), light: Some(beam_width) })
            },
            ConversionStrategy::LightModelOnly => if e.light_kanji is None {
                None
            } else {
                Some(QueryView { katakana, context, main: None, light: Some(1) })
            },
            ConversionStrategy::MainModelOnly => Some(
                QueryView { katakana, context, main: Some(1), light: None },
            ),
            ConversionStrategy::MainModelBeam { beam_width } => Some(
                QueryView { katakana, context, main: Some(beam_width), light: None },
            ),
        }
    }
}

/// The conversions made of what the models gave.
pub open spec fn model_conversions(strategy: ConversionStrategy, reply: ReplyView) -> Seq<
    Seq<char>,
> {
    match strategy {
        ConversionStrategy::ParallelBeam { beam_width } => candidate::at_most(
            candidate::first_occurrences(reply.main + reply.light),
            beam_width as int,
        ),
        ConversionStrategy::LightModelOnly => reply.light,
        _ => reply.main,
    }
}

/// The name of the models that ran.
pub open spec fn models_that_ran(e: EngineView, strategy: ConversionStrategy) -> Seq<char> {
    let main = match e.kanji {
        Some(name) => name,
        None => Seq::empty(),
    };
    match strategy {
        ConversionStrategy::ParallelBeam { .. } => main + seq!['+'] + (match e.light_kanji {
            Some(name) => name,
            None => Seq::empty(),
        }),
        ConversionStrategy::LightModelOnly => match e.light_kanji {
            Some(name) => name,
            None => main,
        },
        _ => main,
    }
}

/// The engine after the models ran.
pub open spec fn after_models(
    e: EngineView,
    strategy: ConversionStrategy,
    reply: ReplyView,
) -> EngineView {
    EngineView {
        metrics: MetricsView {
            conversion_ms: reply.elapsed_ms,
            model_name: models_that_ran(e, strategy),
            ..e.metrics
        },
        ..e
    }
}

impl InputMethodEngine {
    fn plan_models(&self, reading: &str, context: &str, strategy: ConversionStrategy) -> (r: Option<
        ModelQuery,
    >)
        ensures
            r.deep_view() == model_query(self.deep_view(), reading@, context@, strategy),
    {
        if !contains_kana(reading) || self.converters.kanji.is_none() {
            return None;
        }
        let katakana = hiragana_to_katakana(reading);
        let context = context.to_owned();
        let light = self.converters.light_kanji.is_some();
        match strategy {
            ConversionStrategy::ParallelBeam { beam_width } => if light {
                Some(ModelQuery { katakana, context, main: Some(1), light: Some(beam_width) })
            } else {
                None
            },
            ConversionStrategy::LightModelOnly => if light {
                Some(ModelQuery { katakana, context, main: None, light: Some(1) })
            } else {
                None
            },
            ConversionStrategy::MainModelOnly => Some(
                ModelQuery { katakana, context, main: Some(1), light: None },
            ),
            ConversionStrategy::MainModelBeam { beam_width } => Some(
                ModelQuery { katakana, context, main: Some(beam_width), light: None },
            ),
        }
    }

    fn models_name(&self, strategy: ConversionStrategy) -> (r: String)
        ensures
            r@ == models_that_ran(self.deep_view(), strategy),
    {
        let main = match &self.converters.kanji {
            Some(model) => model.display_name.clone(),
            None => String::new(),
        };
        match strategy {
            ConversionStrategy::ParallelBeam { .. } => {
                let light = match &self.converters.light_kanji {
                    Some(model) => model.display_name.clone(),
                    None => String::new(),
                };
                let mut name = main;
                name.push('+');
                let whole = joined(name.as_str(), light.as_str());
                assert(whole@ =~= models_that_ran(self.deep_view(), strategy));
                whole
            },
            ConversionStrategy::LightModelOnly => match &self.converters.light_kanji {
                Some(model) => model.display_name.clone(),
                None => main,
            },
            _ => main,
        }
    }

    /// Converts a reading with the models. Where they have to run it says
    /// what they are to do; given what they gave, it says which conversions
    /// there are and notes which models ran and for how long.
    pub fn run_kana_kanji_conversion(
        &mut self,
        reading: &str,
        api_context: &str,
        strategy: ConversionStrategy,
        reply: Option<ModelReply>,
    ) -> (r: Result<Vec<String>, ModelQuery>)
        ensures
            match (model_query(old(self).deep_view(), reading@, api_context@, strategy), reply) {
                (None, _) => (r matches Ok(texts) && texts@.len() == 0)
                    && final(self).deep_view() == old(self).deep_view(),
                (Some(query), None) => (r matches Err(asked) && asked.deep_view() == query)
                    && final(self).deep_view() == old(self).deep_view(),
                (Some(_), Some(given)) => (r matches Ok(texts) && texts.deep_view()
                    == model_conversions(strategy, given.deep_view())) && final(self).deep_view()
                    == after_models(old(self).deep_view(), strategy, given.deep_view()),
            },
    {
        let query = match self.plan_models(reading, api_context, strategy) {
            Some(query) => query,
            None => return Ok(Vec::new()),
        };
        let given = match reply {
            Some(given) => given,
            None => return Err(query),
        };
        self.metrics.model_name = self.models_name(strategy);
        self.metrics.conversion_ms = given.elapsed_ms;
        Ok(
            match strategy {
                ConversionStrategy::ParallelBeam { beam_width } => merge_candidates_dedup(
                    given.main,
                    given.light,
                    beam_width,
                ),
                ConversionStrategy::LightModelOnly => given.light,
                _ => given.main,
            },
        )
    }
}

/// Which models convert for a number of candidates: the main one alone for a
/// single conversion, with the light one beside it for more where there is
/// one.
pub open spec fn strategy_for(e: EngineView, num_candidates: usize) -> ConversionStrategy {
    if num_candidates <= 1 {
        ConversionStrategy::MainModelOnly
    } else if e.light_kanji is Some {
        ConversionStrategy::ParallelBeam { beam_width: num_candidates }
    } else {
        ConversionStrategy::MainModelBeam { beam_width: num_candidates }
    }
}

impl InputMethodEngine {
    /// Which models convert for a number of candidates.
    pub fn determine_strategy(&self, num_candidates: usize) -> (r: ConversionStrategy)
        ensures
            r == strategy_for(self.deep_view(), num_candidates),
    {
        if num_candidates <= 1 {
            ConversionStrategy::MainModelOnly
        } else if self.converters.light_kanji.is_some() {
            ConversionStrategy::ParallelBeam { beam_width: num_candidates }
        } else {
            ConversionStrategy::MainModelBeam { beam_width: num_candidates }
        }
    }

    /// The models' conversions of a reading, as many as are wanted: the models
    /// run that are chosen for that number.
    pub fn model_advice(
        &mut self,
        reading: &str,
        context: &str,
        num_candidates: usize,
        reply: Option<ModelReply>,
    ) -> (r: Result<Vec<String>, ModelQuery>)
        ensures
            ({
                let e = old(self).deep_view();
                let strategy = strategy_for(e, num_candidates);
                match (model_query(e, reading@, context@, strategy), reply) {
                    (None, _) => (r matches Ok(texts) && texts@.len() == 0)
                        && final(self).deep_view() == e,
                    (Some(query), None) => (r matches Err(asked) && asked.deep_view() == query)
                        && final(self).deep_view() == e,
                    (Some(_), Some(given)) => (r matches Ok(texts) && texts.deep_view()
                        == model_conversions(strategy, given.deep_view()))
                        && final(self).deep_view() == after_models(e, strategy, given.deep_view()),
                }
            }),
    {
        let strategy = self.determine_strategy(num_candidates);
        self.run_kana_kanji_conversion(reading, context, strategy, reply)
    }
}

/// What the chosen models are asked is always something they can do: where
/// the main model is loaded and the reading has kana, they run.
pub proof fn law_the_strategy_can_be_followed(
    e: EngineView,
    reading: Seq<char>,
    context: Seq<char>,
    num_candidates: usize,
)
    requires
        e.kanji is Some,
        kana::any_char(reading, |c: char| kana::kana(c)),
    ensures
        model_query(e, reading, context, strategy_for(e, num_candidates)) is Some,
{
}

/// The text so far with one more span converted: a registered word as it is
/// registered, other text by the model, unless it looks like an invention.
pub open spec fn with_span(
    e: EngineView,
    span: SpanView,
    left: Seq<char>,
    so_far: Seq<char>,
    answers: AnswersView,
) -> Result<Seq<char>, QuestionView> {
    match span.fixed {
        Some(surface) => Ok(so_far + surface),
        None => {
            let context = engine::tail_of(
                left + so_far,
                e.config.max_api_context_len as int,
            );
            if !kana::any_char(span.reading, |c: char| kana::kana(c)) || e.kanji is None {
                Ok(so_far + span.reading)
            } else {
                match consult::conversion_for(answers.converted, span.reading, context) {
                    None => Err(QuestionView::Convert { reading: span.reading, context }),
                    Some(answer) => match answer.text {
                        Some(text) => if kana::suspicious(span.reading, text) {
                            Ok(so_far + span.reading)
                        } else {
                            Ok(so_far + text)
                        },
                        None => Ok(so_far + span.reading),
                    },
                }
            }
        },
    }
}

/// The first `n` spans converted.
pub open spec fn with_spans(
    e: EngineView,
    spans: Seq<SpanView>,
    left: Seq<char>,
    answers: AnswersView,
    n: int,
) -> Result<Seq<char>, QuestionView>
    decreases n,
{
    if n <= 0 {
        Ok(Seq::empty())
    } else {
        match with_spans(e, spans, left, answers, n - 1) {
            Ok(so_far) => with_span(e, spans[n - 1], left, so_far, answers),
            Err(question) => Err(question),
        }
    }
}

/// A reading converted without being asked for.
pub open spec fn auto_text(
    e: EngineView,
    reading: Seq<char>,
    left: Seq<char>,
    answers: AnswersView,
) -> Result<Seq<char>, QuestionView> {
    let spans = segmentation::registered_clauses(
        e.user,
        e.system,
        segmentation::clause_limit(e.config.composing_chunk_len as int),
        false,
        reading,
        Seq::empty(),
    );
    with_spans(e, spans, left, answers, spans.len() as int)
}

proof fn lemma_question_stays(
    e: EngineView,
    spans: Seq<SpanView>,
    left: Seq<char>,
    answers: AnswersView,
    i: int,
    n: int,
)
    requires
        0 <= i <= n,
        with_spans(e, spans, left, answers, i) is Err,
    ensures
        with_spans(e, spans, left, answers, n) == with_spans(e, spans, left, answers, i),
    decreases n - i,
{
    if i < n {
        lemma_question_stays(e, spans, left, answers, i, n - 1);
    }
}

impl InputMethodEngine {
    /// Converts a reading without being asked for: registered words as they
    /// are registered, the rest by the model behind what stands on the left,
    /// and nothing that looks like an invention.
    pub fn conservative_auto_convert_reading(
        &self,
        reading: &str,
        lctx: &str,
        answers: &Answers,
    ) -> (r: Result<String, Question>)
        ensures
            match r {
                Ok(text) => auto_text(self.deep_view(), reading@, lctx@, answers.deep_view())
                    == Ok::<Seq<char>, QuestionView>(text@),
                Err(question) => auto_text(self.deep_view(), reading@, lctx@, answers.deep_view())
                    == Err::<Seq<char>, QuestionView>(question.deep_view()),
            },
            match r {
                Ok(text) => clause_laws::piecewise(
                    self.deep_view(),
                    reading@,
                    lctx@,
                    answers.deep_view(),
                    text@,
                ),
                Err(question) => clause_laws::asks_for_a_piece(
                    self.deep_view(),
                    reading@,
                    answers.deep_view(),
                    question.deep_view(),
                ),
            },
    {
        proof {
            clause_laws::law_what_is_converted_while_typing(
                self.deep_view(),
                reading@,
                lctx@,
                answers.deep_view(),
            );
        }
        let spans = split_reading_spans_preserving_user_dict(
            &self.dicts.user,
            &self.dicts.system,
            self.config.composing_chunk_len,
            reading,
            false,
        );
        let ghost all = spans.deep_view();
        let ghost e = self.deep_view();
        let mut converted = String::new();
        let mut i: usize = 0;
        assert(converted@ =~= Seq::empty());
        while i < spans.len()
            invariant
                i <= spans@.len(),
                all == spans.deep_view(),
                e == self.deep_view(),
                match auto_text(e, reading@, lctx@, answers.deep_view()) {
                    Ok(text) => clause_laws::piecewise(
                        e,
                        reading@,
                        lctx@,
                        answers.deep_view(),
                        text,
                    ),
                    Err(question) => clause_laws::asks_for_a_piece(
                        e,
                        reading@,
                        answers.deep_view(),
                        question,
                    ),
                },
                auto_text(e, reading@, lctx@, answers.deep_view()) == with_spans(
                    e,
                    all,
                    lctx@,
                    answers.deep_view(),
                    all.len() as int,
                ),
                with_spans(e, all, lctx@, answers.deep_view(), i as int) == Ok::<
                    Seq<char>,
                    QuestionView,
                >(converted@),
            decreases spans@.len() - i,
        {
            let span = &spans[i];
            assert(all[i as int] == span.deep_view());
            match &span.fixed_surface {
                Some(surface) => {
                    converted = joined(converted.as_str(), surface.as_str());
                },
                None => {
                    let before = joined(lctx, converted.as_str());
                    let context = self.truncate_context(before.as_str());
                    let reading = span.reading.as_str();
                    if !contains_kana(reading) || self.converters.kanji.is_none() {
                        converted = joined(converted.as_str(), reading);
                    } else {
                        match find_converted(&answers.converted, reading, context.as_str()) {
                            None => {
                                proof {
                                    lemma_question_stays(
                                        e,
                                        all,
                                        lctx@,
                                        answers.deep_view(),
                                        i + 1,
                                        all.len() as int,
                                    );
                                }
                                return Err(
                                    Question::Convert { reading: span.reading.clone(), context },
                                );
                            },
                            Some(answer) => {
                                let text: &str = match &answer.text {
                                    Some(text) => text.as_str(),
                                    None => reading,
                                };
                                if suspicious_auto_conversion(reading, text) {
                                    converted = joined(converted.as_str(), reading);
                                } else {
                                    converted = joined(converted.as_str(), text);
                                }
                            },
                        }
                    }
                },
            }
            i = i + 1;
        }
        Ok(converted)
    }
}

} // verus!
